//! The branch name, read off the folders of the repository URL's path.
//!
//! The first folder named `trunk`, `branches` or `tags` (in any mix of upper
//! and lower case) decides. `trunk` is itself the branch name. Behind
//! `branches` or `tags` the branch name is the first folder that is not
//! blacklisted; the blacklist is matched letter for letter.

use crate::error::{result_text, AppErr};
use crate::info::WorkingCopyInfo;
use crate::location::{parse_url_path, url_path};
use crate::segments::{
    chars_of, law_folder_is_one_segment, law_slash_parts_segments, segments, split_path, texts,
};
use vstd::prelude::*;

verus! {

/// `c`, with an ASCII capital letter replaced by its small letter.
pub open spec fn ascii_lower(c: char) -> char {
    if 'A' <= c && c <= 'Z' {
        ((c as int) + 32) as char
    } else {
        c
    }
}

/// `s` with every ASCII capital letter replaced by its small letter.
pub open spec fn lowercase(s: Seq<char>) -> Seq<char> {
    Seq::new(s.len(), |i: int| ascii_lower(s[i]))
}

/// Whether `seg` is the folder name `trunk`, in any case.
pub open spec fn is_trunk(seg: Seq<char>) -> bool {
    lowercase(seg) == seq!['t', 'r', 'u', 'n', 'k']
}

/// Whether `seg` is the folder name `branches` or `tags`, in any case.
pub open spec fn is_branches_or_tags(seg: Seq<char>) -> bool {
    lowercase(seg) == seq!['b', 'r', 'a', 'n', 'c', 'h', 'e', 's'] || lowercase(seg) == seq![
        't',
        'a',
        'g',
        's',
    ]
}

/// The names that a blacklist holds.
pub open spec fn names(blacklist: Seq<String>) -> Set<Seq<char>> {
    Set::new(|name: Seq<char>| exists|i: int| 0 <= i < blacklist.len() && blacklist[i]@ == name)
}

/// The first of `segs` that is not blacklisted; `BranchNameNotFound` where
/// there is none.
pub open spec fn first_allowed(segs: Seq<Seq<char>>, blacklist: Set<Seq<char>>) -> Result<
    Seq<char>,
    AppErr,
>
    decreases segs.len(),
{
    if segs.len() == 0 {
        Err(AppErr::BranchNameNotFound)
    } else if blacklist.contains(segs[0]) {
        first_allowed(segs.drop_first(), blacklist)
    } else {
        Ok(segs[0])
    }
}

/// The branch name that the folders `segs` give, read from the left.
pub open spec fn branch_name(segs: Seq<Seq<char>>, blacklist: Set<Seq<char>>) -> Result<
    Seq<char>,
    AppErr,
>
    decreases segs.len(),
{
    if segs.len() == 0 {
        Err(AppErr::UnexpectedRepoLayout)
    } else if is_trunk(segs[0]) {
        Ok(segs[0])
    } else if is_branches_or_tags(segs[0]) {
        first_allowed(segs.drop_first(), blacklist)
    } else {
        branch_name(segs.drop_first(), blacklist)
    }
}

/// Whether `seg` is one of the three folder names that decide the branch.
pub open spec fn is_layout_folder(seg: Seq<char>) -> bool {
    is_trunk(seg) || is_branches_or_tags(seg)
}

/// Folders in front that are none of `trunk`, `branches` and `tags` do not
/// change the answer.
pub proof fn lemma_plain_folders_are_passed(
    segs: Seq<Seq<char>>,
    blacklist: Set<Seq<char>>,
    i: int,
)
    requires
        0 <= i <= segs.len(),
        forall|j: int| 0 <= j < i ==> !is_layout_folder(#[trigger] segs[j]),
    ensures
        branch_name(segs, blacklist) == branch_name(segs.skip(i), blacklist),
    decreases i,
{
    if i == 0 {
        assert(segs.skip(0) =~= segs);
    } else {
        let rest = segs.drop_first();
        assert(!is_layout_folder(segs[0]));
        assert forall|j: int| 0 <= j < i - 1 implies !is_layout_folder(#[trigger] rest[j]) by {
            assert(rest[j] == segs[j + 1]);
        }
        lemma_plain_folders_are_passed(rest, blacklist, i - 1);
        assert(rest.skip(i - 1) =~= segs.skip(i));
    }
}

/// Blacklisted folders in front do not change which folder is the first
/// that is allowed.
pub proof fn lemma_blacklisted_folders_are_passed(
    segs: Seq<Seq<char>>,
    blacklist: Set<Seq<char>>,
    k: int,
)
    requires
        0 <= k <= segs.len(),
        forall|j: int| 0 <= j < k ==> blacklist.contains(#[trigger] segs[j]),
    ensures
        first_allowed(segs, blacklist) == first_allowed(segs.skip(k), blacklist),
    decreases k,
{
    if k == 0 {
        assert(segs.skip(0) =~= segs);
    } else {
        let rest = segs.drop_first();
        assert(blacklist.contains(segs[0]));
        assert forall|j: int| 0 <= j < k - 1 implies blacklist.contains(#[trigger] rest[j]) by {
            assert(rest[j] == segs[j + 1]);
        }
        lemma_blacklisted_folders_are_passed(rest, blacklist, k - 1);
        assert(rest.skip(k - 1) =~= segs.skip(k));
    }
}

/// Where the first of the three deciding folder names in a path is `trunk`,
/// in whatever case, the branch name is that folder as it is written.
pub proof fn law_trunk_names_itself(segs: Seq<Seq<char>>, blacklist: Set<Seq<char>>, i: int)
    requires
        0 <= i < segs.len(),
        is_trunk(segs[i]),
        forall|j: int| 0 <= j < i ==> !is_layout_folder(#[trigger] segs[j]),
    ensures
        branch_name(segs, blacklist) == Ok::<Seq<char>, AppErr>(segs[i]),
{
    lemma_plain_folders_are_passed(segs, blacklist, i);
    assert(segs.skip(i)[0] == segs[i]);
}

/// The same for a path as it is written: in `front/name/back`, where no
/// folder of `front` is one of the three and `name` is `trunk` in whatever
/// case, the branch name is `name`.
pub proof fn law_trunk_in_path(
    front: Seq<char>,
    name: Seq<char>,
    back: Seq<char>,
    blacklist: Set<Seq<char>>,
)
    requires
        is_trunk(name),
        forall|j: int|
            0 <= j < segments(front).len() ==> !is_layout_folder(#[trigger] segments(front)[j]),
    ensures
        branch_name(segments(front.push('/') + (name.push('/') + back)), blacklist) == Ok::<
            Seq<char>,
            AppErr,
        >(name),
{
    assert(lowercase(name).len() == 5);
    assert forall|k: int| 0 <= k < name.len() implies name[k] != '/' by {
        assert(lowercase(name)[k] == ascii_lower(name[k]));
        assert(lowercase(name)[k] != '/');
    }
    law_folder_is_one_segment(name);
    law_slash_parts_segments(name, back);
    law_slash_parts_segments(front, name.push('/') + back);
    let segs = segments(front.push('/') + (name.push('/') + back));
    let i = segments(front).len() as int;
    assert(segs =~= segments(front) + (seq![name] + segments(back)));
    assert(segs[i] == name);
    assert forall|j: int| 0 <= j < i implies !is_layout_folder(#[trigger] segs[j]) by {
        assert(segs[j] == segments(front)[j]);
    }
    law_trunk_names_itself(segs, blacklist, i);
}

/// Where the first of the three deciding folder names is `branches` or
/// `tags` and the folder behind it is not blacklisted, that folder is the
/// branch name.
pub proof fn law_folder_behind_branches(segs: Seq<Seq<char>>, blacklist: Set<Seq<char>>, i: int)
    requires
        0 <= i,
        i + 1 < segs.len(),
        is_branches_or_tags(segs[i]),
        forall|j: int| 0 <= j < i ==> !is_layout_folder(#[trigger] segs[j]),
        !blacklist.contains(segs[i + 1]),
    ensures
        branch_name(segs, blacklist) == Ok::<Seq<char>, AppErr>(segs[i + 1]),
{
    law_first_allowed_folder(segs, blacklist, i, i + 1);
}

/// Behind `branches` or `tags`, blacklisted folders are passed over: the
/// branch name is the first folder that is not blacklisted.
pub proof fn law_first_allowed_folder(
    segs: Seq<Seq<char>>,
    blacklist: Set<Seq<char>>,
    i: int,
    k: int,
)
    requires
        0 <= i < k < segs.len(),
        is_branches_or_tags(segs[i]),
        forall|j: int| 0 <= j < i ==> !is_layout_folder(#[trigger] segs[j]),
        forall|j: int| i < j < k ==> blacklist.contains(#[trigger] segs[j]),
        !blacklist.contains(segs[k]),
    ensures
        branch_name(segs, blacklist) == Ok::<Seq<char>, AppErr>(segs[k]),
{
    lemma_plain_folders_are_passed(segs, blacklist, i);
    let here = segs.skip(i);
    assert(here[0] == segs[i]);
    assert(!is_trunk(segs[i])) by {
        assert(lowercase(segs[i]).len() != 5);
    }
    let behind = here.drop_first();
    assert(behind =~= segs.skip(i + 1));
    assert forall|j: int| 0 <= j < k - i - 1 implies blacklist.contains(#[trigger] behind[j]) by {
        assert(behind[j] == segs[i + 1 + j]);
    }
    lemma_blacklisted_folders_are_passed(behind, blacklist, k - i - 1);
    assert(behind.skip(k - i - 1)[0] == segs[k]);
}

/// Where every folder behind the first `branches` or `tags` is blacklisted,
/// or none stands there, no branch name is found. A `trunk` further right
/// does not help.
pub proof fn law_all_blacklisted(segs: Seq<Seq<char>>, blacklist: Set<Seq<char>>, i: int)
    requires
        0 <= i < segs.len(),
        is_branches_or_tags(segs[i]),
        forall|j: int| 0 <= j < i ==> !is_layout_folder(#[trigger] segs[j]),
        forall|j: int| i < j < segs.len() ==> blacklist.contains(#[trigger] segs[j]),
    ensures
        branch_name(segs, blacklist) == Err::<Seq<char>, AppErr>(AppErr::BranchNameNotFound),
{
    lemma_plain_folders_are_passed(segs, blacklist, i);
    let here = segs.skip(i);
    assert(here[0] == segs[i]);
    assert(!is_trunk(segs[i])) by {
        assert(lowercase(segs[i]).len() != 5);
    }
    let behind = here.drop_first();
    assert(behind =~= segs.skip(i + 1));
    assert forall|j: int| 0 <= j < behind.len() implies blacklist.contains(#[trigger] behind[j]) by {
        assert(behind[j] == segs[i + 1 + j]);
    }
    lemma_blacklisted_folders_are_passed(behind, blacklist, behind.len() as int);
    assert(behind.skip(behind.len() as int).len() == 0);
}

/// A path without a folder named `trunk`, `branches` or `tags` has a layout
/// that gives no branch name.
pub proof fn law_no_layout_folder(segs: Seq<Seq<char>>, blacklist: Set<Seq<char>>)
    requires
        forall|j: int| 0 <= j < segs.len() ==> !is_layout_folder(#[trigger] segs[j]),
    ensures
        branch_name(segs, blacklist) == Err::<Seq<char>, AppErr>(AppErr::UnexpectedRepoLayout),
{
    lemma_plain_folders_are_passed(segs, blacklist, segs.len() as int);
    assert(segs.skip(segs.len() as int).len() == 0);
}

fn to_lower(c: char) -> (r: char)
    ensures
        r == ascii_lower(c),
{
    if c >= 'A' && c <= 'Z' {
        ((c as u8) + 32) as char
    } else {
        c
    }
}

/// Whether `seg` reads as `word` once its capital letters are made small.
fn lowercase_is(seg: &Vec<char>, word: &Vec<char>) -> (b: bool)
    ensures
        b == (lowercase(seg@) == word@),
{
    if seg.len() != word.len() {
        return false;
    }
    let mut k: usize = 0;
    while k < seg.len()
        invariant
            k <= seg.len() == word.len(),
            forall|j: int| 0 <= j < k ==> ascii_lower(seg@[j]) == word@[j],
        decreases seg.len() - k,
    {
        if to_lower(seg[k]) != word[k] {
            assert(lowercase(seg@)[k as int] != word@[k as int]);
            return false;
        }
        k += 1;
    }
    assert(lowercase(seg@) =~= word@);
    true
}

/// Whether `name` is on the blacklist, letter for letter.
pub fn is_blacklisted(name: &String, blacklist: &[String]) -> (b: bool)
    ensures
        b == names(blacklist@).contains(name@),
{
    let mut i: usize = 0;
    while i < blacklist.len()
        invariant
            i <= blacklist.len(),
            forall|j: int| 0 <= j < i ==> blacklist@[j]@ != name@,
        decreases blacklist.len() - i,
    {
        if blacklist[i] == *name {
            return true;
        }
        i += 1;
    }
    false
}

/// The branch name for a URL path that is already split into its folders.
pub fn branch_of_segments(segs: &[String], blacklist: &[String]) -> (r: Result<String, AppErr>)
    ensures
        result_text(r) == branch_name(texts(segs@), names(blacklist@)),
{
    let trunk: Vec<char> = vec!['t', 'r', 'u', 'n', 'k'];
    let branches: Vec<char> = vec!['b', 'r', 'a', 'n', 'c', 'h', 'e', 's'];
    let tags: Vec<char> = vec!['t', 'a', 'g', 's'];
    let ghost all = texts(segs@);
    let ghost listed = names(blacklist@);
    let mut i: usize = 0;
    proof {
        assert(all.skip(0) =~= all);
    }
    while i < segs.len()
        invariant
            i <= segs.len(),
            all == texts(segs@),
            listed == names(blacklist@),
            trunk@ == seq!['t', 'r', 'u', 'n', 'k'],
            branches@ == seq!['b', 'r', 'a', 'n', 'c', 'h', 'e', 's'],
            tags@ == seq!['t', 'a', 'g', 's'],
            branch_name(all, listed) == branch_name(all.skip(i as int), listed),
        decreases segs.len() - i,
    {
        proof {
            assert(all.skip(i as int).drop_first() =~= all.skip(i as int + 1));
            assert(all.skip(i as int)[0] == segs@[i as int]@);
        }
        let folder = chars_of(segs[i].as_str());
        if lowercase_is(&folder, &trunk) {
            return Ok(segs[i].clone());
        }
        if lowercase_is(&folder, &branches) || lowercase_is(&folder, &tags) {
            let mut j: usize = i + 1;
            while j < segs.len()
                invariant
                    i < j <= segs.len(),
                    all == texts(segs@),
                    listed == names(blacklist@),
                    branch_name(all, listed) == first_allowed(all.skip(j as int), listed),
                decreases segs.len() - j,
            {
                proof {
                    assert(all.skip(j as int).drop_first() =~= all.skip(j as int + 1));
                    assert(all.skip(j as int)[0] == segs@[j as int]@);
                }
                if !is_blacklisted(&segs[j], blacklist) {
                    return Ok(segs[j].clone());
                }
                j += 1;
            }
            return Err(AppErr::BranchNameNotFound);
        }
        i += 1;
    }
    Err(AppErr::UnexpectedRepoLayout)
}

/// The branch name for the path part of a repository URL.
pub fn branch_of_path(path: &str, blacklist: &[String]) -> (r: Result<String, AppErr>)
    ensures
        result_text(r) == branch_name(segments(path@), names(blacklist@)),
{
    let segs = split_path(path);
    branch_of_segments(segs.as_slice(), blacklist)
}

/// The branch name of the working copy that `info` describes.
///
/// Fails with `Url` exactly where the repository URL does not parse.
/// Otherwise the answer is the one that the folders of the URL's path give.
pub fn branch(info: &WorkingCopyInfo, blacklist: &[String]) -> (r: Result<String, AppErr>)
    ensures
        match url_path(info.url@) {
            Some(path) => result_text(r) == branch_name(segments(path), names(blacklist@)),
            None => r matches Err(AppErr::Url(_)),
        },
{
    match parse_url_path(info.url.as_str()) {
        Ok(path) => branch_of_path(path.as_str(), blacklist),
        Err(e) => Err(AppErr::Url(e)),
    }
}

} // verus!
