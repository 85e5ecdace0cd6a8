//! The root folder of the working copy.
//!
//! The relative path `^/a/b` says that the current directory lies two
//! folders, `a` and `b`, below the repository root. Read from the right and
//! side by side with the current directory's own folders, the folder that
//! stands where the marker `^` stands is the root folder.

use crate::error::{result_text, AppErr};
use crate::info::WorkingCopyInfo;
use crate::segments::{
    law_folder_is_one_segment, law_slash_parts_segments, segments, split_path, texts,
};
use vstd::prelude::*;
use vstd::string::*;

verus! {

/// The marker that stands for the repository root in a relative path.
pub open spec fn marker() -> Seq<char> {
    seq!['^']
}

/// The root folder that the segments `rel` of the relative path and the
/// folders `pwd` of the current directory give, both read from the right.
pub open spec fn root_folder(rel: Seq<Seq<char>>, pwd: Seq<Seq<char>>) -> Result<
    Seq<char>,
    AppErr,
>
    decreases rel.len(),
{
    if rel.len() == 0 || pwd.len() == 0 {
        Err(AppErr::ParseError)
    } else if rel.last() == marker() {
        Ok(pwd.last())
    } else if rel.last() != pwd.last() {
        Err(AppErr::ParseError)
    } else {
        root_folder(rel.drop_last(), pwd.drop_last())
    }
}

/// Where the relative path has the segments `tail` behind its marker and
/// the current directory ends in the folder `x` followed by the same `tail`,
/// the root folder is `x`.
pub proof fn law_root_stands_above_tail(
    before: Seq<Seq<char>>,
    tail: Seq<Seq<char>>,
    above: Seq<Seq<char>>,
    x: Seq<char>,
)
    requires
        forall|k: int| 0 <= k < tail.len() ==> #[trigger] tail[k] != marker(),
    ensures
        root_folder(before.push(marker()) + tail, above.push(x) + tail) == Ok::<
            Seq<char>,
            AppErr,
        >(x),
    decreases tail.len(),
{
    let rel = before.push(marker()) + tail;
    let pwd = above.push(x) + tail;
    if tail.len() == 0 {
        assert(rel.last() == marker());
        assert(pwd.last() == x);
    } else {
        let shorter = tail.drop_last();
        assert(rel.last() == tail.last());
        assert(pwd.last() == tail.last());
        assert(rel.drop_last() =~= before.push(marker()) + shorter);
        assert(pwd.drop_last() =~= above.push(x) + shorter);
        assert forall|k: int| 0 <= k < shorter.len() implies #[trigger] shorter[k] != marker() by {
            assert(shorter[k] == tail[k]);
        }
        law_root_stands_above_tail(before, shorter, above, x);
    }
}

/// The same for a relative path as it is written: for `^/` followed by the
/// path `tail`, and a current directory that ends in the folder `x` followed
/// by the segments of `tail`, the root folder is `x`.
pub proof fn law_root_of_marked_path(tail: Seq<char>, above: Seq<Seq<char>>, x: Seq<char>)
    requires
        forall|k: int| 0 <= k < segments(tail).len() ==> #[trigger] segments(tail)[k] != marker(),
    ensures
        root_folder(segments(marker().push('/') + tail), above.push(x) + segments(tail)) == Ok::<
            Seq<char>,
            AppErr,
        >(x),
{
    law_slash_parts_segments(marker(), tail);
    law_folder_is_one_segment(marker());
    let before = Seq::<Seq<char>>::empty();
    assert(before.push(marker()) =~= seq![marker()]);
    law_root_stands_above_tail(before, segments(tail), above, x);
}

/// Whether `pwd` ends in one more folder followed by exactly `tail`.
pub open spec fn ends_in_folder_and(pwd: Seq<Seq<char>>, tail: Seq<Seq<char>>) -> bool {
    pwd.len() > tail.len() && pwd.skip(pwd.len() - tail.len()) == tail
}

/// Where the current directory does not end in a folder followed by the
/// segments that stand behind the marker, the two do not line up.
pub proof fn law_other_tail_is_error(
    before: Seq<Seq<char>>,
    tail: Seq<Seq<char>>,
    pwd: Seq<Seq<char>>,
)
    requires
        forall|k: int| 0 <= k < tail.len() ==> #[trigger] tail[k] != marker(),
        !ends_in_folder_and(pwd, tail),
    ensures
        root_folder(before.push(marker()) + tail, pwd) == Err::<Seq<char>, AppErr>(
            AppErr::ParseError,
        ),
    decreases tail.len(),
{
    let rel = before.push(marker()) + tail;
    if tail.len() == 0 {
        if pwd.len() > 0 {
            assert(pwd.skip(pwd.len() - tail.len()) =~= tail);
        }
    } else if pwd.len() > 0 {
        let shorter = tail.drop_last();
        let outer = pwd.drop_last();
        assert(rel.last() == tail.last());
        assert(rel.drop_last() =~= before.push(marker()) + shorter);
        if tail.last() == pwd.last() {
            assert forall|k: int| 0 <= k < shorter.len() implies #[trigger] shorter[k]
                != marker() by {
                assert(shorter[k] == tail[k]);
            }
            if ends_in_folder_and(outer, shorter) {
                let d = pwd.len() - tail.len();
                assert forall|m: int| 0 <= m < tail.len() implies pwd.skip(d)[m] == tail[m] by {
                    if m < tail.len() - 1 {
                        assert(outer.skip(d)[m] == shorter[m]);
                    }
                }
                assert(pwd.skip(d) =~= tail);
            }
            law_other_tail_is_error(before, shorter, outer);
        }
    }
}

/// A relative path without a marker lines up with nothing.
pub proof fn law_no_marker_is_error(rel: Seq<Seq<char>>, pwd: Seq<Seq<char>>)
    requires
        forall|k: int| 0 <= k < rel.len() ==> #[trigger] rel[k] != marker(),
    ensures
        root_folder(rel, pwd) == Err::<Seq<char>, AppErr>(AppErr::ParseError),
    decreases rel.len(),
{
    if rel.len() > 0 && pwd.len() > 0 && rel.last() == pwd.last() {
        let shorter = rel.drop_last();
        assert forall|k: int| 0 <= k < shorter.len() implies #[trigger] shorter[k] != marker() by {
            assert(shorter[k] == rel[k]);
        }
        law_no_marker_is_error(shorter, pwd.drop_last());
    }
}

/// The root folder for a relative path that is already split into its
/// segments.
pub fn root_of_segments(rel: &[String], pwd: &[String]) -> (r: Result<String, AppErr>)
    ensures
        result_text(r) == root_folder(texts(rel@), texts(pwd@)),
{
    let caret = String::from_str("^");
    proof {
        reveal_strlit("^");
        assert(caret@ =~= marker());
    }
    let ghost all_rel = texts(rel@);
    let ghost all_pwd = texts(pwd@);
    let mut i: usize = rel.len();
    let mut j: usize = pwd.len();
    proof {
        assert(all_rel.take(i as int) =~= all_rel);
        assert(all_pwd.take(j as int) =~= all_pwd);
    }
    while i > 0 && j > 0
        invariant
            i <= rel.len(),
            j <= pwd.len(),
            caret@ == marker(),
            all_rel == texts(rel@),
            all_pwd == texts(pwd@),
            root_folder(all_rel, all_pwd) == root_folder(
                all_rel.take(i as int),
                all_pwd.take(j as int),
            ),
        decreases i,
    {
        proof {
            assert(all_rel.take(i as int).drop_last() =~= all_rel.take(i as int - 1));
            assert(all_pwd.take(j as int).drop_last() =~= all_pwd.take(j as int - 1));
            assert(all_rel.take(i as int).last() == rel@[i as int - 1]@);
            assert(all_pwd.take(j as int).last() == pwd@[j as int - 1]@);
        }
        i -= 1;
        j -= 1;
        if rel[i] == caret {
            return Ok(pwd[j].clone());
        }
        if rel[i] != pwd[j] {
            return Err(AppErr::ParseError);
        }
    }
    Err(AppErr::ParseError)
}

/// The root folder of the working copy that `info` describes, for the
/// current directory given by its folders `pwd`, outermost first.
pub fn root(info: &WorkingCopyInfo, pwd: &[String]) -> (r: Result<String, AppErr>)
    ensures
        result_text(r) == root_folder(segments(info.relative_url@), texts(pwd@)),
{
    let rel = split_path(info.relative_url.as_str());
    root_of_segments(rel.as_slice(), pwd)
}

} // verus!
