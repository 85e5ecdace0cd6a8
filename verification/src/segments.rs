//! Paths as sequences of segments.
//!
//! A path is text in which `/` separates segments. Empty segments (a leading
//! slash, a trailing slash, two slashes in a row) do not count.

use vstd::prelude::*;
use vstd::std_specs::iter::IteratorSpec;
use vstd::string::*;

verus! {

/// The segments of `p`: the maximal runs of characters other than `/`, in
/// order. Defined by reading `p` one character at a time: a slash adds
/// nothing, a character behind a non-slash extends the last segment, any
/// other character opens a new one.
pub open spec fn segments(p: Seq<char>) -> Seq<Seq<char>>
    decreases p.len(),
{
    if p.len() == 0 {
        Seq::empty()
    } else {
        let before = segments(p.drop_last());
        let c = p.last();
        if c == '/' {
            before
        } else if p.len() >= 2 && p[p.len() - 2] != '/' && before.len() > 0 {
            before.drop_last().push(before.last().push(c))
        } else {
            before.push(seq![c])
        }
    }
}

/// A path that ends in a character other than a slash has a segment.
pub proof fn lemma_open_path_has_segment(p: Seq<char>)
    requires
        p.len() > 0,
        p.last() != '/',
    ensures
        segments(p).len() > 0,
{
}

/// Every segment is a folder name: it is not empty and holds no slash.
pub proof fn law_segments_are_folders(p: Seq<char>, i: int)
    requires
        0 <= i < segments(p).len(),
    ensures
        segments(p)[i].len() > 0,
        !segments(p)[i].contains('/'),
    decreases p.len(),
{
    if p.len() > 0 {
        let before = segments(p.drop_last());
        let c = p.last();
        if c == '/' || i < segments(p).len() - 1 {
            assert(segments(p)[i] == before[i]);
            law_segments_are_folders(p.drop_last(), i);
        } else if p.len() >= 2 && p[p.len() - 2] != '/' && before.len() > 0 {
            law_segments_are_folders(p.drop_last(), i);
            assert(segments(p)[i] == before[i].push(c));
            assert forall|k: int| 0 <= k < segments(p)[i].len() implies segments(p)[i][k]
                != '/' by {
                if k < before[i].len() {
                    assert(before[i].contains(before[i][k]));
                }
            }
        } else {
            assert(segments(p)[i] == seq![c]);
        }
    }
}

/// A folder name is its own and only segment.
pub proof fn law_folder_is_one_segment(name: Seq<char>)
    requires
        name.len() > 0,
        !name.contains('/'),
    ensures
        segments(name) == seq![name],
    decreases name.len(),
{
    let shorter = name.drop_last();
    assert(name.contains(name.last()));
    if shorter.len() == 0 {
        assert(segments(shorter).len() == 0);
        assert(seq![name.last()] =~= name);
        assert(segments(name) =~= seq![name]);
    } else {
        assert forall|k: int| 0 <= k < shorter.len() implies shorter[k] != '/' by {
            assert(name.contains(name[k]));
        }
        law_folder_is_one_segment(shorter);
        assert(name[name.len() - 2] == shorter.last());
        assert(name.contains(name[name.len() - 2]));
        assert(shorter.push(name.last()) =~= name);
        assert(segments(name) =~= seq![name]);
    }
}

/// A slash parts a path in two: the segments of `a/b` are those of `a`
/// followed by those of `b`.
pub proof fn law_slash_parts_segments(a: Seq<char>, b: Seq<char>)
    ensures
        segments(a.push('/') + b) == segments(a) + segments(b),
    decreases b.len(),
{
    let p = a.push('/') + b;
    if b.len() == 0 {
        assert(p.drop_last() =~= a);
        assert(segments(a) + segments(b) =~= segments(a));
    } else {
        let shorter = b.drop_last();
        let c = b.last();
        assert(p.drop_last() =~= a.push('/') + shorter);
        assert(p.last() == c);
        law_slash_parts_segments(a, shorter);
        let before = segments(p.drop_last());
        if c == '/' {
        } else if b.len() >= 2 && b[b.len() - 2] != '/' {
            assert(p[p.len() - 2] == b[b.len() - 2]);
            lemma_open_path_has_segment(shorter);
            let last = segments(shorter).last();
            assert(before.last() == last);
            assert(before.drop_last() =~= segments(a) + segments(shorter).drop_last());
            assert(segments(p) =~= segments(a) + segments(b));
        } else {
            if b.len() >= 2 {
                assert(p[p.len() - 2] == b[b.len() - 2]);
            } else {
                assert(p[p.len() - 2] == '/');
            }
            assert(segments(p) =~= segments(a) + segments(b));
        }
    }
}

/// The texts of a list of strings, in order.
pub open spec fn texts(v: Seq<String>) -> Seq<Seq<char>> {
    Seq::new(v.len(), |i: int| v[i]@)
}

/// The characters of `s`, in order.
pub fn chars_of(s: &str) -> (chars: Vec<char>)
    ensures
        chars@ == s@,
{
    let mut chars: Vec<char> = Vec::new();
    let mut it = s.chars();
    proof {
        axiom_spec_iter(s);
    }
    loop
        invariant
            it.remaining().len() <= s@.len(),
            chars@ + it.remaining() == s@,
        ensures
            chars@ == s@,
        decreases s@.len() - chars@.len(),
    {
        let ghost before = it;
        let next = it.next();
        proof {
            next_postcondition(&before, &it, next);
        }
        match next {
            Some(c) => {
                chars.push(c);
                assert(chars@ + it.remaining() =~= s@);
            },
            None => {
                assert(chars@ =~= s@);
                break;
            },
        }
    }
    chars
}

/// Splits `path` at its slashes and returns the non-empty segments, in order
/// and with their characters unchanged.
pub fn split_path(path: &str) -> (segs: Vec<String>)
    ensures
        texts(segs@) == segments(path@),
{
    let chars = chars_of(path);
    let n = chars.len();
    let mut segs: Vec<String> = Vec::new();
    let mut start: usize = 0;
    let mut i: usize = 0;
    proof {
        assert(path@.take(0) =~= Seq::<char>::empty());
        assert(texts(segs@) =~= segments(path@.take(0)));
    }
    while i < n
        invariant
            chars@ == path@,
            n == chars@.len(),
            start <= i <= n,
            forall|k: int| start <= k < i ==> chars@[k] != '/',
            start == i ==> i == 0 || chars@[i - 1] == '/',
            segments(path@.take(i as int)) == if start < i {
                texts(segs@).push(path@.subrange(start as int, i as int))
            } else {
                texts(segs@)
            },
        decreases n - i,
    {
        let ghost before = texts(segs@);
        let ghost prefix = path@.take(i as int + 1);
        proof {
            assert(prefix.drop_last() =~= path@.take(i as int));
            assert(prefix.last() == chars@[i as int]);
        }
        if chars[i] == '/' {
            if start < i {
                let seg = path.substring_char(start, i).to_owned();
                segs.push(seg);
                assert(texts(segs@) =~= before.push(path@.subrange(start as int, i as int)));
            }
            start = i + 1;
        } else {
            proof {
                if start < i {
                    let open = path@.subrange(start as int, i as int);
                    assert(prefix[prefix.len() - 2] == chars@[i - 1]);
                    assert(before.push(open).drop_last() =~= before);
                    assert(open.push(chars@[i as int]) =~= path@.subrange(
                        start as int,
                        i as int + 1,
                    ));
                } else {
                    assert(seq![chars@[i as int]] =~= path@.subrange(start as int, i as int + 1));
                    if i > 0 {
                        assert(prefix[prefix.len() - 2] == chars@[i - 1]);
                    }
                }
            }
        }
        i += 1;
    }
    proof {
        assert(path@.take(n as int) =~= path@);
    }
    if start < n {
        let ghost before = texts(segs@);
        let seg = path.substring_char(start, n).to_owned();
        segs.push(seg);
        assert(texts(segs@) =~= before.push(path@.subrange(start as int, n as int)));
    }
    segs
}

} // verus!
