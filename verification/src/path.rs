//! Path convention and parsing. A path is a string of slash-separated
//! segments; a single leading slash is optional and stripped; every segment
//! must be non-empty. The spec side defines splitting mathematically, and
//! the executable parser is verified against it.

use vstd::prelude::*;
use crate::model::{valid_seg, valid_segs};

verus! {

/// Split `s` on `'/'`. The result always holds `s.len() + 1` pieces for a
/// string with `s.len()` separators; in particular the empty string splits
/// into one empty segment.
pub open spec fn split_slash(s: Seq<char>) -> Seq<Seq<char>>
    decreases s.len(),
{
    if s.len() == 0 {
        seq![Seq::<char>::empty()]
    } else if s.last() == '/' {
        split_slash(s.drop_last()).push(Seq::<char>::empty())
    } else {
        let r = split_slash(s.drop_last());
        r.update(r.len() - 1, r.last().push(s.last()))
    }
}

/// `s` with a single leading slash removed, if one is there.
pub open spec fn strip_leading_slash(s: Seq<char>) -> Seq<char> {
    if s.len() > 0 && s[0] == '/' {
        s.drop_first()
    } else {
        s
    }
}

/// Parse a path that must name a target entry: strip the optional leading
/// slash, split on `'/'`, and accept only when every segment is non-empty.
/// The empty path and the bare `"/"` are invalid here.
pub open spec fn parse_path(s: Seq<char>) -> Option<Seq<Seq<char>>> {
    let segs = split_slash(strip_leading_slash(s));
    if forall|i: int| 0 <= i < segs.len() ==> #[trigger] segs[i].len() > 0 {
        Some(segs)
    } else {
        None
    }
}

/// Parse a path naming a directory to list. The same convention, except
/// that the empty path and the bare `"/"` name the root and parse to zero
/// segments.
pub open spec fn parse_dir_path(s: Seq<char>) -> Option<Seq<Seq<char>>> {
    let t = strip_leading_slash(s);
    if t.len() == 0 {
        Some(Seq::empty())
    } else {
        parse_path(s)
    }
}

/// The views of a vector of owned segments.
pub open spec fn seg_views(s: Seq<String>) -> Seq<Seq<char>> {
    s.map_values(|x: String| x@)
}

/// Splitting always yields at least one segment, and no segment holds a
/// separator.
pub proof fn lemma_split_slash_wf(s: Seq<char>)
    ensures
        split_slash(s).len() > 0,
        forall|i: int|
            0 <= i < split_slash(s).len() ==> !(#[trigger] split_slash(s)[i]).contains('/'),
    decreases s.len(),
{
    if s.len() == 0 {
        assert forall|i: int|
            0 <= i < split_slash(s).len() implies !(#[trigger] split_slash(s)[i]).contains(
            '/',
        ) by {
            assert(split_slash(s)[i].len() == 0);
        }
    } else {
        lemma_split_slash_wf(s.drop_last());
        let r = split_slash(s.drop_last());
        if s.last() == '/' {
            assert forall|i: int|
                0 <= i < split_slash(s).len() implies !(#[trigger] split_slash(s)[i]).contains(
                '/',
            ) by {
                if i < r.len() {
                    assert(split_slash(s)[i] == r[i]);
                }
            }
        } else {
            assert forall|i: int|
                0 <= i < split_slash(s).len() implies !(#[trigger] split_slash(s)[i]).contains(
                '/',
            ) by {
                if i < r.len() - 1 {
                    assert(split_slash(s)[i] == r[i]);
                } else {
                    assert(split_slash(s)[i] == r.last().push(s.last()));
                    assert(!r.last().contains('/'));
                    assert forall|j: int|
                        0 <= j < r.last().push(s.last()).len() implies r.last().push(s.last())[j]
                        != '/' by {
                        if j < r.last().len() {
                            assert(r.last().push(s.last())[j] == r.last()[j]);
                        }
                    }
                }
            }
        }
    }
}

/// A parsed target path is a valid segment sequence.
pub proof fn lemma_parse_path_valid(s: Seq<char>)
    ensures
        parse_path(s) matches Some(segs) ==> valid_segs(segs),
{
    let t = strip_leading_slash(s);
    lemma_split_slash_wf(t);
    let segs = split_slash(t);
    if parse_path(s) is Some {
        assert(parse_path(s) == Some(segs));
        assert forall|i: int| 0 <= i < segs.len() implies valid_seg(#[trigger] segs[i]) by {
            assert(segs[i].len() > 0);
            assert(!segs[i].contains('/'));
        }
    }
}

/// Parse `path` into its segments, or report that it is invalid.
pub fn parse_segments(path: &str) -> (r: Option<Vec<String>>)
    ensures
        match r {
            Some(v) => parse_path(path@) == Some(seg_views(v@)) && valid_segs(seg_views(v@)),
            None => parse_path(path@) is None,
        },
{
    let len = path.unicode_len();
    let start: usize = if len > 0 && path.get_char(0) == '/' {
        1
    } else {
        0
    };
    let ghost t = strip_leading_slash(path@);
    proof {
        assert(t =~= path@.subrange(start as int, len as int));
    }
    let mut segs: Vec<String> = Vec::new();
    let mut st: usize = start;
    let mut i: usize = start;
    proof {
        assert(path@.subrange(start as int, start as int) =~= Seq::<char>::empty());
        assert(seg_views(segs@) =~= Seq::<Seq<char>>::empty());
        assert(split_slash(Seq::<char>::empty()) =~= seg_views(segs@).push(
            Seq::<char>::empty(),
        ));
    }
    while i < len
        invariant
            start <= st <= i <= len,
            len == path@.len(),
            t == path@.subrange(start as int, len as int),
            split_slash(path@.subrange(start as int, i as int)) == seg_views(segs@).push(
                path@.subrange(st as int, i as int),
            ),
        decreases len - i,
    {
        let c = path.get_char(i);
        let ghost prefix = path@.subrange(start as int, i as int);
        let ghost prefix1 = path@.subrange(start as int, i + 1);
        proof {
            assert(prefix1.drop_last() =~= prefix);
            assert(prefix1.last() == path@[i as int]);
        }
        if c == '/' {
            let seg = path.substring_char(st, i);
            segs.push(seg.to_owned());
            proof {
                assert(seg_views(segs@) =~= seg_views(segs@.drop_last()).push(
                    path@.subrange(st as int, i as int),
                ));
                assert(path@.subrange(i + 1, i + 1) =~= Seq::<char>::empty());
                assert(split_slash(prefix1) =~= split_slash(prefix).push(
                    Seq::<char>::empty(),
                ));
                assert(split_slash(prefix1) == seg_views(segs@).push(
                    path@.subrange(i + 1, i + 1),
                ));
            }
            st = i + 1;
        } else {
            proof {
                let r = split_slash(prefix);
                assert(r.last() == path@.subrange(st as int, i as int));
                assert(path@.subrange(st as int, i + 1) =~= path@.subrange(st as int, i as int).push(
                    path@[i as int],
                ));
                assert(split_slash(prefix1) =~= seg_views(segs@).push(
                    path@.subrange(st as int, i + 1),
                ));
            }
        }
        i = i + 1;
    }
    let last = path.substring_char(st, len);
    segs.push(last.to_owned());
    proof {
        assert(seg_views(segs@) =~= seg_views(segs@.drop_last()).push(
            path@.subrange(st as int, len as int),
        ));
        assert(split_slash(t) == seg_views(segs@));
    }
    let mut k: usize = 0;
    let n = segs.len();
    while k < n
        invariant
            n == segs@.len(),
            split_slash(t) == seg_views(segs@),
            t == strip_leading_slash(path@),
            forall|j: int| 0 <= j < k ==> (#[trigger] seg_views(segs@)[j]).len() > 0,
        decreases n - k,
    {
        if segs[k].as_str().is_empty() {
            proof {
                assert(seg_views(segs@)[k as int] == segs@[k as int]@);
            }
            return None;
        }
        proof {
            assert(seg_views(segs@)[k as int] == segs@[k as int]@);
        }
        k = k + 1;
    }
    proof {
        lemma_parse_path_valid(path@);
    }
    Some(segs)
}

} // verus!
