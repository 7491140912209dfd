//! Laws of the store, proved over the abstract model. Each public proof
//! function here states one property of the operations' model functions;
//! together with the operations' own contracts they carry over to any
//! sequence of calls.

use vstd::prelude::*;
use crate::model::{
    EntryV, create_at, create_conflicts, delete_at, dir_at, is_prefix_of, list_at, lookup,
    read_at, valid_segs,
};

verus! {

/// Dropping the first segment of a valid path of two or more segments
/// leaves a valid path.
proof fn lemma_valid_drop_first(segs: Seq<Seq<char>>)
    requires
        valid_segs(segs),
        segs.len() > 1,
    ensures
        valid_segs(segs.drop_first()),
{
    assert forall|i: int|
        0 <= i < segs.drop_first().len() implies crate::model::valid_seg(
        #[trigger] segs.drop_first()[i],
    ) by {
        assert(segs.drop_first()[i] == segs[i + 1]);
    }
}

/// Round trip: after creating a file, reading the same path yields exactly
/// the content written. Holds for every store state and every valid path
/// whose creation does not conflict with an existing file.
pub proof fn lemma_create_then_read(m: Map<Seq<char>, EntryV>, segs: Seq<Seq<char>>, c: Seq<char>)
    requires
        valid_segs(segs),
        !create_conflicts(m, segs),
    ensures
        read_at(create_at(m, segs, c), segs) == Some(c),
    decreases segs.len(),
{
    if segs.len() > 1 {
        lemma_valid_drop_first(segs);
        let sub = if m.dom().contains(segs[0]) {
            m[segs[0]].children_of()
        } else {
            Map::<Seq<char>, EntryV>::empty()
        };
        lemma_create_then_read(sub, segs.drop_first(), c);
    }
}

/// Deletion removes: after deleting a path, reading that same path finds
/// nothing, whatever the store held.
pub proof fn lemma_delete_then_read(m: Map<Seq<char>, EntryV>, segs: Seq<Seq<char>>)
    requires
        segs.len() > 0,
    ensures
        read_at(delete_at(m, segs), segs) is None,
    decreases segs.len(),
{
    if segs.len() > 1 && m.dom().contains(segs[0]) && m[segs[0]].is_dir() {
        lemma_delete_then_read(m[segs[0]].children_of(), segs.drop_first());
    }
}

/// Idempotent delete: deleting a path that resolves to nothing leaves the
/// store exactly as it was.
pub proof fn lemma_delete_absent(m: Map<Seq<char>, EntryV>, segs: Seq<Seq<char>>)
    requires
        segs.len() > 0,
        lookup(m, segs) is None,
    ensures
        delete_at(m, segs) == m,
    decreases segs.len(),
{
    if segs.len() == 1 {
        assert(delete_at(m, segs) =~= m);
    } else if m.dom().contains(segs[0]) && m[segs[0]].is_dir() {
        lemma_delete_absent(m[segs[0]].children_of(), segs.drop_first());
        assert(EntryV::Dir {
            children: delete_at(m[segs[0]].children_of(), segs.drop_first()),
        } == m[segs[0]]);
        assert(delete_at(m, segs) =~= m);
    }
}

/// Creating at `q` does not change what is read at any path `p` that `q` is
/// not a prefix of, provided the creation does not conflict.
pub proof fn lemma_create_preserves_other(
    m: Map<Seq<char>, EntryV>,
    q: Seq<Seq<char>>,
    p: Seq<Seq<char>>,
    c: Seq<char>,
)
    requires
        q.len() > 0,
        p.len() > 0,
        !create_conflicts(m, q),
        !is_prefix_of(q, p),
    ensures
        read_at(create_at(m, q, c), p) == read_at(m, p),
    decreases q.len(),
{
    let m2 = create_at(m, q, c);
    if p[0] != q[0] {
        assert(lookup(m2, p) == lookup(m, p));
    } else {
        assert(q.len() > 1) by {
            if q.len() == 1 {
                assert(q =~= p.take(1));
                assert(is_prefix_of(q, p));
            }
        }
        let sub = if m.dom().contains(q[0]) {
            m[q[0]].children_of()
        } else {
            Map::<Seq<char>, EntryV>::empty()
        };
        if m.dom().contains(q[0]) && !m[q[0]].is_dir() {
            assert(create_conflicts(m, q));
        }
        if p.len() == 1 {
            assert(read_at(m2, p) is None);
            assert(read_at(m, p) is None);
        } else {
            assert(!is_prefix_of(q.drop_first(), p.drop_first())) by {
                if is_prefix_of(q.drop_first(), p.drop_first()) {
                    assert forall|i: int|
                        0 <= i < q.len() implies q[i] == p.take(q.len() as int)[i] by {
                        if i > 0 {
                            assert(q.drop_first()[i - 1] == p.drop_first().take(
                                q.drop_first().len() as int,
                            )[i - 1]);
                        }
                    }
                    assert(q =~= p.take(q.len() as int));
                }
            }
            lemma_create_preserves_other(sub, q.drop_first(), p.drop_first(), c);
            assert(read_at(m2, p) == read_at(create_at(sub, q.drop_first(), c), p.drop_first()));
            if m.dom().contains(q[0]) && m[q[0]].is_dir() {
                assert(read_at(m, p) == read_at(sub, p.drop_first()));
            } else {
                assert(read_at(sub, p.drop_first()) is None);
                assert(read_at(m, p) is None);
            }
        }
    }
}

/// Deleting at `p` does not change what is read at any path `q` that `p` is
/// not a prefix of.
pub proof fn lemma_delete_preserves_other(
    m: Map<Seq<char>, EntryV>,
    p: Seq<Seq<char>>,
    q: Seq<Seq<char>>,
)
    requires
        p.len() > 0,
        q.len() > 0,
        !is_prefix_of(p, q),
    ensures
        read_at(delete_at(m, p), q) == read_at(m, q),
    decreases p.len(),
{
    let m2 = delete_at(m, p);
    if q[0] != p[0] {
        assert(lookup(m2, q) == lookup(m, q));
    } else {
        assert(p.len() > 1) by {
            if p.len() == 1 {
                assert(p =~= q.take(1));
                assert(is_prefix_of(p, q));
            }
        }
        if m.dom().contains(p[0]) && m[p[0]].is_dir() {
            let sub = m[p[0]].children_of();
            if q.len() == 1 {
                assert(read_at(m2, q) is None);
                assert(read_at(m, q) is None);
            } else {
                assert(!is_prefix_of(p.drop_first(), q.drop_first())) by {
                    if is_prefix_of(p.drop_first(), q.drop_first()) {
                        assert forall|i: int|
                            0 <= i < p.len() implies p[i] == q.take(p.len() as int)[i] by {
                            if i > 0 {
                                assert(p.drop_first()[i - 1] == q.drop_first().take(
                                    p.drop_first().len() as int,
                                )[i - 1]);
                            }
                        }
                        assert(p =~= q.take(p.len() as int));
                    }
                }
                lemma_delete_preserves_other(sub, p.drop_first(), q.drop_first());
            }
        }
    }
}

/// A path whose proper prefix resolves to a file cannot be created without
/// a conflict.
proof fn lemma_file_prefix_conflicts(
    m: Map<Seq<char>, EntryV>,
    p: Seq<Seq<char>>,
    q: Seq<Seq<char>>,
)
    requires
        p.len() > 0,
        is_prefix_of(p, q),
        p.len() < q.len(),
        lookup(m, p) matches Some(e) && !e.is_dir(),
    ensures
        create_conflicts(m, q),
    decreases p.len(),
{
    assert(p[0] == q[0]);
    if p.len() == 1 {
        assert(!m[q[0]].is_dir());
    } else {
        assert(m[p[0]].is_dir());
        assert(is_prefix_of(p.drop_first(), q.drop_first())) by {
            assert(p.drop_first() =~= q.drop_first().take(p.drop_first().len() as int));
        }
        lemma_file_prefix_conflicts(m[p[0]].children_of(), p.drop_first(), q.drop_first());
    }
}

/// Move semantics: after creating the destination with the source's content
/// and deleting the source (the composition `move_file` performs when the
/// source is a file, the destination does not conflict, and the two paths
/// differ), the source reads as absent and the destination reads as the
/// content.
pub proof fn lemma_move_semantics(
    m: Map<Seq<char>, EntryV>,
    ps: Seq<Seq<char>>,
    qs: Seq<Seq<char>>,
    c: Seq<char>,
)
    requires
        valid_segs(ps),
        valid_segs(qs),
        ps != qs,
        read_at(m, ps) == Some(c),
        !create_conflicts(m, qs),
    ensures
        read_at(delete_at(create_at(m, qs, c), ps), ps) is None,
        read_at(delete_at(create_at(m, qs, c), ps), qs) == Some(c),
{
    let m2 = create_at(m, qs, c);
    lemma_delete_then_read(m2, ps);
    lemma_create_then_read(m, qs, c);
    assert(!is_prefix_of(ps, qs)) by {
        if is_prefix_of(ps, qs) {
            assert(ps.len() < qs.len()) by {
                if ps.len() == qs.len() {
                    assert(ps =~= qs);
                }
            }
            lemma_file_prefix_conflicts(m, ps, qs);
        }
    }
    lemma_delete_preserves_other(m2, ps, qs);
}

/// Copy semantics: after creating the destination with the source's content
/// (the composition `copy_file` performs when the source is a file and the
/// destination does not conflict), both paths read as the content —
/// provided the destination is not a proper prefix of the source, where the
/// overwrite would cut the source's subtree away.
pub proof fn lemma_copy_semantics(
    m: Map<Seq<char>, EntryV>,
    ps: Seq<Seq<char>>,
    qs: Seq<Seq<char>>,
    c: Seq<char>,
)
    requires
        valid_segs(ps),
        valid_segs(qs),
        read_at(m, ps) == Some(c),
        !create_conflicts(m, qs),
        is_prefix_of(qs, ps) ==> qs == ps,
    ensures
        read_at(create_at(m, qs, c), qs) == Some(c),
        read_at(create_at(m, qs, c), ps) == Some(c),
{
    lemma_create_then_read(m, qs, c);
    if qs == ps {
    } else {
        lemma_create_preserves_other(m, qs, ps, c);
    }
}

/// Listing reflects children: after creating a file, listing its parent
/// directory yields exactly the names it held before plus the new file's
/// name.
pub proof fn lemma_create_then_list(m: Map<Seq<char>, EntryV>, segs: Seq<Seq<char>>, c: Seq<char>)
    requires
        valid_segs(segs),
        !create_conflicts(m, segs),
    ensures
        list_at(create_at(m, segs, c), segs.drop_last()) == list_at(m, segs.drop_last()).insert(
            segs.last(),
        ),
    decreases segs.len(),
{
    let m2 = create_at(m, segs, c);
    if segs.len() == 1 {
        assert(segs.drop_last() =~= Seq::<Seq<char>>::empty());
        assert(list_at(m2, segs.drop_last()) =~= list_at(m, segs.drop_last()).insert(segs.last()));
    } else {
        lemma_valid_drop_first(segs);
        let rest = segs.drop_first();
        let sub = if m.dom().contains(segs[0]) {
            m[segs[0]].children_of()
        } else {
            Map::<Seq<char>, EntryV>::empty()
        };
        if m.dom().contains(segs[0]) && !m[segs[0]].is_dir() {
            assert(create_conflicts(m, segs));
        }
        lemma_create_then_list(sub, rest, c);
        assert(segs.drop_last()[0] == segs[0]);
        assert(segs.drop_last().drop_first() =~= rest.drop_last());
        assert(segs.last() == rest.last());
        assert(list_at(m2, segs.drop_last()) == list_at(
            create_at(sub, rest, c),
            rest.drop_last(),
        ));
        if m.dom().contains(segs[0]) && m[segs[0]].is_dir() {
            assert(list_at(m, segs.drop_last()) == list_at(sub, rest.drop_last()));
        } else {
            assert(list_at(m, segs.drop_last()) =~= Set::<Seq<char>>::empty());
            if rest.len() == 1 {
                assert(rest.drop_last() =~= Seq::<Seq<char>>::empty());
                assert(list_at(sub, rest.drop_last()) =~= Set::<Seq<char>>::empty());
            } else {
                assert(dir_at(sub, rest.drop_last()) is None);
                assert(list_at(sub, rest.drop_last()) =~= Set::<Seq<char>>::empty());
            }
        }
    }
}

/// Nested auto-creation: after creating a file, every proper prefix of its
/// path resolves to a listable directory.
pub proof fn lemma_create_makes_dirs(
    m: Map<Seq<char>, EntryV>,
    segs: Seq<Seq<char>>,
    c: Seq<char>,
    k: int,
)
    requires
        valid_segs(segs),
        !create_conflicts(m, segs),
        1 <= k < segs.len(),
    ensures
        dir_at(create_at(m, segs, c), segs.take(k)) is Some,
    decreases segs.len(),
{
    let m2 = create_at(m, segs, c);
    let sub = if m.dom().contains(segs[0]) {
        m[segs[0]].children_of()
    } else {
        Map::<Seq<char>, EntryV>::empty()
    };
    if m.dom().contains(segs[0]) && !m[segs[0]].is_dir() {
        assert(create_conflicts(m, segs));
    }
    assert(segs.len() > 1);
    assert(m2 == m.insert(segs[0], EntryV::Dir { children: create_at(sub, segs.drop_first(), c) }));
    assert(segs.take(k)[0] == segs[0]);
    assert(m2.dom().contains(segs[0]) && m2[segs[0]].is_dir());
    assert(dir_at(m2, segs.take(k)) == dir_at(
        create_at(sub, segs.drop_first(), c),
        segs.take(k).drop_first(),
    ));
    if k == 1 {
        assert(segs.take(1).drop_first() =~= Seq::<Seq<char>>::empty());
    } else {
        lemma_valid_drop_first(segs);
        lemma_create_makes_dirs(sub, segs.drop_first(), c, k - 1);
        assert(segs.take(k).drop_first() =~= segs.drop_first().take(k - 1));
    }
}

} // verus!
