//! The concrete tree: a recursive node type whose directories hold their
//! children as a vector of (name, node) pairs with pairwise-distinct names.
//! Spec functions interpret a node as an abstract entry of the model, and
//! the lemmas here connect vector edits to map edits on that view.

use vstd::prelude::*;
use vstd::string::StringExecFns;
use crate::model::{
    EntryV, create_at, create_conflicts, delete_at, dir_at, read_at, valid_seg, valid_segs,
};
use crate::path::seg_views;

verus! {

/// One node of the store: a file with its content, or a directory with its
/// named children.
pub enum Node {
    File(String),
    Directory(Vec<(String, Node)>),
}

/// The abstract entry a node stands for.
pub open spec fn node_view(n: Node) -> EntryV
    decreases n,
{
    match n {
        Node::File(c) => EntryV::File { content: c@ },
        Node::Directory(cs) => EntryV::Dir { children: kids_view(cs@) },
    }
}

/// The abstract child map a children vector stands for.
pub open spec fn kids_view(s: Seq<(String, Node)>) -> Map<Seq<char>, EntryV>
    decreases s,
{
    if s.len() == 0 {
        Map::empty()
    } else {
        kids_view(s.drop_last()).insert(s.last().0@, node_view(s.last().1))
    }
}

/// Whether some pair of `s` is named `n`.
pub open spec fn has_name(s: Seq<(String, Node)>, n: Seq<char>) -> bool {
    exists|i: int| 0 <= i < s.len() && (#[trigger] s[i]).0@ == n
}

/// Well-formedness of a node: every directory below it is well-formed.
pub open spec fn node_wf(n: Node) -> bool
    decreases n,
{
    match n {
        Node::File(_) => true,
        Node::Directory(cs) => kids_wf(cs@),
    }
}

/// Well-formedness of a children vector: names are valid segments, pairwise
/// distinct, and every child is well-formed.
pub open spec fn kids_wf(s: Seq<(String, Node)>) -> bool
    decreases s,
{
    s.len() == 0 || {
        &&& kids_wf(s.drop_last())
        &&& valid_seg(s.last().0@)
        &&& !has_name(s.drop_last(), s.last().0@)
        &&& node_wf(s.last().1)
    }
}

/// Under well-formedness every pair has a valid name and a well-formed
/// child.
pub proof fn lemma_kids_wf_index(s: Seq<(String, Node)>, j: int)
    requires
        kids_wf(s),
        0 <= j < s.len(),
    ensures
        valid_seg(s[j].0@),
        node_wf(s[j].1),
    decreases s.len(),
{
    if j == s.len() - 1 {
        assert(s[j] == s.last());
    } else {
        lemma_kids_wf_index(s.drop_last(), j);
        assert(s.drop_last()[j] == s[j]);
    }
}

/// A name is in the view's domain exactly when some pair carries it.
pub proof fn lemma_kids_view_dom(s: Seq<(String, Node)>, n: Seq<char>)
    ensures
        kids_view(s).dom().contains(n) <==> has_name(s, n),
    decreases s.len(),
{
    if s.len() > 0 {
        lemma_kids_view_dom(s.drop_last(), n);
        if has_name(s.drop_last(), n) {
            let i = choose|i: int| 0 <= i < s.drop_last().len() && (#[trigger] s.drop_last()[i]).0@
                == n;
            assert(s[i].0@ == n);
        }
        if has_name(s, n) && s.last().0@ != n {
            let i = choose|i: int| 0 <= i < s.len() && (#[trigger] s[i]).0@ == n;
            assert(s.drop_last()[i].0@ == n);
        }
    }
}

/// Under well-formedness the view maps each pair's name to that pair's
/// entry.
pub proof fn lemma_kids_view_index(s: Seq<(String, Node)>, j: int)
    requires
        kids_wf(s),
        0 <= j < s.len(),
    ensures
        kids_view(s).dom().contains(s[j].0@),
        kids_view(s)[s[j].0@] == node_view(s[j].1),
    decreases s.len(),
{
    if j == s.len() - 1 {
        assert(s[j] == s.last());
    } else {
        lemma_kids_view_index(s.drop_last(), j);
        assert(s.drop_last()[j] == s[j]);
        assert(has_name(s.drop_last(), s[j].0@));
        assert(s.last().0@ != s[j].0@);
    }
}

/// Replacing the node of pair `j` (keeping its name) updates the view at
/// that name and preserves well-formedness.
pub proof fn lemma_kids_view_update(s: Seq<(String, Node)>, j: int, nd: Node)
    requires
        kids_wf(s),
        0 <= j < s.len(),
        node_wf(nd),
    ensures
        kids_wf(s.update(j, (s[j].0, nd))),
        kids_view(s.update(j, (s[j].0, nd))) == kids_view(s).insert(s[j].0@, node_view(nd)),
    decreases s.len(),
{
    let s2 = s.update(j, (s[j].0, nd));
    assert forall|n: Seq<char>| has_name(s2.drop_last(), n) implies has_name(
        s.drop_last(),
        n,
    ) by {
        let i = choose|i: int| 0 <= i < s2.drop_last().len() && (#[trigger] s2.drop_last()[i]).0@
            == n;
        assert(s.drop_last()[i].0@ == n);
    }
    if j == s.len() - 1 {
        assert(s2.drop_last() =~= s.drop_last());
        assert(kids_view(s2) =~= kids_view(s).insert(s[j].0@, node_view(nd)));
    } else {
        lemma_kids_view_update(s.drop_last(), j, nd);
        assert(s2.drop_last() =~= s.drop_last().update(j, (s[j].0, nd)));
        assert(s2.last() == s.last());
        lemma_kids_view_dom(s.drop_last(), s.last().0@);
        assert(s.drop_last()[j] == s[j]);
        assert(has_name(s.drop_last(), s[j].0@));
        assert(s.last().0@ != s[j].0@);
        assert(kids_view(s2) =~= kids_view(s).insert(s[j].0@, node_view(nd)));
        assert forall|n: Seq<char>| has_name(s.drop_last(), n) implies has_name(
            s2.drop_last(),
            n,
        ) by {
            let i = choose|i: int| 0 <= i < s.drop_last().len()
                && (#[trigger] s.drop_last()[i]).0@ == n;
            if i == j {
                assert(s2.drop_last()[i].0@ == n);
            } else {
                assert(s2.drop_last()[i].0@ == n);
            }
        }
    }
}

/// Removing pair `j` removes its name from the view and preserves
/// well-formedness.
pub proof fn lemma_kids_view_remove(s: Seq<(String, Node)>, j: int)
    requires
        kids_wf(s),
        0 <= j < s.len(),
    ensures
        kids_wf(s.remove(j)),
        kids_view(s.remove(j)) == kids_view(s).remove(s[j].0@),
    decreases s.len(),
{
    let s2 = s.remove(j);
    if j == s.len() - 1 {
        assert(s2 =~= s.drop_last());
        lemma_kids_view_dom(s.drop_last(), s.last().0@);
        assert(kids_view(s2) =~= kids_view(s).remove(s[j].0@));
    } else {
        lemma_kids_view_remove(s.drop_last(), j);
        assert(s2.drop_last() =~= s.drop_last().remove(j));
        assert(s2.last() == s.last());
        lemma_kids_view_dom(s.drop_last(), s.last().0@);
        assert(s.drop_last()[j] == s[j]);
        assert(has_name(s.drop_last(), s[j].0@));
        assert(s.last().0@ != s[j].0@);
        assert forall|n: Seq<char>| has_name(s2.drop_last(), n) implies has_name(
            s.drop_last(),
            n,
        ) by {
            let i = choose|i: int| 0 <= i < s2.drop_last().len()
                && (#[trigger] s2.drop_last()[i]).0@ == n;
            if i < j {
                assert(s.drop_last()[i].0@ == n);
            } else {
                assert(s.drop_last()[i + 1].0@ == n);
            }
        }
        assert(kids_view(s2) =~= kids_view(s).remove(s[j].0@));
    }
}

/// Appending a pair under a fresh name inserts it into the view and
/// preserves well-formedness.
pub proof fn lemma_kids_view_push(s: Seq<(String, Node)>, nm: String, nd: Node)
    requires
        kids_wf(s),
        valid_seg(nm@),
        !has_name(s, nm@),
        node_wf(nd),
    ensures
        kids_wf(s.push((nm, nd))),
        kids_view(s.push((nm, nd))) == kids_view(s).insert(nm@, node_view(nd)),
{
    let s2 = s.push((nm, nd));
    assert(s2.drop_last() =~= s);
    assert(s2.last() == (nm, nd));
    assert(kids_view(s2) =~= kids_view(s).insert(nm@, node_view(nd)));
}

/// The segments of `segs` that remain from position `i` on.
pub open spec fn rest_of(segs: Seq<String>, i: int) -> Seq<Seq<char>> {
    seg_views(segs).skip(i)
}

/// Create a file with `content` at `segs[i..]` below `children`. Returns
/// whether the creation went through; it does not when a directory segment
/// names an existing file, and the tree is then left unchanged.
pub fn create_in(children: &mut Vec<(String, Node)>, segs: &Vec<String>, i: usize, content: &str) -> (r:
    bool)
    requires
        kids_wf(old(children)@),
        valid_segs(seg_views(segs@)),
        i < segs@.len(),
    ensures
        kids_wf(final(children)@),
        r == !create_conflicts(kids_view(old(children)@), rest_of(segs@, i as int)),
        r ==> kids_view(final(children)@) == create_at(
            kids_view(old(children)@),
            rest_of(segs@, i as int),
            content@,
        ),
        !r ==> kids_view(final(children)@) == kids_view(old(children)@),
    decreases segs@.len() - i,
{
    let ghost rest = rest_of(segs@, i as int);
    proof {
        assert(rest[0] == seg_views(segs@)[i as int]);
        assert(rest[0] == segs@[i as int]@);
        assert(valid_seg(rest[0]));
    }
    let n = segs.len();
    let name = &segs[i];
    let found = find_entry(children, name);
    if i + 1 == n {
        proof {
            assert(rest.len() == 1);
        }
        match found {
            Some(j) => {
                let (nm, _old_node) = children.remove(j);
                let node = Node::File(content.to_owned());
                children.insert(j, (nm, node));
                proof {
                    assert(children@ =~= old(children)@.update(j as int, (
                        old(children)@[j as int].0,
                        node,
                    )));
                    lemma_kids_view_update(old(children)@, j as int, node);
                }
            },
            None => {
                let node = Node::File(content.to_owned());
                children.push((name.clone(), node));
                proof {
                    lemma_kids_view_push(old(children)@, segs@[i as int], node);
                }
            },
        }
        true
    } else {
        proof {
            assert(rest.drop_first() =~= rest_of(segs@, i + 1));
        }
        match found {
            None => {
                let mut sub: Vec<(String, Node)> = Vec::new();
                proof {
                    assert(kids_view(sub@) =~= Map::<Seq<char>, EntryV>::empty());
                }
                let _created = create_in(&mut sub, segs, i + 1, content);
                proof {
                    assert(!create_conflicts(Map::<Seq<char>, EntryV>::empty(), rest.drop_first()));
                }
                let node = Node::Directory(sub);
                children.push((name.clone(), node));
                proof {
                    lemma_kids_view_dom(old(children)@, rest[0]);
                    lemma_kids_view_push(old(children)@, segs@[i as int], node);
                }
                true
            },
            Some(j) => {
                let (nm, nd) = children.remove(j);
                proof {
                    lemma_kids_view_index(old(children)@, j as int);
                    lemma_kids_wf_index(old(children)@, j as int);
                }
                match nd {
                    Node::File(c) => {
                        let node = Node::File(c);
                        children.insert(j, (nm, node));
                        proof {
                            assert(children@ =~= old(children)@.update(j as int, (
                                old(children)@[j as int].0,
                                node,
                            )));
                            assert(old(children)@.update(j as int, (
                                old(children)@[j as int].0,
                                node,
                            )) =~= old(children)@);
                            lemma_kids_view_dom(old(children)@, rest[0]);
                        }
                        false
                    },
                    Node::Directory(mut sub) => {
                        let r = create_in(&mut sub, segs, i + 1, content);
                        let node = Node::Directory(sub);
                        children.insert(j, (nm, node));
                        proof {
                            assert(children@ =~= old(children)@.update(j as int, (
                                old(children)@[j as int].0,
                                node,
                            )));
                            lemma_kids_view_update(old(children)@, j as int, node);
                            lemma_kids_view_dom(old(children)@, rest[0]);
                            if !r {
                                assert(node_view(node) == node_view(nd));
                                assert(kids_view(children@) =~= kids_view(old(children)@));
                            }
                        }
                        r
                    },
                }
            },
        }
    }
}

/// Read the file content at `segs[i..]` below `children`, if that path
/// resolves to a file.
pub fn read_in(children: &Vec<(String, Node)>, segs: &Vec<String>, i: usize) -> (r: Option<String>)
    requires
        kids_wf(children@),
        i < segs@.len(),
    ensures
        match r {
            Some(c) => read_at(kids_view(children@), rest_of(segs@, i as int)) == Some(c@),
            None => read_at(kids_view(children@), rest_of(segs@, i as int)) is None,
        },
    decreases segs@.len() - i,
{
    let ghost rest = rest_of(segs@, i as int);
    proof {
        assert(rest[0] == segs@[i as int]@);
    }
    let n = segs.len();
    let name = &segs[i];
    let found = find_entry(children, name);
    match found {
        None => {
            proof {
                lemma_kids_view_dom(children@, rest[0]);
            }
            None
        },
        Some(j) => {
            proof {
                lemma_kids_view_index(children@, j as int);
                lemma_kids_wf_index(children@, j as int);
            }
            if i + 1 == n {
                proof {
                    assert(rest.len() == 1);
                }
                match &children[j].1 {
                    Node::File(c) => Some(c.clone()),
                    Node::Directory(_) => None,
                }
            } else {
                proof {
                    assert(rest.drop_first() =~= rest_of(segs@, i + 1));
                }
                match &children[j].1 {
                    Node::File(_) => None,
                    Node::Directory(sub) => read_in(sub, segs, i + 1),
                }
            }
        },
    }
}

/// Delete the entry at `segs[i..]` below `children`; a failed walk or an
/// absent final name leaves the tree unchanged.
pub fn delete_in(children: &mut Vec<(String, Node)>, segs: &Vec<String>, i: usize)
    requires
        kids_wf(old(children)@),
        i < segs@.len(),
    ensures
        kids_wf(final(children)@),
        kids_view(final(children)@) == delete_at(
            kids_view(old(children)@),
            rest_of(segs@, i as int),
        ),
    decreases segs@.len() - i,
{
    let ghost rest = rest_of(segs@, i as int);
    proof {
        assert(rest[0] == segs@[i as int]@);
    }
    let n = segs.len();
    let name = &segs[i];
    let found = find_entry(children, name);
    match found {
        None => {
            proof {
                lemma_kids_view_dom(children@, rest[0]);
                if rest.len() == 1 {
                    assert(kids_view(children@) =~= delete_at(kids_view(children@), rest));
                }
            }
        },
        Some(j) => {
            proof {
                lemma_kids_view_index(old(children)@, j as int);
                lemma_kids_wf_index(old(children)@, j as int);
            }
            if i + 1 == n {
                proof {
                    assert(rest.len() == 1);
                }
                let _removed = children.remove(j);
                proof {
                    lemma_kids_view_remove(old(children)@, j as int);
                }
            } else {
                proof {
                    assert(rest.drop_first() =~= rest_of(segs@, i + 1));
                }
                let (nm, nd) = children.remove(j);
                match nd {
                    Node::File(c) => {
                        let node = Node::File(c);
                        children.insert(j, (nm, node));
                        proof {
                            assert(children@ =~= old(children)@.update(j as int, (
                                old(children)@[j as int].0,
                                node,
                            )));
                            assert(old(children)@.update(j as int, (
                                old(children)@[j as int].0,
                                node,
                            )) =~= old(children)@);
                        }
                    },
                    Node::Directory(mut sub) => {
                        delete_in(&mut sub, segs, i + 1);
                        let node = Node::Directory(sub);
                        children.insert(j, (nm, node));
                        proof {
                            assert(children@ =~= old(children)@.update(j as int, (
                                old(children)@[j as int].0,
                                node,
                            )));
                            lemma_kids_view_update(old(children)@, j as int, node);
                        }
                    },
                }
            }
        },
    }
}

/// Find the pair named `name`, if any.
pub fn find_entry(children: &Vec<(String, Node)>, name: &String) -> (r: Option<usize>)
    ensures
        match r {
            Some(j) => j < children@.len() && children@[j as int].0@ == name@,
            None => !has_name(children@, name@),
        },
{
    let n = children.len();
    let mut k: usize = 0;
    while k < n
        invariant
            n == children@.len(),
            k <= n,
            forall|i: int| 0 <= i < k ==> (#[trigger] children@[i]).0@ != name@,
        decreases n - k,
    {
        if children[k].0 == *name {
            return Some(k);
        }
        k = k + 1;
    }
    None
}


/// The names of the pairs of `s`, in order.
pub open spec fn names_of(s: Seq<(String, Node)>) -> Seq<Seq<char>> {
    s.map_values(|p: (String, Node)| p.0@)
}

/// Under well-formedness the names are pairwise distinct.
pub proof fn lemma_kids_wf_distinct(s: Seq<(String, Node)>)
    requires
        kids_wf(s),
    ensures
        forall|a: int, b: int|
            0 <= a < b < s.len() ==> (#[trigger] s[a]).0@ != (#[trigger] s[b]).0@,
    decreases s.len(),
{
    if s.len() > 0 {
        lemma_kids_wf_distinct(s.drop_last());
        assert forall|a: int, b: int|
            0 <= a < b < s.len() implies (#[trigger] s[a]).0@ != (#[trigger] s[b]).0@ by {
            if b < s.len() - 1 {
                assert(s.drop_last()[a] == s[a]);
                assert(s.drop_last()[b] == s[b]);
            } else {
                assert(s.drop_last()[a] == s[a]);
                assert(!has_name(s.drop_last(), s.last().0@));
            }
        }
    }
}

/// The view's domain is the set of names.
pub proof fn lemma_kids_view_dom_names(s: Seq<(String, Node)>)
    ensures
        kids_view(s).dom() == names_of(s).to_set(),
{
    assert forall|n: Seq<char>| kids_view(s).dom().contains(n) implies names_of(
        s,
    ).to_set().contains(n) by {
        lemma_kids_view_dom(s, n);
        let i = choose|i: int| 0 <= i < s.len() && (#[trigger] s[i]).0@ == n;
        assert(names_of(s)[i] == n);
    }
    assert forall|n: Seq<char>| names_of(s).to_set().contains(n) implies kids_view(
        s,
    ).dom().contains(n) by {
        let i = choose|i: int| 0 <= i < names_of(s).len() && names_of(s)[i] == n;
        assert(s[i].0@ == n);
        lemma_kids_view_dom(s, n);
    }
    assert(kids_view(s).dom() =~= names_of(s).to_set());
}

/// Resolve `segs[i..]` as a chain of directories below `children` and hand
/// back the children of the directory reached.
pub fn resolve_dir<'a>(children: &'a Vec<(String, Node)>, segs: &Vec<String>, i: usize) -> (r:
    Option<&'a Vec<(String, Node)>>)
    requires
        kids_wf(children@),
        i <= segs@.len(),
    ensures
        match r {
            Some(sub) => kids_wf(sub@) && dir_at(kids_view(children@), rest_of(segs@, i as int))
                == Some(kids_view(sub@)),
            None => dir_at(kids_view(children@), rest_of(segs@, i as int)) is None,
        },
    decreases segs@.len() - i,
{
    let ghost rest = rest_of(segs@, i as int);
    let n = segs.len();
    if i == n {
        proof {
            assert(rest.len() == 0);
        }
        Some(children)
    } else {
        proof {
            assert(rest[0] == segs@[i as int]@);
            assert(rest.drop_first() =~= rest_of(segs@, i + 1));
        }
        let name = &segs[i];
        let found = find_entry(children, name);
        match found {
            None => {
                proof {
                    lemma_kids_view_dom(children@, rest[0]);
                }
                None
            },
            Some(j) => {
                proof {
                    lemma_kids_view_index(children@, j as int);
                    lemma_kids_wf_index(children@, j as int);
                }
                match &children[j].1 {
                    Node::File(_) => None,
                    Node::Directory(sub) => resolve_dir(sub, segs, i + 1),
                }
            },
        }
    }
}

/// Collect the names of `children`, in order.
pub fn collect_names(children: &Vec<(String, Node)>) -> (r: Vec<String>)
    ensures
        seg_views(r@) == names_of(children@),
{
    let n = children.len();
    let mut r: Vec<String> = Vec::new();
    let mut k: usize = 0;
    proof {
        assert(seg_views(r@) =~= names_of(children@).take(0));
    }
    while k < n
        invariant
            n == children@.len(),
            k <= n,
            seg_views(r@) == names_of(children@).take(k as int),
        decreases n - k,
    {
        let ghost r0 = r@;
        r.push(children[k].0.clone());
        proof {
            assert(seg_views(r0).len() == r0.len());
            assert(r0.len() == k);
            assert(r@ == r0.push(children@[k as int].0));
            assert forall|i: int|
                0 <= i < k + 1 implies seg_views(r@)[i] == names_of(children@).take(k + 1)[i] by {
                assert(seg_views(r@)[i] == r@[i]@);
                if i < k {
                    assert(r@[i] == r0[i]);
                    assert(seg_views(r0)[i] == r0[i]@);
                    assert(seg_views(r0)[i] == names_of(children@).take(k as int)[i]);
                } else {
                    assert(r@[i] == children@[k as int].0);
                }
                assert(names_of(children@).take(k + 1)[i] == children@[i].0@);
            }
            assert(seg_views(r@) =~= names_of(children@).take(k + 1));
        }
        k = k + 1;
    }
    proof {
        assert(names_of(children@).take(n as int) =~= names_of(children@));
    }
    r
}

/// `name` appended to the path `prefix`, with a separator when the prefix
/// is non-empty.
pub open spec fn joined(prefix: Seq<char>, name: Seq<char>) -> Seq<char> {
    if prefix.len() == 0 {
        name
    } else {
        prefix + seq!['/'] + name
    }
}

/// The full paths, in traversal order, of the files below `s` (reached from
/// the path `prefix`) whose name is `name`. Directories are walked into and
/// never matched themselves.
pub open spec fn search_in(s: Seq<(String, Node)>, name: Seq<char>, prefix: Seq<char>) -> Seq<
    Seq<char>,
>
    decreases s,
{
    if s.len() == 0 {
        Seq::empty()
    } else {
        search_in(s.drop_last(), name, prefix) + match s.last().1 {
            Node::File(_) => if s.last().0@ == name {
                seq![joined(prefix, name)]
            } else {
                Seq::empty()
            },
            Node::Directory(cs) => search_in(cs@, name, joined(prefix, s.last().0@)),
        }
    }
}

/// Join `prefix` and `name` into one path string.
fn join_path(prefix: &String, name: &String) -> (r: String)
    ensures
        r@ == joined(prefix@, name@),
{
    if prefix.as_str().is_empty() {
        name.clone()
    } else {
        let mut t = prefix.clone();
        t.append("/");
        t.append(name.as_str());
        proof {
            reveal_strlit("/");
            assert("/"@ =~= seq!['/']);
            assert(t@ =~= joined(prefix@, name@));
        }
        t
    }
}

/// Depth-first search below `children`: append to `res` the full path of
/// every file named `file_name`, in traversal order.
pub fn search_in_children(
    children: &Vec<(String, Node)>,
    file_name: &String,
    prefix: &String,
    res: &mut Vec<String>,
)
    ensures
        seg_views(final(res)@) == seg_views(old(res)@) + search_in(
            children@,
            file_name@,
            prefix@,
        ),
    decreases children@,
{
    let n = children.len();
    let mut k: usize = 0;
    proof {
        assert(children@.take(0) =~= Seq::<(String, Node)>::empty());
        assert(seg_views(res@) =~= seg_views(res@) + search_in(
            children@.take(0),
            file_name@,
            prefix@,
        ));
    }
    while k < n
        invariant
            n == children@.len(),
            k <= n,
            seg_views(res@) == seg_views(old(res)@) + search_in(
                children@.take(k as int),
                file_name@,
                prefix@,
            ),
        decreases n - k,
    {
        let ghost prefk = children@.take(k as int);
        let ghost prefk1 = children@.take(k as int + 1);
        proof {
            assert(prefk1.drop_last() =~= prefk);
            assert(prefk1.last() == children@[k as int]);
        }
        match &children[k].1 {
            Node::File(_) => {
                if children[k].0 == *file_name {
                    let np = join_path(prefix, file_name);
                    let ghost res0 = res@;
                    res.push(np);
                    proof {
                        assert(seg_views(res@) =~= seg_views(res0).push(
                            joined(prefix@, file_name@),
                        ));
                        assert(search_in(prefk1, file_name@, prefix@) =~= search_in(
                            prefk,
                            file_name@,
                            prefix@,
                        ) + seq![joined(prefix@, file_name@)]);
                        assert(seg_views(res@) =~= seg_views(old(res)@) + search_in(
                            prefk1,
                            file_name@,
                            prefix@,
                        ));
                    }
                } else {
                    proof {
                        assert(search_in(prefk1, file_name@, prefix@) =~= search_in(
                            prefk,
                            file_name@,
                            prefix@,
                        ));
                    }
                }
            },
            Node::Directory(sub) => {
                let np = join_path(prefix, &children[k].0);
                proof {
                    assert(decreases_to!(children@ => children@[k as int]));
                    assert(decreases_to!(children@[k as int] => children@[k as int].1));
                    assert(decreases_to!(children@[k as int].1 => children@[k as int].1->Directory_0));
                    assert(decreases_to!(children@[k as int].1->Directory_0 => sub@));
                }
                search_in_children(sub, file_name, &np, res);
                proof {
                    assert(seg_views(res@) =~= seg_views(old(res)@) + search_in(
                        prefk1,
                        file_name@,
                        prefix@,
                    ));
                }
            },
        }
        k = k + 1;
    }
    proof {
        assert(children@.take(n as int) =~= children@);
    }
}


/// `prefix` extended by all of `segs`, separator-joined.
pub open spec fn joined_all(prefix: Seq<char>, segs: Seq<Seq<char>>) -> Seq<char>
    decreases segs.len(),
{
    if segs.len() == 0 {
        prefix
    } else {
        joined_all(joined(prefix, segs[0]), segs.drop_first())
    }
}

/// Search is sound: every path it returns resolves, below the same tree, to
/// a file whose name is the one searched for. In particular a directory so
/// named is never returned.
pub proof fn lemma_search_sound(
    s: Seq<(String, Node)>,
    name: Seq<char>,
    prefix: Seq<char>,
    r: Seq<char>,
)
    requires
        kids_wf(s),
        search_in(s, name, prefix).contains(r),
    ensures
        exists|segs: Seq<Seq<char>>|
            {
                &&& #[trigger] read_at(kids_view(s), segs) is Some
                &&& segs.len() > 0
                &&& segs.last() == name
                &&& r == joined_all(prefix, segs)
            },
    decreases s,
{
    let d = s.drop_last();
    let a = search_in(d, name, prefix);
    let whole = search_in(s, name, prefix);
    let i = choose|i: int| 0 <= i < whole.len() && whole[i] == r;
    if i < a.len() {
        assert(a[i] == r);
        assert(a.contains(r));
        lemma_search_sound(d, name, prefix, r);
        let segs = choose|segs: Seq<Seq<char>>|
            {
                &&& #[trigger] read_at(kids_view(d), segs) is Some
                &&& segs.len() > 0
                &&& segs.last() == name
                &&& r == joined_all(prefix, segs)
            };
        lemma_kids_view_dom(d, segs[0]);
        assert(segs[0] != s.last().0@);
        assert(read_at(kids_view(s), segs) == read_at(kids_view(d), segs));
        assert(read_at(kids_view(s), segs) is Some);
    } else {
        match s.last().1 {
            Node::File(_) => {
                assert(s.last().0@ == name);
                assert(r == joined(prefix, name));
                let segs = seq![name];
                assert(kids_view(s)[name] == node_view(s.last().1));
                assert(read_at(kids_view(s), segs) is Some);
                assert(segs.drop_first() =~= Seq::<Seq<char>>::empty());
                assert(joined_all(prefix, segs) == joined_all(
                    joined(prefix, name),
                    Seq::<Seq<char>>::empty(),
                ));
                assert(joined_all(joined(prefix, name), Seq::<Seq<char>>::empty()) == joined(
                    prefix,
                    name,
                ));
                assert(r == joined_all(prefix, segs));
            },
            Node::Directory(cs) => {
                let b = search_in(cs@, name, joined(prefix, s.last().0@));
                assert(b[i - a.len()] == r);
                assert(b.contains(r));
                assert(node_wf(s.last().1));
                lemma_search_sound(cs@, name, joined(prefix, s.last().0@), r);
                let segs2 = choose|segs2: Seq<Seq<char>>|
                    {
                        &&& #[trigger] read_at(kids_view(cs@), segs2) is Some
                        &&& segs2.len() > 0
                        &&& segs2.last() == name
                        &&& r == joined_all(joined(prefix, s.last().0@), segs2)
                    };
                let segs = seq![s.last().0@] + segs2;
                assert(kids_view(s)[s.last().0@] == node_view(s.last().1));
                assert(segs[0] == s.last().0@);
                assert(segs.drop_first() =~= segs2);
                assert(segs.last() == segs2.last());
                assert(read_at(kids_view(s), segs) == read_at(kids_view(cs@), segs2));
                assert(r == joined_all(prefix, segs));
            },
        }
    }
}

/// Search is complete: the full path of every file named `name`, anywhere
/// below the tree, is among the returned paths.
pub proof fn lemma_search_complete(
    s: Seq<(String, Node)>,
    name: Seq<char>,
    prefix: Seq<char>,
    segs: Seq<Seq<char>>,
)
    requires
        kids_wf(s),
        segs.len() > 0,
        segs.last() == name,
        read_at(kids_view(s), segs) is Some,
    ensures
        search_in(s, name, prefix).contains(joined_all(prefix, segs)),
    decreases s,
{
    let d = s.drop_last();
    let a = search_in(d, name, prefix);
    let whole = search_in(s, name, prefix);
    let r = joined_all(prefix, segs);
    lemma_kids_view_dom(s, segs[0]);
    let j = choose|j: int| 0 <= j < s.len() && (#[trigger] s[j]).0@ == segs[0];
    lemma_kids_view_index(s, j);
    if j < s.len() - 1 {
        assert(d[j] == s[j]);
        assert(has_name(d, segs[0]));
        lemma_kids_view_dom(d, segs[0]);
        assert(segs[0] != s.last().0@);
        assert(read_at(kids_view(d), segs) == read_at(kids_view(s), segs));
        lemma_search_complete(d, name, prefix, segs);
        let i = choose|i: int| 0 <= i < a.len() && a[i] == r;
        assert(whole[i] == r);
    } else {
        assert(s[j] == s.last());
        if segs.len() == 1 {
            assert(segs[0] == name);
            match s.last().1 {
                Node::File(_) => {
                    assert(segs.drop_first() =~= Seq::<Seq<char>>::empty());
                    assert(joined_all(prefix, segs) == joined_all(
                        joined(prefix, name),
                        Seq::<Seq<char>>::empty(),
                    ));
                    assert(joined_all(joined(prefix, name), Seq::<Seq<char>>::empty()) == joined(
                        prefix,
                        name,
                    ));
                    assert(r == joined(prefix, name));
                    assert(whole[a.len() as int] == r);
                },
                Node::Directory(_) => {
                    assert(read_at(kids_view(s), segs) is None);
                },
            }
        } else {
            match s.last().1 {
                Node::File(_) => {
                    assert(read_at(kids_view(s), segs) is None);
                },
                Node::Directory(cs) => {
                    let segs2 = segs.drop_first();
                    assert(read_at(kids_view(cs@), segs2) is Some);
                    assert(segs2.last() == name);
                    assert(node_wf(s.last().1));
                    lemma_search_complete(cs@, name, joined(prefix, s.last().0@), segs2);
                    let b = search_in(cs@, name, joined(prefix, s.last().0@));
                    assert(r == joined_all(joined(prefix, segs[0]), segs2));
                    let i = choose|i: int| 0 <= i < b.len() && b[i] == r;
                    assert(whole[a.len() + i] == r);
                },
            }
        }
    }
}

} // verus!
