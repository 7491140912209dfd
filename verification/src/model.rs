//! The abstract model of the store: a directory is a mathematical map from
//! segment names to entries, and every operation of the library is mirrored
//! here by a spec function over that map.

use vstd::prelude::*;

verus! {

/// One entry of the abstract tree: a file holding its content, or a
/// directory holding its children as a map from segment name to entry.
pub enum EntryV {
    File { content: Seq<char> },
    Dir { children: Map<Seq<char>, EntryV> },
}

impl EntryV {
    /// Whether this entry is a directory.
    pub open spec fn is_dir(self) -> bool {
        match self {
            EntryV::Dir { .. } => true,
            EntryV::File { .. } => false,
        }
    }

    /// The children of a directory entry (the empty map for a file).
    pub open spec fn children_of(self) -> Map<Seq<char>, EntryV> {
        match self {
            EntryV::Dir { children } => children,
            EntryV::File { .. } => Map::empty(),
        }
    }
}

/// A single path segment is valid when it is non-empty and holds no
/// separator.
pub open spec fn valid_seg(n: Seq<char>) -> bool {
    n.len() > 0 && !n.contains('/')
}

/// A parsed path: at least one segment, each valid.
pub open spec fn valid_segs(segs: Seq<Seq<char>>) -> bool {
    segs.len() > 0 && (forall|i: int| 0 <= i < segs.len() ==> valid_seg(#[trigger] segs[i]))
}

/// Resolve `segs` from the directory map `m`: descend through directories
/// for every segment but the last, then return the entry named by the last
/// segment, if the whole walk succeeds.
pub open spec fn lookup(m: Map<Seq<char>, EntryV>, segs: Seq<Seq<char>>) -> Option<EntryV>
    decreases segs.len(),
{
    if segs.len() == 0 {
        None
    } else if !m.dom().contains(segs[0]) {
        None
    } else if segs.len() == 1 {
        Some(m[segs[0]])
    } else {
        match m[segs[0]] {
            EntryV::Dir { children } => lookup(children, segs.drop_first()),
            EntryV::File { .. } => None,
        }
    }
}

/// The content read at `segs`: the file's content when `segs` resolves to a
/// file, absent otherwise (missing entry, failed walk, or a directory).
pub open spec fn read_at(m: Map<Seq<char>, EntryV>, segs: Seq<Seq<char>>) -> Option<Seq<char>> {
    match lookup(m, segs) {
        Some(EntryV::File { content }) => Some(content),
        _ => None,
    }
}

/// Whether creating a file at `segs` collides with an existing file on the
/// way: some proper prefix of `segs` resolves to a file instead of a
/// directory.
pub open spec fn create_conflicts(m: Map<Seq<char>, EntryV>, segs: Seq<Seq<char>>) -> bool
    decreases segs.len(),
{
    if segs.len() <= 1 {
        false
    } else if !m.dom().contains(segs[0]) {
        false
    } else {
        match m[segs[0]] {
            EntryV::File { .. } => true,
            EntryV::Dir { children } => create_conflicts(children, segs.drop_first()),
        }
    }
}

/// The map after creating a file with content `c` at `segs`: directory
/// segments are descended into (materialized as fresh empty directories
/// where missing), and the final segment is bound to the new file,
/// overwriting whatever entry was there.
pub open spec fn create_at(
    m: Map<Seq<char>, EntryV>,
    segs: Seq<Seq<char>>,
    c: Seq<char>,
) -> Map<Seq<char>, EntryV>
    decreases segs.len(),
{
    if segs.len() == 0 {
        m
    } else if segs.len() == 1 {
        m.insert(segs[0], EntryV::File { content: c })
    } else {
        let sub = if m.dom().contains(segs[0]) {
            m[segs[0]].children_of()
        } else {
            Map::empty()
        };
        m.insert(segs[0], EntryV::Dir { children: create_at(sub, segs.drop_first(), c) })
    }
}

/// The map after deleting the entry at `segs`: the walk descends through
/// existing directories only, and removes the entry named by the last
/// segment (with its whole subtree) from its parent; a failed walk or an
/// absent name leaves the map unchanged.
pub open spec fn delete_at(
    m: Map<Seq<char>, EntryV>,
    segs: Seq<Seq<char>>,
) -> Map<Seq<char>, EntryV>
    decreases segs.len(),
{
    if segs.len() == 0 {
        m
    } else if segs.len() == 1 {
        m.remove(segs[0])
    } else if m.dom().contains(segs[0]) && m[segs[0]].is_dir() {
        m.insert(
            segs[0],
            EntryV::Dir { children: delete_at(m[segs[0]].children_of(), segs.drop_first()) },
        )
    } else {
        m
    }
}

/// Resolve `segs` as a chain of directories (every segment, including the
/// last, must name a directory) and return that directory's children.
pub open spec fn dir_at(
    m: Map<Seq<char>, EntryV>,
    segs: Seq<Seq<char>>,
) -> Option<Map<Seq<char>, EntryV>>
    decreases segs.len(),
{
    if segs.len() == 0 {
        Some(m)
    } else if m.dom().contains(segs[0]) && m[segs[0]].is_dir() {
        dir_at(m[segs[0]].children_of(), segs.drop_first())
    } else {
        None
    }
}

/// The set of immediate child names listed at `segs`: the domain of the
/// directory resolved there, or the empty set when the walk fails.
pub open spec fn list_at(m: Map<Seq<char>, EntryV>, segs: Seq<Seq<char>>) -> Set<Seq<char>> {
    match dir_at(m, segs) {
        Some(children) => children.dom(),
        None => Set::empty(),
    }
}

/// Whether `p` is a prefix of `q` (including `p == q`).
pub open spec fn is_prefix_of(p: Seq<Seq<char>>, q: Seq<Seq<char>>) -> bool {
    p.len() <= q.len() && p == q.take(p.len() as int)
}

} // verus!
