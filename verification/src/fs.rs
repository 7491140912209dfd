//! The public surface of the store. Every operation parses its path under
//! one convention (leading slash optional and stripped, empty segments
//! invalid) and its contract is stated over the abstract map view.

use vstd::prelude::*;
use crate::model::{EntryV, create_at, create_conflicts, delete_at, list_at, read_at};
use crate::path::{parse_dir_path, parse_path, parse_segments, seg_views};
use crate::tree::{
    Node, collect_names, create_in, delete_in, joined_all, kids_view, kids_wf,
    lemma_kids_view_dom_names, lemma_kids_wf_distinct, lemma_search_complete,
    lemma_search_sound, names_of, read_in, resolve_dir, rest_of, search_in, search_in_children,
};

verus! {

/// Why an operation refused a path.
#[derive(Debug, Clone, Copy, PartialEq, Eq)]
pub enum FsError {
    /// The path was empty, or held an empty segment.
    InvalidPath,
    /// A directory segment of the path names an existing file.
    Conflict,
}

/// The store: a root directory of named entries, addressed by
/// slash-separated paths.
pub struct FileSystem {
    root: Vec<(String, Node)>,
}

impl View for FileSystem {
    type V = Map<Seq<char>, EntryV>;

    /// The abstract view: the root directory as a map from segment name to
    /// entry.
    closed spec fn view(&self) -> Map<Seq<char>, EntryV> {
        kids_view(self.root@)
    }
}

/// The view of an optional owned content string.
pub open spec fn opt_content(r: Option<String>) -> Option<Seq<char>> {
    match r {
        Some(c) => Some(c@),
        None => None,
    }
}

impl FileSystem {
    /// Well-formedness: every directory holds pairwise-distinct, non-empty,
    /// separator-free names. Constructors establish it and every operation
    /// preserves it.
    pub closed spec fn wf(&self) -> bool {
        kids_wf(self.root@)
    }

    /// The matching full paths `search_file` returns, in traversal order.
    pub closed spec fn found_paths(&self, name: Seq<char>) -> Seq<Seq<char>> {
        search_in(self.root@, name, Seq::empty())
    }

    /// An empty store.
    pub fn new() -> (fs: Self)
        ensures
            fs.wf(),
            fs@ == Map::<Seq<char>, EntryV>::empty(),
    {
        let fs = FileSystem { root: Vec::new() };
        proof {
            assert(fs@ =~= Map::<Seq<char>, EntryV>::empty());
        }
        fs
    }

    /// Create (or overwrite) the file at `path` with `content`. Directory
    /// segments are descended into, and materialized as empty directories
    /// where missing. Fails with `Conflict`, leaving the store unchanged,
    /// when a directory segment names an existing file; fails with
    /// `InvalidPath` on an empty path or empty segment.
    pub fn create_file(&mut self, path: &str, content: &str) -> (r: Result<(), FsError>)
        requires
            old(self).wf(),
        ensures
            final(self).wf(),
            match parse_path(path@) {
                Some(segs) => if create_conflicts(old(self)@, segs) {
                    r == Err::<(), FsError>(FsError::Conflict) && final(self)@ == old(self)@
                } else {
                    r == Ok::<(), FsError>(()) && final(self)@ == create_at(
                        old(self)@,
                        segs,
                        content@,
                    )
                },
                None => r == Err::<(), FsError>(FsError::InvalidPath) && final(self)@ == old(
                    self,
                )@,
            },
    {
        match parse_segments(path) {
            None => Err(FsError::InvalidPath),
            Some(segs) => {
                proof {
                    assert(rest_of(segs@, 0) =~= seg_views(segs@));
                }
                let ok = create_in(&mut self.root, &segs, 0, content);
                if ok {
                    Ok(())
                } else {
                    Err(FsError::Conflict)
                }
            },
        }
    }

    /// Read the content of the file at `path`. Absent when the path is
    /// invalid, when the walk fails, when no entry carries the final name,
    /// or when that entry is a directory.
    pub fn read_file(&self, path: &str) -> (r: Option<String>)
        requires
            self.wf(),
        ensures
            match parse_path(path@) {
                Some(segs) => opt_content(r) == read_at(self@, segs),
                None => r is None,
            },
    {
        match parse_segments(path) {
            None => None,
            Some(segs) => {
                proof {
                    assert(rest_of(segs@, 0) =~= seg_views(segs@));
                }
                read_in(&self.root, &segs, 0)
            },
        }
    }

    /// List the names of the immediate children of the directory at `path`;
    /// every segment of the path, including the last, must resolve to a
    /// directory. The empty path and `"/"` list the root. An invalid path
    /// or a failed walk yields the empty listing. Names come in insertion
    /// order and are pairwise distinct.
    pub fn list_files_and_directories(&self, path: &str) -> (r: Vec<String>)
        requires
            self.wf(),
        ensures
            match parse_dir_path(path@) {
                Some(segs) => seg_views(r@).to_set() == list_at(self@, segs) && (forall|
                    a: int,
                    b: int,
                |
                    0 <= a < b < r@.len() ==> r@[a]@ != r@[b]@),
                None => r@.len() == 0,
            },
    {
        let len = path.unicode_len();
        let at_root = len == 0 || (len == 1 && path.get_char(0) == '/');
        if at_root {
            proof {
                assert(rest_of(Seq::<String>::empty(), 0) =~= Seq::<Seq<char>>::empty());
                assert(parse_dir_path(path@) == Some(Seq::<Seq<char>>::empty()));
            }
            let r = self.list_children(&Vec::new(), 0);
            return r;
        }
        proof {
            assert(crate::path::strip_leading_slash(path@).len() > 0);
            assert(parse_dir_path(path@) == parse_path(path@));
        }
        match parse_segments(path) {
            None => Vec::new(),
            Some(segs) => {
                proof {
                    assert(rest_of(segs@, 0) =~= seg_views(segs@));
                }
                self.list_children(&segs, 0)
            },
        }
    }

    /// List the children of the directory at `segs[i..]`, or nothing when
    /// the walk fails.
    fn list_children(&self, segs: &Vec<String>, i: usize) -> (r: Vec<String>)
        requires
            self.wf(),
            i <= segs@.len(),
        ensures
            seg_views(r@).to_set() == list_at(self@, rest_of(segs@, i as int)),
            forall|a: int, b: int| 0 <= a < b < r@.len() ==> r@[a]@ != r@[b]@,
    {
        match resolve_dir(&self.root, segs, i) {
            None => {
                let r: Vec<String> = Vec::new();
                proof {
                    assert(seg_views(r@).to_set() =~= Set::<Seq<char>>::empty());
                }
                r
            },
            Some(sub) => {
                let r = collect_names(sub);
                proof {
                    lemma_kids_view_dom_names(sub@);
                    lemma_kids_wf_distinct(sub@);
                    assert forall|a: int, b: int| 0 <= a < b < r@.len() implies r@[a]@ != r@[b]@ by {
                        assert(names_of(sub@)[a] == sub@[a].0@);
                        assert(names_of(sub@)[b] == sub@[b].0@);
                        assert(seg_views(r@)[a] == r@[a]@);
                        assert(seg_views(r@)[b] == r@[b]@);
                    }
                }
                r
            },
        }
    }

    /// Remove the entry at `path` (a whole subtree when it is a
    /// directory). A failed walk, an absent name, or an invalid path leaves
    /// the store unchanged; none of them is an error.
    pub fn delete_file(&mut self, path: &str)
        requires
            old(self).wf(),
        ensures
            final(self).wf(),
            match parse_path(path@) {
                Some(segs) => final(self)@ == delete_at(old(self)@, segs),
                None => final(self)@ == old(self)@,
            },
    {
        match parse_segments(path) {
            None => {},
            Some(segs) => {
                proof {
                    assert(rest_of(segs@, 0) =~= seg_views(segs@));
                }
                delete_in(&mut self.root, &segs, 0);
            },
        }
    }

    /// Move the file at `old_path` to `new_path`: read it, create the
    /// destination with its content, then delete the source. A source that
    /// does not resolve to a file leaves the store unchanged; a conflicting
    /// destination reports it and leaves the store unchanged.
    pub fn move_file(&mut self, old_path: &str, new_path: &str) -> (r: Result<(), FsError>)
        requires
            old(self).wf(),
        ensures
            final(self).wf(),
            match (parse_path(old_path@), parse_path(new_path@)) {
                (Some(ps), Some(qs)) => match read_at(old(self)@, ps) {
                    Some(c) => if create_conflicts(old(self)@, qs) {
                        r == Err::<(), FsError>(FsError::Conflict) && final(self)@ == old(self)@
                    } else {
                        r == Ok::<(), FsError>(()) && final(self)@ == delete_at(
                            create_at(old(self)@, qs, c),
                            ps,
                        )
                    },
                    None => r == Ok::<(), FsError>(()) && final(self)@ == old(self)@,
                },
                _ => r == Err::<(), FsError>(FsError::InvalidPath) && final(self)@ == old(self)@,
            },
    {
        let ps = match parse_segments(old_path) {
            None => {
                return Err(FsError::InvalidPath);
            },
            Some(ps) => ps,
        };
        let qs = match parse_segments(new_path) {
            None => {
                return Err(FsError::InvalidPath);
            },
            Some(qs) => qs,
        };
        proof {
            assert(rest_of(ps@, 0) =~= seg_views(ps@));
            assert(rest_of(qs@, 0) =~= seg_views(qs@));
        }
        match read_in(&self.root, &ps, 0) {
            None => Ok(()),
            Some(content) => {
                let ok = create_in(&mut self.root, &qs, 0, content.as_str());
                if ok {
                    delete_in(&mut self.root, &ps, 0);
                    Ok(())
                } else {
                    Err(FsError::Conflict)
                }
            },
        }
    }

    /// Another name for `move_file`.
    pub fn rename_file(&mut self, old_path: &str, new_path: &str) -> (r: Result<(), FsError>)
        requires
            old(self).wf(),
        ensures
            final(self).wf(),
            match (parse_path(old_path@), parse_path(new_path@)) {
                (Some(ps), Some(qs)) => match read_at(old(self)@, ps) {
                    Some(c) => if create_conflicts(old(self)@, qs) {
                        r == Err::<(), FsError>(FsError::Conflict) && final(self)@ == old(self)@
                    } else {
                        r == Ok::<(), FsError>(()) && final(self)@ == delete_at(
                            create_at(old(self)@, qs, c),
                            ps,
                        )
                    },
                    None => r == Ok::<(), FsError>(()) && final(self)@ == old(self)@,
                },
                _ => r == Err::<(), FsError>(FsError::InvalidPath) && final(self)@ == old(self)@,
            },
    {
        self.move_file(old_path, new_path)
    }

    /// Copy the file at `path` to `new_path`: read it and create the
    /// destination with its content, overwriting any entry there. A source
    /// that does not resolve to a file leaves the store unchanged; a
    /// conflicting destination reports it and leaves the store unchanged.
    pub fn copy_file(&mut self, path: &str, new_path: &str) -> (r: Result<(), FsError>)
        requires
            old(self).wf(),
        ensures
            final(self).wf(),
            match (parse_path(path@), parse_path(new_path@)) {
                (Some(ps), Some(qs)) => match read_at(old(self)@, ps) {
                    Some(c) => if create_conflicts(old(self)@, qs) {
                        r == Err::<(), FsError>(FsError::Conflict) && final(self)@ == old(self)@
                    } else {
                        r == Ok::<(), FsError>(()) && final(self)@ == create_at(
                            old(self)@,
                            qs,
                            c,
                        )
                    },
                    None => r == Ok::<(), FsError>(()) && final(self)@ == old(self)@,
                },
                _ => r == Err::<(), FsError>(FsError::InvalidPath) && final(self)@ == old(self)@,
            },
    {
        let ps = match parse_segments(path) {
            None => {
                return Err(FsError::InvalidPath);
            },
            Some(ps) => ps,
        };
        let qs = match parse_segments(new_path) {
            None => {
                return Err(FsError::InvalidPath);
            },
            Some(qs) => qs,
        };
        proof {
            assert(rest_of(ps@, 0) =~= seg_views(ps@));
            assert(rest_of(qs@, 0) =~= seg_views(qs@));
        }
        match read_in(&self.root, &ps, 0) {
            None => Ok(()),
            Some(content) => {
                let ok = create_in(&mut self.root, &qs, 0, content.as_str());
                if ok {
                    Ok(())
                } else {
                    Err(FsError::Conflict)
                }
            },
        }
    }

    /// Find every file named `file_name`, anywhere in the store, and return
    /// the full path of each (segments joined by `/`, no leading slash), in
    /// depth-first traversal order. Directories are never matched.
    pub fn search_file(&self, file_name: &str) -> (r: Vec<String>)
        requires
            self.wf(),
        ensures
            seg_views(r@) == self.found_paths(file_name@),
    {
        let query = file_name.to_owned();
        let prefix = String::new();
        let mut res: Vec<String> = Vec::new();
        proof {
            assert(seg_views(res@) =~= Seq::<Seq<char>>::empty());
        }
        search_in_children(&self.root, &query, &prefix, &mut res);
        res
    }

    /// Search excludes directories: every path `search_file` returns
    /// resolves to a file named `name`. A directory so named is never
    /// returned.
    pub proof fn lemma_search_finds_only_files(&self, name: Seq<char>, r: Seq<char>)
        requires
            self.wf(),
            self.found_paths(name).contains(r),
        ensures
            exists|segs: Seq<Seq<char>>|
                {
                    &&& #[trigger] read_at(self@, segs) is Some
                    &&& segs.len() > 0
                    &&& segs.last() == name
                    &&& r == joined_all(Seq::empty(), segs)
                },
    {
        lemma_search_sound(self.root@, name, Seq::empty(), r);
        let segs = choose|segs: Seq<Seq<char>>|
            {
                &&& #[trigger] read_at(kids_view(self.root@), segs) is Some
                &&& segs.len() > 0
                &&& segs.last() == name
                &&& r == joined_all(Seq::empty(), segs)
            };
        assert(read_at(self@, segs) is Some);
    }

    /// Search finds by name across depths: the full path of every file
    /// named `name`, however deep, is among the paths `search_file`
    /// returns.
    pub proof fn lemma_search_finds_every_file(&self, name: Seq<char>, segs: Seq<Seq<char>>)
        requires
            self.wf(),
            segs.len() > 0,
            segs.last() == name,
            read_at(self@, segs) is Some,
        ensures
            self.found_paths(name).contains(joined_all(Seq::empty(), segs)),
    {
        lemma_search_complete(self.root@, name, Seq::empty(), segs);
    }
}

} // verus!
