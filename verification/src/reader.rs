//! Reading a tree: following a path to a file or to a directory.

use crate::entry::{EntryKind, Link};
use crate::error::StoreError;
use crate::order::{ascending, sort_names};
use crate::path::{name_views, parse_path, segments, valid_path, PathSpec};
use crate::store::{read_failure, ObjectStore, StoreState};
use vstd::prelude::*;

verus! {

/// A tree as a link to a directory.
pub open spec fn dir_link<Id>(tree: Id) -> Link<Id> {
    Link { kind: EntryKind::Directory, target: tree }
}

impl<Id> StoreState<Id> {
    /// Where following `path` from `link` leads: to `link` itself for the
    /// empty path, else into the directory that `link` points at, one name at
    /// a time. `None` where a name is missing or a file stands in the way.
    pub open spec fn descend(self, link: Link<Id>, path: PathSpec) -> Option<Link<Id>>
        decreases path.len(),
    {
        if path.len() == 0 {
            Some(link)
        } else if link.kind == EntryKind::Directory && self.trees.contains_key(link.target)
            && self.trees[link.target].contains_key(path[0]) {
            self.descend(self.trees[link.target][path[0]], path.drop_first())
        } else {
            None
        }
    }

    /// The entry that `path` leads to inside the tree `root`; the empty path
    /// leads to the root itself, as a directory.
    pub open spec fn entry_at(self, root: Id, path: PathSpec) -> Option<Link<Id>> {
        self.descend(dir_link(root), path)
    }

    /// The bytes of the file that `path` leads to inside the tree `root`.
    pub open spec fn file_at(self, root: Id, path: PathSpec) -> Option<Seq<u8>> {
        match self.entry_at(root, path) {
            Some(link) => if link.kind == EntryKind::File && self.blobs.contains_key(
                link.target,
            ) {
                Some(self.blobs[link.target])
            } else {
                None
            },
            None => None,
        }
    }

    /// The names in the directory that `path` leads to inside the tree `root`.
    pub open spec fn names_at(self, root: Id, path: PathSpec) -> Option<Set<Seq<char>>> {
        match self.entry_at(root, path) {
            Some(link) => if link.kind == EntryKind::Directory && self.trees.contains_key(
                link.target,
            ) {
                Some(self.trees[link.target].dom())
            } else {
                None
            },
            None => None,
        }
    }
}

/// Dropping the first name of what is left after `i` names leaves what is left after `i + 1`.
pub proof fn lemma_skip_step<A>(path: Seq<A>, i: int)
    requires
        0 <= i < path.len(),
    ensures
        path.skip(i).len() == path.len() - i,
        path.skip(i)[0] == path[i],
        path.skip(i).drop_first() == path.skip(i + 1),
{
    assert(path.skip(i).drop_first() =~= path.skip(i + 1));
}

/// Where a path leads from a link of the store does not change when the store grows.
pub proof fn lemma_descend_stable<Id>(
    s: StoreState<Id>,
    t: StoreState<Id>,
    link: Link<Id>,
    path: PathSpec,
)
    requires
        s.wf(),
        s.within(t),
        s.link_ok(link),
    ensures
        t.descend(link, path) == s.descend(link, path),
    decreases path.len(),
{
    if path.len() > 0 && link.kind == EntryKind::Directory {
        let d = link.target;
        assert(s.trees.dom().contains(d));
        assert(t.trees.contains_key(d) && t.trees[d] == s.trees[d]);
        if s.trees[d].contains_key(path[0]) {
            assert(s.tree_ok(s.trees[d]));
            lemma_descend_stable(s, t, s.trees[d][path[0]], path.drop_first());
        }
    }
}

/// Follows `names` from the tree `root` and gives the entry that they lead to.
pub fn find_entry<S: ObjectStore>(store: &S, root: S::Id, names: &Vec<String>) -> (r: Result<
    Link<S::Id>,
    StoreError,
>)
    requires
        store.inv(),
    ensures
        match r {
            Ok(link) => store@.entry_at(root, name_views(names@)) == Some(link),
            Err(e) => read_failure(
                e,
                store@.entry_at(root, name_views(names@)) is Some,
                store.reliable(),
            ),
        },
{
    let ghost path = name_views(names@);
    let mut cur = Link { kind: EntryKind::Directory, target: root };
    let mut i: usize = 0;
    proof {
        assert(path.skip(0) =~= path);
    }
    while i < names.len()
        invariant
            store.inv(),
            path == name_views(names@),
            0 <= i <= names@.len(),
            store@.descend(cur, path.skip(i as int)) == store@.entry_at(root, path),
        decreases names@.len() - i,
    {
        proof {
            lemma_skip_step(path, i as int);
        }
        match cur.kind {
            EntryKind::File => {
                return Err(StoreError::NotFound);
            },
            EntryKind::Directory => {},
        }
        let entries = match store.get_tree(cur.target) {
            Ok(entries) => entries,
            Err(e) => {
                return Err(e);
            },
        };
        match entries.get(&names[i]) {
            Some(link) => {
                cur = link;
            },
            None => {
                return Err(StoreError::NotFound);
            },
        }
        i = i + 1;
    }
    Ok(cur)
}

/// The bytes of the file at `path` in the tree `root`.
///
/// Fails with `InvalidPath` on a malformed path, and with `NotFound` where a
/// name on the way is missing or is a file, or where the path ends at a
/// directory or at nothing.
pub fn resolve<S: ObjectStore>(store: &S, root: S::Id, path: &str) -> (r: Result<
    Vec<u8>,
    StoreError,
>)
    requires
        store.inv(),
    ensures
        match r {
            Ok(bytes) => valid_path(path@) && store@.file_at(root, segments(path@)) == Some(
                bytes@,
            ),
            Err(e) => if valid_path(path@) {
                read_failure(e, store@.file_at(root, segments(path@)) is Some, store.reliable())
            } else {
                e == StoreError::InvalidPath
            },
        },
        valid_path(path@) && store.reliable() && store@.file_at(root, segments(path@)) is None
            ==> r is Err && r->Err_0 == StoreError::NotFound,
{
    let names = match parse_path(path) {
        Ok(names) => names,
        Err(e) => {
            return Err(e);
        },
    };
    let link = match find_entry(store, root, &names) {
        Ok(link) => link,
        Err(e) => {
            return Err(e);
        },
    };
    match link.kind {
        EntryKind::File => store.get_blob(link.target),
        EntryKind::Directory => Err(StoreError::NotFound),
    }
}

/// The names in the directory at `path` in the tree `root`, each once, in
/// ascending order; the empty path is the root.
///
/// Fails with `InvalidPath` on a malformed path, and with `NotFound` where the
/// path does not lead to a directory.
pub fn list<S: ObjectStore>(store: &S, root: S::Id, path: &str) -> (r: Result<
    Vec<String>,
    StoreError,
>)
    requires
        store.inv(),
    ensures
        match r {
            Ok(names) => valid_path(path@) && ascending(name_views(names@)) && name_views(
                names@,
            ).no_duplicates() && store@.names_at(root, segments(path@)) == Some(
                name_views(names@).to_set(),
            ),
            Err(e) => if valid_path(path@) {
                read_failure(e, store@.names_at(root, segments(path@)) is Some, store.reliable())
            } else {
                e == StoreError::InvalidPath
            },
        },
{
    let names = match parse_path(path) {
        Ok(names) => names,
        Err(e) => {
            return Err(e);
        },
    };
    let link = match find_entry(store, root, &names) {
        Ok(link) => link,
        Err(e) => {
            return Err(e);
        },
    };
    match link.kind {
        EntryKind::File => Err(StoreError::NotFound),
        EntryKind::Directory => {
            let entries = match store.get_tree(link.target) {
                Ok(entries) => entries,
                Err(e) => {
                    return Err(e);
                },
            };
            let found = entries.names();
            proof {
                let views = name_views(found@);
                let es = entries.entries@;
                assert forall|a: int, b: int| 0 <= a < views.len() && 0 <= b < views.len() && a
                    != b implies views[a] != views[b] by {
                    if a < b {
                        assert(es[a].name@ != es[b].name@);
                    } else {
                        assert(es[b].name@ != es[a].name@);
                    }
                }
                assert forall|n: Seq<char>| views.to_set().contains(n) == entries@.dom().contains(
                    n,
                ) by {
                    if views.to_set().contains(n) {
                        let k = choose|k: int| 0 <= k < views.len() && views[k] == n;
                        assert(es[k].name@ == n);
                    }
                    if entries@.dom().contains(n) {
                        let k = crate::entry::place_of(es, n);
                        assert(views[k] == n);
                    }
                }
                assert(views.to_set() =~= entries@.dom());
            }
            Ok(sort_names(found))
        },
    }
}

} // verus!
