//! Reading and committing through a ref.

use crate::batch::{apply, batch_ops, lemma_follows_grows, StagedFile, TreeOp};
use crate::error::StoreError;
use crate::history::{commit_on, commit_record, CommitInfo, CommitText};
use crate::change::{lemma_grown_twice, lemma_within_twice};
use crate::entry::{EntrySet, Link};
use crate::order::ascending;
use crate::path::{name_views, segments, valid_path};
use crate::reader::{list, resolve};
use crate::store::{read_failure, ObjectStore, StoreState};
use vstd::prelude::*;

verus! {

/// The ref that `get_file`, `get_dir` and `commit_files` work on.
pub const MAIN_REF: &'static str = "master";

impl<Id> StoreState<Id> {
    /// The tree of the snapshot that the ref `name` points at.
    pub open spec fn tip(self, name: Seq<char>) -> Option<Id> {
        match self.head(name) {
            Some(h) => if self.history.contains_key(h) {
                Some(self.history[h].tree)
            } else {
                None
            },
            None => None,
        }
    }

    /// The bytes of the file at `path` in the snapshot that the ref `name` points at.
    pub open spec fn file_of(self, name: Seq<char>, path: Seq<char>) -> Option<Seq<u8>> {
        match self.tip(name) {
            Some(tree) => if valid_path(path) {
                self.file_at(tree, segments(path))
            } else {
                None
            },
            None => None,
        }
    }

    /// The names in the directory at `path` in the snapshot that the ref `name` points at.
    pub open spec fn names_of(self, name: Seq<char>, path: Seq<char>) -> Option<Set<Seq<char>>> {
        match self.tip(name) {
            Some(tree) => if valid_path(path) {
                self.names_at(tree, segments(path))
            } else {
                None
            },
            None => None,
        }
    }

    /// What a read through the ref `name` reports where it finds nothing at
    /// `path`: `InvalidPath` where the ref exists and the path is malformed,
    /// else `NotFound`.
    pub open spec fn read_error(self, name: Seq<char>, path: Seq<char>) -> StoreError {
        if self.tip(name) is Some && !valid_path(path) {
            StoreError::InvalidPath
        } else {
            StoreError::NotFound
        }
    }

    /// `base` is the tree that a batch on the ref `name` starts from: the tree
    /// of the snapshot that the ref points at or, where the ref does not exist
    /// yet, a tree of `later` without an entry.
    pub open spec fn starts_from(self, later: Self, name: Seq<char>, base: Id) -> bool {
        match self.tip(name) {
            Some(tree) => base == tree,
            None => later.trees.contains_key(base) && later.trees[base] == Map::<
                Seq<char>,
                Link<Id>,
            >::empty(),
        }
    }

    /// `later` is `self` after the changes `ops` were recorded on the ref
    /// `name` as the history node `id`: the node holds the tree that the
    /// changes make of the tree that the batch starts from, its parent is
    /// what the ref pointed at, none where the ref did not exist, and the ref
    /// points at the node.
    pub open spec fn recorded(
        self,
        later: Self,
        name: Seq<char>,
        info: CommitText,
        timestamp: i64,
        ops: Seq<TreeOp>,
        id: Id,
    ) -> bool {
        &&& later.refs == self.refs.insert(name, id)
        &&& later.history.contains_key(id)
        &&& later.history[id] == commit_record(
            later.history[id].tree,
            self.head(name),
            info,
            timestamp,
        )
        &&& exists|base: Id| #[trigger]
            self.starts_from(later, name, base) && later.applied(
                base,
                ops,
                later.history[id].tree,
            )
    }

    /// `later` is `self` after the changes `ops` on the ref `name` were
    /// turned down with the error `e`. The refs are as they were. Either one
    /// of the changes cannot be made, and then no history node was written;
    /// or the storage failed, which a reliable one does not.
    pub open spec fn turned_down(
        self,
        later: Self,
        reliable: bool,
        name: Seq<char>,
        ops: Seq<TreeOp>,
        e: StoreError,
    ) -> bool {
        &&& later.refs == self.refs
        &&& {
            ||| e == StoreError::StoreFailure && !reliable
            ||| later.history == self.history && exists|base: Id, done: int|
                self.starts_from(later, name, base) && #[trigger] later.stopped(
                    base,
                    ops,
                    done,
                    e,
                )
        }
    }
}

/// The history node that the ref `ref_name` points at, and its tree.
pub fn head_of<S: ObjectStore>(store: &S, ref_name: &str) -> (r: Result<(S::Id, S::Id), StoreError>)
    requires
        store.inv(),
    ensures
        match r {
            Ok((head, tree)) => store@.head(ref_name@) == Some(head) && store@.tip(ref_name@)
                == Some(tree),
            Err(e) => read_failure(e, store@.head(ref_name@) is Some, store.reliable()),
        },
{
    proof {
        store.inv_gives_wf();
    }
    let head = match store.read_ref(ref_name) {
        Ok(Some(head)) => head,
        Ok(None) => {
            return Err(StoreError::NotFound);
        },
        Err(e) => {
            return Err(e);
        },
    };
    match store.get_history_node(head) {
        Ok(node) => Ok((head, node.tree)),
        Err(e) => Err(e),
    }
}

/// The bytes of the file at `path` in the snapshot that the ref `ref_name` points at.
///
/// Fails with `NotFound` where the ref does not exist or the path leads to
/// no file, and with `InvalidPath` on a malformed path.
pub fn read_at<S: ObjectStore>(store: &S, ref_name: &str, path: &str) -> (r: Result<
    Vec<u8>,
    StoreError,
>)
    requires
        store.inv(),
    ensures
        match r {
            Ok(bytes) => store@.file_of(ref_name@, path@) == Some(bytes@),
            Err(e) => e == StoreError::StoreFailure && !store.reliable() || store@.file_of(
                ref_name@,
                path@,
            ) is None && e == store@.read_error(ref_name@, path@),
        },
        store.reliable() && store@.file_of(ref_name@, path@) is None ==> r is Err && r->Err_0
            == store@.read_error(ref_name@, path@),
{
    proof {
        store.inv_gives_wf();
    }
    match head_of(store, ref_name) {
        Ok((_, tree)) => resolve(store, tree, path),
        Err(e) => Err(e),
    }
}

/// The names in the directory at `path` in the snapshot that the ref
/// `ref_name` points at, each once, in ascending order.
///
/// Fails with `NotFound` where the ref does not exist or the path leads to
/// no directory, and with `InvalidPath` on a malformed path.
pub fn list_at<S: ObjectStore>(store: &S, ref_name: &str, path: &str) -> (r: Result<
    Vec<String>,
    StoreError,
>)
    requires
        store.inv(),
    ensures
        match r {
            Ok(names) => ascending(name_views(names@)) && name_views(names@).no_duplicates()
                && store@.names_of(ref_name@, path@) == Some(name_views(names@).to_set()),
            Err(e) => e == StoreError::StoreFailure && !store.reliable() || store@.names_of(
                ref_name@,
                path@,
            ) is None && e == store@.read_error(ref_name@, path@),
        },
{
    proof {
        store.inv_gives_wf();
    }
    match head_of(store, ref_name) {
        Ok((_, tree)) => list(store, tree, path),
        Err(e) => Err(e),
    }
}

/// Makes a batch of changes to the snapshot that the ref `ref_name` points
/// at, records the result as the next snapshot, and moves the ref to it.
///
/// Where the ref does not exist yet the batch starts from the empty tree,
/// the snapshot has no parent, and the call creates the ref. Fails with the
/// error of the first change that cannot be made; the ref then stays as it
/// was, and no history node is written.
pub fn commit_batch<S: ObjectStore>(
    store: &mut S,
    ref_name: &str,
    info: &CommitInfo,
    upserts: &[StagedFile],
    removals: &[String],
    timestamp: i64,
) -> (r: Result<S::Id, StoreError>)
    requires
        old(store).inv(),
    ensures
        final(store).inv(),
        final(store).reliable() == old(store).reliable(),
        old(store)@.within(final(store)@),
        match r {
            Ok(id) => old(store)@.recorded(
                final(store)@,
                ref_name@,
                info@,
                timestamp,
                batch_ops(upserts@, removals@),
                id,
            ),
            Err(e) => old(store)@.turned_down(
                final(store)@,
                old(store).reliable(),
                ref_name@,
                batch_ops(upserts@, removals@),
                e,
            ),
        },
{
    let ghost s0 = store@;
    let ghost ops = batch_ops(upserts@, removals@);
    proof {
        store.inv_gives_wf();
    }
    let head = match store.read_ref(ref_name) {
        Ok(head) => head,
        Err(e) => {
            return Err(e);
        },
    };
    let base = match head {
        Some(h) => {
            proof {
                assert(s0.refs.contains_key(ref_name@));
                assert(s0.history.contains_key(h));
                assert(s0.node_ok(s0.history[h]));
            }
            match store.get_history_node(h) {
                Ok(node) => node.tree,
                Err(e) => {
                    return Err(e);
                },
            }
        },
        None => {
            let nothing = EntrySet::new();
            match store.put_tree(nothing) {
                Ok(tree) => tree,
                Err(e) => {
                    return Err(e);
                },
            }
        },
    };
    let ghost first = store@;
    proof {
        store.inv_gives_wf();
        assert(s0.grown_to(first));
        assert(first.trees.contains_key(base));
    }
    let tree = match apply(store, base, upserts, removals) {
        Ok(tree) => tree,
        Err(e) => {
            proof {
                lemma_grown_twice(s0, first, store@);
                assert(first.trees.dom().contains(base));
                assert(s0.starts_from(store@, ref_name@, base));
                if !(e == StoreError::StoreFailure && !old(store).reliable()) {
                    let done = choose|done: int| #[trigger] store@.stopped(base, ops, done, e);
                    assert(store@.stopped(base, ops, done, e));
                }
            }
            return Err(e);
        },
    };
    let ghost middle = store@;
    proof {
        store.inv_gives_wf();
        lemma_grown_twice(s0, first, middle);
        if head is Some {
            assert(s0.history.dom().contains(head->0));
        }
    }
    let r = commit_on(store, ref_name, head, tree, info, timestamp);
    proof {
        lemma_within_twice(s0, middle, store@);
        let trees = choose|trees: Seq<S::Id>| #[trigger]
            middle.follows(ops, trees) && trees[0] == base && trees[ops.len() as int] == tree;
        lemma_follows_grows(middle, store@, ops, trees);
        assert(first.trees.dom().contains(base));
        assert(middle.trees.dom().contains(base));
        assert(s0.starts_from(store@, ref_name@, base));
        if r is Ok {
            assert(store@.applied(base, ops, tree));
        }
    }
    r
}

/// The bytes of the file at `path` in the current snapshot.
///
/// Fails with `NotFound` where there is no snapshot yet or the path leads to
/// no file, and with `InvalidPath` on a malformed path.
pub fn get_file<S: ObjectStore>(path: &str, store: &S) -> (r: Result<Vec<u8>, StoreError>)
    requires
        store.inv(),
    ensures
        match r {
            Ok(bytes) => store@.file_of(MAIN_REF@, path@) == Some(bytes@),
            Err(e) => e == StoreError::StoreFailure && !store.reliable() || store@.file_of(
                MAIN_REF@,
                path@,
            ) is None && e == store@.read_error(MAIN_REF@, path@),
        },
        store.reliable() && store@.file_of(MAIN_REF@, path@) is None ==> r is Err && r->Err_0
            == store@.read_error(MAIN_REF@, path@),
{
    read_at(store, MAIN_REF, path)
}

/// The names in the directory at `path` in the current snapshot, each once,
/// in ascending order; the empty path is the root.
///
/// Fails with `NotFound` where there is no snapshot yet or the path leads to
/// no directory, and with `InvalidPath` on a malformed path.
pub fn get_dir<S: ObjectStore>(path: &str, store: &S) -> (r: Result<Vec<String>, StoreError>)
    requires
        store.inv(),
    ensures
        match r {
            Ok(names) => ascending(name_views(names@)) && name_views(names@).no_duplicates()
                && store@.names_of(MAIN_REF@, path@) == Some(name_views(names@).to_set()),
            Err(e) => e == StoreError::StoreFailure && !store.reliable() || store@.names_of(
                MAIN_REF@,
                path@,
            ) is None && e == store@.read_error(MAIN_REF@, path@),
        },
{
    list_at(store, MAIN_REF, path)
}

/// Puts the files `updated_files` into the current snapshot, takes the paths
/// `removed_files` out of it, and records the result as the next snapshot.
///
/// Where there is no snapshot yet the batch starts from the empty tree, and
/// the call records the first snapshot. Fails with the error of the first
/// change that cannot be made; the current snapshot then stays the current
/// one, and no history node is written.
pub fn commit_files<S: ObjectStore>(
    info: &CommitInfo,
    updated_files: &[StagedFile],
    removed_files: &[String],
    store: &mut S,
    timestamp: i64,
) -> (r: Result<S::Id, StoreError>)
    requires
        old(store).inv(),
    ensures
        final(store).inv(),
        final(store).reliable() == old(store).reliable(),
        old(store)@.within(final(store)@),
        match r {
            Ok(id) => old(store)@.recorded(
                final(store)@,
                MAIN_REF@,
                info@,
                timestamp,
                batch_ops(updated_files@, removed_files@),
                id,
            ),
            Err(e) => old(store)@.turned_down(
                final(store)@,
                old(store).reliable(),
                MAIN_REF@,
                batch_ops(updated_files@, removed_files@),
                e,
            ),
        },
{
    commit_batch(store, MAIN_REF, info, updated_files, removed_files, timestamp)
}

} // verus!
