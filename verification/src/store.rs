//! What an object store holds, and what it has to do.

use crate::entry::{EntryKind, EntrySet, Link, TreeSpec};
use crate::error::StoreError;
use vstd::prelude::*;

verus! {

/// One snapshot in the history: a tree, the snapshot before it, and who recorded it when.
#[derive(Debug)]
pub struct HistoryNode<Id> {
    pub tree: Id,
    pub parent: Option<Id>,
    pub author: String,
    pub email: String,
    pub message: String,
    pub timestamp: i64,
}

/// A history node as the model sees it.
pub ghost struct HistoryRecord<Id> {
    pub tree: Id,
    pub parent: Option<Id>,
    pub author: Seq<char>,
    pub email: Seq<char>,
    pub message: Seq<char>,
    pub timestamp: i64,
}

impl<Id> View for HistoryNode<Id> {
    type V = HistoryRecord<Id>;

    open spec fn view(&self) -> HistoryRecord<Id> {
        HistoryRecord {
            tree: self.tree,
            parent: self.parent,
            author: self.author@,
            email: self.email@,
            message: self.message@,
            timestamp: self.timestamp,
        }
    }
}

/// What a store holds: every object under its id, and every ref under its name.
#[verifier::reject_recursive_types(Id)]
pub ghost struct StoreState<Id> {
    pub blobs: Map<Id, Seq<u8>>,
    pub trees: Map<Id, TreeSpec<Id>>,
    pub history: Map<Id, HistoryRecord<Id>>,
    pub refs: Map<Seq<char>, Id>,
}

/// No two keys of `m` hold the same value.
pub open spec fn one_id_each<K, V>(m: Map<K, V>) -> bool {
    forall|a: K, b: K|
        m.contains_key(a) && m.contains_key(b) && #[trigger] m[a] == #[trigger] m[b] ==> a == b
}

impl<Id> StoreState<Id> {
    /// The store that holds nothing.
    pub open spec fn empty() -> Self {
        StoreState {
            blobs: Map::empty(),
            trees: Map::empty(),
            history: Map::empty(),
            refs: Map::empty(),
        }
    }

    /// The object that `link` points at is in the store, and is of the link's kind.
    pub open spec fn link_ok(self, link: Link<Id>) -> bool {
        match link.kind {
            EntryKind::File => self.blobs.contains_key(link.target),
            EntryKind::Directory => self.trees.contains_key(link.target),
        }
    }

    /// Every entry of `tree` points at an object of the store.
    pub open spec fn tree_ok(self, tree: TreeSpec<Id>) -> bool {
        forall|name: Seq<char>| #[trigger] tree.contains_key(name) ==> self.link_ok(tree[name])
    }

    /// The tree of `node` and its parent, if it has one, are in the store.
    pub open spec fn node_ok(self, node: HistoryRecord<Id>) -> bool {
        &&& self.trees.contains_key(node.tree)
        &&& node.parent matches Some(p) ==> self.history.contains_key(p)
    }

    /// What a store keeps true at all times: equal contents have one id, every
    /// id that an object or a ref mentions is in the store, and no history
    /// node is its own parent.
    pub open spec fn wf(self) -> bool {
        &&& one_id_each(self.blobs)
        &&& one_id_each(self.trees)
        &&& one_id_each(self.history)
        &&& forall|t: Id| #[trigger] self.trees.contains_key(t) ==> self.tree_ok(self.trees[t])
        &&& forall|h: Id| #[trigger]
            self.history.contains_key(h) ==> self.node_ok(self.history[h])
                && self.history[h].parent != Some(h)
        &&& forall|name: Seq<char>| #[trigger]
            self.refs.contains_key(name) ==> self.history.contains_key(self.refs[name])
    }

    /// Every object of `self` is in `later` too, unchanged.
    pub open spec fn within(self, later: Self) -> bool {
        &&& self.blobs.submap_of(later.blobs)
        &&& self.trees.submap_of(later.trees)
        &&& self.history.submap_of(later.history)
    }

    /// What the ref `name` points at, if it exists.
    pub open spec fn head(self, name: Seq<char>) -> Option<Id> {
        if self.refs.contains_key(name) {
            Some(self.refs[name])
        } else {
            None
        }
    }

    /// The store with the blob `bytes` under `id`.
    pub open spec fn with_blob(self, id: Id, bytes: Seq<u8>) -> Self {
        StoreState { blobs: self.blobs.insert(id, bytes), ..self }
    }

    /// The store with the tree `tree` under `id`.
    pub open spec fn with_tree(self, id: Id, tree: TreeSpec<Id>) -> Self {
        StoreState { trees: self.trees.insert(id, tree), ..self }
    }

    /// The store with the history node `node` under `id`.
    pub open spec fn with_node(self, id: Id, node: HistoryRecord<Id>) -> Self {
        StoreState { history: self.history.insert(id, node), ..self }
    }

    /// The store with the ref `name` pointing at `id`.
    pub open spec fn with_ref(self, name: Seq<char>, id: Id) -> Self {
        StoreState { refs: self.refs.insert(name, id), ..self }
    }
}

/// What a failed read may report: the object is missing, or the storage
/// failed, which a reliable store never does.
pub open spec fn read_failure(e: StoreError, present: bool, reliable: bool) -> bool {
    ||| e == StoreError::NotFound && !present
    ||| e == StoreError::StoreFailure && !reliable
}

/// A content-addressed object store, and the one ref table beside it.
///
/// Objects are written once and never change: a write of a content that the
/// store holds already gives back the id that it has. Only a ref can move.
///
/// `view`, `inv`, `reliable` and `inv_gives_wf` say what the store stands for
/// in contracts and are never run. A store that is written outside verified
/// code still has to name them, and answers for the contracts of the eight
/// operations itself.
pub trait ObjectStore: Sized {
    /// The name of an object.
    type Id: Copy;

    /// What the store holds.
    spec fn view(&self) -> StoreState<Self::Id>;

    /// What the store needs to be true of itself between calls.
    spec fn inv(&self) -> bool;

    /// A reliable store never reports [`StoreError::StoreFailure`].
    spec fn reliable(&self) -> bool;

    /// The invariant makes the contents well formed.
    proof fn inv_gives_wf(&self)
        requires
            self.inv(),
        ensures
            self@.wf(),
    ;

    /// The bytes of the blob `id`.
    fn get_blob(&self, id: Self::Id) -> (r: Result<Vec<u8>, StoreError>)
        requires
            self.inv(),
        ensures
            match r {
                Ok(bytes) => self@.blobs.contains_key(id) && bytes@ == self@.blobs[id],
                Err(e) => read_failure(e, self@.blobs.contains_key(id), self.reliable()),
            },
    ;

    /// Stores a blob and gives its id.
    fn put_blob(&mut self, bytes: &[u8]) -> (r: Result<Self::Id, StoreError>)
        requires
            old(self).inv(),
        ensures
            final(self).inv(),
            final(self).reliable() == old(self).reliable(),
            match r {
                Ok(id) => final(self)@ == old(self)@.with_blob(id, bytes@) && (old(
                    self,
                )@.blobs.contains_key(id) ==> old(self)@.blobs[id] == bytes@),
                Err(e) => final(self)@ == old(self)@ && e == StoreError::StoreFailure && !old(
                    self,
                ).reliable(),
            },
    ;

    /// The entries of the tree `id`.
    fn get_tree(&self, id: Self::Id) -> (r: Result<EntrySet<Self::Id>, StoreError>)
        requires
            self.inv(),
        ensures
            match r {
                Ok(entries) => self@.trees.contains_key(id) && entries.wf() && entries@
                    == self@.trees[id],
                Err(e) => read_failure(e, self@.trees.contains_key(id), self.reliable()),
            },
    ;

    /// Stores a tree and gives its id. Every entry has to point at an object
    /// of the store: with one that does not, nothing is stored.
    fn put_tree(&mut self, entries: EntrySet<Self::Id>) -> (r: Result<Self::Id, StoreError>)
        requires
            old(self).inv(),
            entries.wf(),
        ensures
            final(self).inv(),
            final(self).reliable() == old(self).reliable(),
            match r {
                Ok(id) => old(self)@.tree_ok(entries@) && final(self)@ == old(self)@.with_tree(
                    id,
                    entries@,
                ) && (old(self)@.trees.contains_key(id) ==> old(self)@.trees[id] == entries@),
                Err(e) => final(self)@ == old(self)@ && read_failure(
                    e,
                    old(self)@.tree_ok(entries@),
                    old(self).reliable(),
                ),
            },
    ;

    /// The history node `id`.
    fn get_history_node(&self, id: Self::Id) -> (r: Result<HistoryNode<Self::Id>, StoreError>)
        requires
            self.inv(),
        ensures
            match r {
                Ok(node) => self@.history.contains_key(id) && node@ == self@.history[id],
                Err(e) => read_failure(e, self@.history.contains_key(id), self.reliable()),
            },
    ;

    /// Stores a history node and gives its id. Its tree and its parent have
    /// to be in the store: without them nothing is stored.
    fn put_history_node(&mut self, node: HistoryNode<Self::Id>) -> (r: Result<
        Self::Id,
        StoreError,
    >)
        requires
            old(self).inv(),
        ensures
            final(self).inv(),
            final(self).reliable() == old(self).reliable(),
            match r {
                Ok(id) => old(self)@.node_ok(node@) && final(self)@ == old(self)@.with_node(
                    id,
                    node@,
                ) && (old(self)@.history.contains_key(id) ==> old(self)@.history[id] == node@),
                Err(e) => final(self)@ == old(self)@ && read_failure(
                    e,
                    old(self)@.node_ok(node@),
                    old(self).reliable(),
                ),
            },
    ;

    /// What the ref `name` points at, or `None` where there is no such ref.
    fn read_ref(&self, name: &str) -> (r: Result<Option<Self::Id>, StoreError>)
        requires
            self.inv(),
        ensures
            match r {
                Ok(target) => target == self@.head(name@),
                Err(e) => e == StoreError::StoreFailure && !self.reliable(),
            },
    ;

    /// Points the ref `name` at `new` if it points at `expected` now (`None`:
    /// if it does not exist yet), and says whether it did.
    fn compare_and_swap_ref(
        &mut self,
        name: &str,
        expected: Option<Self::Id>,
        new: Self::Id,
    ) -> (r: Result<bool, StoreError>)
        requires
            old(self).inv(),
        ensures
            final(self).inv(),
            final(self).reliable() == old(self).reliable(),
            match r {
                Ok(swapped) => old(self)@.history.contains_key(new) && swapped == (old(
                    self,
                )@.head(name@) == expected) && final(self)@ == (if swapped {
                    old(self)@.with_ref(name@, new)
                } else {
                    old(self)@
                }),
                Err(e) => final(self)@ == old(self)@ && read_failure(
                    e,
                    old(self)@.history.contains_key(new),
                    old(self).reliable(),
                ),
            },
    ;
}

} // verus!
