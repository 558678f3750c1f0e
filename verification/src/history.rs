//! History nodes, and the compare-and-swap that moves a ref onto a new one.

use crate::error::StoreError;
use crate::store::{read_failure, HistoryNode, HistoryRecord, ObjectStore};
use vstd::prelude::*;

verus! {

/// Who records a snapshot, and the message that goes with it.
#[derive(Debug)]
pub struct CommitInfo {
    pub message: String,
    pub author: String,
    pub email: String,
}

/// A `CommitInfo` as the model sees it.
pub ghost struct CommitText {
    pub message: Seq<char>,
    pub author: Seq<char>,
    pub email: Seq<char>,
}

impl View for CommitInfo {
    type V = CommitText;

    open spec fn view(&self) -> CommitText {
        CommitText { message: self.message@, author: self.author@, email: self.email@ }
    }
}

/// The history node that a commit of `tree` on top of `parent` writes.
pub open spec fn commit_record<Id>(
    tree: Id,
    parent: Option<Id>,
    info: CommitText,
    timestamp: i64,
) -> HistoryRecord<Id> {
    HistoryRecord {
        tree,
        parent,
        author: info.author,
        email: info.email,
        message: info.message,
        timestamp,
    }
}

/// Records `tree` as a snapshot on top of `parent`, and moves the ref
/// `ref_name` to it if the ref still points at `parent` (`None`: if it does
/// not exist yet).
///
/// Fails with `NotFound` where `tree` or `parent` is not in the store, and
/// then nothing is written. Fails with `Conflict` where the ref points
/// elsewhere: the node is written, the ref stays, and the caller has to read
/// the ref again and start over.
pub fn commit_on<S: ObjectStore>(
    store: &mut S,
    ref_name: &str,
    parent: Option<S::Id>,
    tree: S::Id,
    info: &CommitInfo,
    timestamp: i64,
) -> (r: Result<S::Id, StoreError>)
    requires
        old(store).inv(),
    ensures
        final(store).inv(),
        final(store).reliable() == old(store).reliable(),
        old(store)@.within(final(store)@),
        final(store)@.blobs == old(store)@.blobs,
        final(store)@.trees == old(store)@.trees,
        match r {
            Ok(id) => {
                let record = commit_record(tree, parent, info@, timestamp);
                &&& old(store)@.node_ok(record)
                &&& old(store)@.head(ref_name@) == parent
                &&& old(store)@.history.contains_key(id) ==> old(store)@.history[id] == record
                &&& final(store)@ == old(store)@.with_node(id, record).with_ref(ref_name@, id)
            },
            Err(e) => {
                let record = commit_record(tree, parent, info@, timestamp);
                &&& final(store)@.refs == old(store)@.refs
                &&& match e {
                    StoreError::NotFound => !old(store)@.node_ok(record) && final(store)@ == old(
                        store,
                    )@,
                    StoreError::Conflict => old(store)@.node_ok(record) && old(store)@.head(
                        ref_name@,
                    ) != parent && exists|id: S::Id| #[trigger]
                        final(store)@.history.contains_key(id) && final(store)@ == old(
                            store,
                        )@.with_node(id, record),
                    StoreError::StoreFailure => !old(store).reliable(),
                    StoreError::InvalidPath => false,
                }
            },
        },
        old(store)@.head(ref_name@) != parent ==> r is Err,
        old(store)@.head(ref_name@) != parent && old(store).reliable() && old(store)@.node_ok(
            commit_record(tree, parent, info@, timestamp),
        ) ==> r is Err && r->Err_0 == StoreError::Conflict,
{
    let node = HistoryNode {
        tree,
        parent,
        author: info.author.clone(),
        email: info.email.clone(),
        message: info.message.clone(),
        timestamp,
    };
    let ghost record = node@;
    let id = match store.put_history_node(node) {
        Ok(id) => id,
        Err(e) => {
            return Err(e);
        },
    };
    let ghost middle = store@;
    proof {
        assert(middle.history.contains_key(id));
        assert(old(store)@.history.submap_of(middle.history));
    }
    match store.compare_and_swap_ref(ref_name, parent, id) {
        Ok(true) => Ok(id),
        Ok(false) => Err(StoreError::Conflict),
        Err(e) => Err(e),
    }
}

/// Records `tree` as the next snapshot of the ref `ref_name`: on top of what
/// the ref points at, or as the first snapshot where the ref does not exist
/// yet, in which case the call creates it.
///
/// Fails with `NotFound` where `tree` is not in the store.
pub fn commit<S: ObjectStore>(
    store: &mut S,
    ref_name: &str,
    tree: S::Id,
    info: &CommitInfo,
    timestamp: i64,
) -> (r: Result<S::Id, StoreError>)
    requires
        old(store).inv(),
    ensures
        final(store).inv(),
        final(store).reliable() == old(store).reliable(),
        old(store)@.within(final(store)@),
        final(store)@.blobs == old(store)@.blobs,
        final(store)@.trees == old(store)@.trees,
        match r {
            Ok(id) => {
                let record = commit_record(tree, old(store)@.head(ref_name@), info@, timestamp);
                &&& old(store)@.trees.contains_key(tree)
                &&& old(store)@.history.contains_key(id) ==> old(store)@.history[id] == record
                &&& final(store)@ == old(store)@.with_node(id, record).with_ref(ref_name@, id)
            },
            Err(e) => final(store)@.refs == old(store)@.refs && read_failure(
                e,
                old(store)@.trees.contains_key(tree),
                old(store).reliable(),
            ),
        },
{
    proof {
        store.inv_gives_wf();
    }
    let parent = match store.read_ref(ref_name) {
        Ok(parent) => parent,
        Err(e) => {
            return Err(e);
        },
    };
    commit_on(store, ref_name, parent, tree, info, timestamp)
}

} // verus!
