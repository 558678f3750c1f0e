//! Batches of changes: every upsert, then every removal, each on the tree
//! that the change before it gave.

use crate::error::StoreError;
use crate::change::{lemma_grafted_grows, lemma_grown_twice, lemma_pruned_grows};
use crate::mutator::{remove, upsert};
use crate::path::{names_entry, segments};
use crate::reader::{dir_link, lemma_descend_stable};
use crate::store::{ObjectStore, StoreState};
use vstd::prelude::*;
use vstd::utf8::encode_utf8;

verus! {

/// A file to put into a tree: where it goes and what it holds.
#[derive(Debug)]
pub struct StagedFile {
    pub content: String,
    pub path: String,
}

impl Clone for StagedFile {
    fn clone(&self) -> (r: Self)
        ensures
            r.content@ == self.content@,
            r.path@ == self.path@,
    {
        StagedFile { content: self.content.clone(), path: self.path.clone() }
    }
}

/// One change to a tree, as the model sees it.
pub ghost enum TreeOp {
    /// A file with these bytes is put at the path.
    Put { path: Seq<char>, content: Seq<u8> },
    /// What the path leads to is taken out.
    Take { path: Seq<char> },
}

/// The changes that a batch makes, in the order in which they are made:
/// every upsert, in the order given, and after them every removal, in the
/// order given.
pub open spec fn batch_ops(upserts: Seq<StagedFile>, removals: Seq<String>) -> Seq<TreeOp> {
    Seq::new(
        upserts.len(),
        |i: int| TreeOp::Put { path: upserts[i].path@, content: encode_utf8(upserts[i].content@) },
    ) + Seq::new(removals.len(), |i: int| TreeOp::Take { path: removals[i]@ })
}

impl<Id> StoreState<Id> {
    /// The change `op` turns the tree `from` into the tree `to`.
    pub open spec fn stepped(self, from: Id, op: TreeOp, to: Id) -> bool {
        match op {
            TreeOp::Put { path, content } => names_entry(path) && self.grafted(
                Some(from),
                segments(path),
                content,
                to,
            ),
            TreeOp::Take { path } => names_entry(path) && self.entry_at(from, segments(path))
                is Some && self.pruned(from, segments(path), to),
        }
    }

    /// The change `op` cannot be made to the tree `from`, and `e` says why.
    pub open spec fn refused(self, from: Id, op: TreeOp, e: StoreError) -> bool {
        match op {
            TreeOp::Put { path, content } => e == StoreError::InvalidPath && !names_entry(path),
            TreeOp::Take { path } => if names_entry(path) {
                e == StoreError::NotFound && self.entry_at(from, segments(path)) is None
            } else {
                e == StoreError::InvalidPath
            },
        }
    }

    /// `trees` are the trees that the changes `ops` lead through: each change
    /// turns one tree of the store into the next.
    pub open spec fn follows(self, ops: Seq<TreeOp>, trees: Seq<Id>) -> bool {
        &&& trees.len() == ops.len() + 1
        &&& forall|k: int|
            0 <= k < ops.len() ==> self.trees.contains_key(#[trigger] trees[k]) && self.stepped(
                trees[k],
                ops[k],
                trees[k + 1],
            )
    }

    /// The changes `ops`, made one after the other, turn the tree `base` into the tree `result`.
    pub open spec fn applied(self, base: Id, ops: Seq<TreeOp>, result: Id) -> bool {
        exists|trees: Seq<Id>| #[trigger]
            self.follows(ops, trees) && trees[0] == base && trees[ops.len() as int] == result
    }

    /// The changes `ops` cannot all be made to the tree `base`: the first
    /// `done` of them can, one after the other, and the next one is refused
    /// for the reason `e`.
    pub open spec fn stopped(self, base: Id, ops: Seq<TreeOp>, done: int, e: StoreError) -> bool {
        &&& 0 <= done < ops.len()
        &&& exists|trees: Seq<Id>| #[trigger]
            self.follows(ops.take(done), trees) && trees[0] == base && self.trees.contains_key(
                trees[done],
            ) && self.refused(trees[done], ops[done], e)
    }
}

/// A change that was made stays made when the store grows.
pub proof fn lemma_stepped_grows<Id>(
    s: StoreState<Id>,
    t: StoreState<Id>,
    from: Id,
    op: TreeOp,
    to: Id,
)
    requires
        s.wf(),
        s.within(t),
        s.trees.contains_key(from),
        s.stepped(from, op, to),
    ensures
        t.stepped(from, op, to),
{
    match op {
        TreeOp::Put { path, content } => {
            lemma_grafted_grows(s, t, Some(from), segments(path), content, to);
        },
        TreeOp::Take { path } => {
            lemma_descend_stable(s, t, dir_link(from), segments(path));
            lemma_pruned_grows(s, t, from, segments(path), to);
        },
    }
}

/// The trees that changes led through are still those when the store grows.
pub proof fn lemma_follows_grows<Id>(
    s: StoreState<Id>,
    t: StoreState<Id>,
    ops: Seq<TreeOp>,
    trees: Seq<Id>,
)
    requires
        s.wf(),
        s.within(t),
        s.follows(ops, trees),
    ensures
        t.follows(ops, trees),
{
    assert forall|k: int| 0 <= k < ops.len() implies t.trees.contains_key(#[trigger] trees[k])
        && t.stepped(trees[k], ops[k], trees[k + 1]) by {
        assert(s.trees.dom().contains(trees[k]));
        lemma_stepped_grows(s, t, trees[k], ops[k], trees[k + 1]);
    }
}

/// One more change after those that `trees` follows.
pub proof fn lemma_follows_more<Id>(
    s: StoreState<Id>,
    ops: Seq<TreeOp>,
    done: int,
    trees: Seq<Id>,
    to: Id,
)
    requires
        0 <= done < ops.len(),
        s.follows(ops.take(done), trees),
        s.trees.contains_key(trees[done]),
        s.stepped(trees[done], ops[done], to),
    ensures
        s.follows(ops.take(done + 1), trees.push(to)),
{
    let more = trees.push(to);
    assert forall|k: int| 0 <= k < done + 1 implies s.trees.contains_key(#[trigger] more[k])
        && s.stepped(more[k], ops.take(done + 1)[k], more[k + 1]) by {
        if k < done {
            assert(s.trees.contains_key(trees[k]) && s.stepped(
                trees[k],
                ops.take(done)[k],
                trees[k + 1],
            ));
        }
    }
}

/// Makes a batch of changes to the tree `base` and gives the id of the tree
/// that results.
///
/// The changes are made one after the other, each to the tree that the one
/// before it gave: first every upsert, then every removal, so that a path that
/// the batch both puts and removes ends up removed. The first change that
/// cannot be made ends the call with its error. `base` has to be a tree of the
/// store.
pub fn apply<S: ObjectStore>(
    store: &mut S,
    base: S::Id,
    upserts: &[StagedFile],
    removals: &[String],
) -> (r: Result<S::Id, StoreError>)
    requires
        old(store).inv(),
    ensures
        final(store).inv(),
        final(store).reliable() == old(store).reliable(),
        old(store)@.grown_to(final(store)@),
        final(store)@.history == old(store)@.history,
        match r {
            Ok(id) => old(store)@.trees.contains_key(base) && final(store)@.trees.contains_key(
                id,
            ) && final(store)@.applied(base, batch_ops(upserts@, removals@), id),
            Err(e) => {
                ||| e == StoreError::StoreFailure && !old(store).reliable()
                ||| e == StoreError::NotFound && !old(store)@.trees.contains_key(base)
                ||| old(store)@.trees.contains_key(base) && exists|done: int| #[trigger]
                    final(store)@.stopped(base, batch_ops(upserts@, removals@), done, e)
            },
        },
{
    let ghost ops = batch_ops(upserts@, removals@);
    let ghost s0 = store@;
    proof {
        store.inv_gives_wf();
    }
    match store.get_tree(base) {
        Ok(_) => {},
        Err(e) => {
            return Err(e);
        },
    }
    let mut cur = base;
    let ghost mut trees: Seq<S::Id> = seq![base];
    let mut i: usize = 0;
    proof {
        assert(ops.take(0) =~= Seq::<TreeOp>::empty());
    }
    while i < upserts.len()
        invariant
            store.inv(),
            store@.wf(),
            store.reliable() == old(store).reliable(),
            s0 == old(store)@,
            s0.grown_to(store@),
            store@.history == s0.history,
            s0.trees.contains_key(base),
            ops == batch_ops(upserts@, removals@),
            0 <= i <= upserts@.len(),
            store@.follows(ops.take(i as int), trees),
            trees[0] == base,
            trees[i as int] == cur,
            store@.trees.contains_key(cur),
        decreases upserts@.len() - i,
    {
        let ghost before = store@;
        let file = &upserts[i];
        let outcome = upsert(store, cur, file.path.as_str(), file.content.as_str().as_bytes());
        proof {
            store.inv_gives_wf();
            lemma_grown_twice(s0, before, store@);
            lemma_follows_grows(before, store@, ops.take(i as int), trees);
            assert(before.trees.dom().contains(cur));
            assert(ops[i as int] == TreeOp::Put {
                path: file.path@,
                content: encode_utf8(file.content@),
            });
        }
        match outcome {
            Ok(id) => {
                proof {
                    lemma_follows_more(store@, ops, i as int, trees, id);
                    trees = trees.push(id);
                }
                cur = id;
            },
            Err(e) => {
                proof {
                    if names_entry(file.path@) {
                    } else {
                        assert(store@.stopped(base, ops, i as int, e));
                    }
                }
                return Err(e);
            },
        }
        i = i + 1;
    }
    let m = upserts.len();
    let mut j: usize = 0;
    while j < removals.len()
        invariant
            store.inv(),
            store@.wf(),
            store.reliable() == old(store).reliable(),
            s0 == old(store)@,
            s0.grown_to(store@),
            store@.history == s0.history,
            s0.trees.contains_key(base),
            ops == batch_ops(upserts@, removals@),
            m == upserts@.len(),
            0 <= j <= removals@.len(),
            store@.follows(ops.take(m + j), trees),
            trees[0] == base,
            trees[m + j] == cur,
            store@.trees.contains_key(cur),
        decreases removals@.len() - j,
    {
        let ghost before = store@;
        let outcome = remove(store, cur, removals[j].as_str());
        proof {
            store.inv_gives_wf();
            lemma_grown_twice(s0, before, store@);
            lemma_follows_grows(before, store@, ops.take(m + j), trees);
            assert(before.trees.dom().contains(cur));
            assert(ops[m + j] == TreeOp::Take { path: removals[j as int]@ });
            lemma_descend_stable(before, store@, dir_link(cur), segments(removals[j as int]@));
        }
        match outcome {
            Ok(id) => {
                proof {
                    lemma_follows_more(store@, ops, m + j, trees, id);
                    trees = trees.push(id);
                }
                cur = id;
            },
            Err(e) => {
                proof {
                    if e == StoreError::StoreFailure && !old(store).reliable() {
                    } else {
                        assert(store@.stopped(base, ops, m + j, e));
                    }
                }
                return Err(e);
            },
        }
        j = j + 1;
    }
    proof {
        assert(ops.take(ops.len() as int) =~= ops);
    }
    Ok(cur)
}

} // verus!
