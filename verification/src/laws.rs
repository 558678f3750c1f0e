//! What holds of trees after changes, proved from the contracts of the
//! functions that make them.

use crate::batch::TreeOp;
use crate::entry::{EntryKind, Link};
use crate::history::CommitText;
use crate::path::{names_entry, segments, PathSpec};
use crate::reader::dir_link;
use crate::store::{HistoryRecord, StoreState};
use vstd::prelude::*;

verus! {

/// Two paths part ways: neither leads through the other.
pub open spec fn apart(p: PathSpec, q: PathSpec) -> bool {
    !p.is_prefix_of(q) && !q.is_prefix_of(p)
}

/// Paths that part ways and start with the same name still part ways after it.
proof fn lemma_apart_rest(p: PathSpec, q: PathSpec)
    requires
        apart(p, q),
        p.len() > 0,
        q.len() > 0,
        p[0] == q[0],
    ensures
        p.len() > 1,
        q.len() > 1,
        apart(p.drop_first(), q.drop_first()),
{
    if p.len() == 1 {
        assert(p =~= q.subrange(0, 1));
    }
    if q.len() == 1 {
        assert(q =~= p.subrange(0, 1));
    }
    let p_rest = p.drop_first();
    let q_rest = q.drop_first();
    if p_rest.is_prefix_of(q_rest) {
        assert(p =~= q.subrange(0, p.len() as int)) by {
            assert forall|i: int| 0 <= i < p.len() implies p[i] == q[i] by {
                if i > 0 {
                    assert(p_rest[i - 1] == q_rest.subrange(0, p_rest.len() as int)[i - 1]);
                }
            }
        }
    }
    if q_rest.is_prefix_of(p_rest) {
        assert(q =~= p.subrange(0, q.len() as int)) by {
            assert forall|i: int| 0 <= i < q.len() implies q[i] == p[i] by {
                if i > 0 {
                    assert(q_rest[i - 1] == p_rest.subrange(0, q_rest.len() as int)[i - 1]);
                }
            }
        }
    }
}

/// After a file was put at a path, the path leads to a file with those bytes.
pub proof fn law_put_then_read<Id>(
    s: StoreState<Id>,
    dir: Option<Id>,
    path: PathSpec,
    content: Seq<u8>,
    result: Id,
)
    requires
        s.grafted(dir, path, content, result),
    ensures
        s.file_at(result, path) == Some(content),
        s.entry_at(result, path) is Some,
    decreases path.len(),
{
    let link = s.trees[result][path[0]];
    if path.len() == 1 {
        assert(s.descend(link, path.drop_first()) == Some(link));
    } else {
        law_put_then_read(s, s.subdir(dir, path[0]), path.drop_first(), content, link.target);
        assert(link == dir_link(link.target));
    }
}

/// After a batch whose last change puts a file at a path, the path leads to a
/// file with those bytes.
pub proof fn law_last_put_reads_back<Id>(
    s: StoreState<Id>,
    base: Id,
    ops: Seq<TreeOp>,
    result: Id,
    path: Seq<char>,
    content: Seq<u8>,
)
    requires
        ops.len() > 0,
        ops.last() == (TreeOp::Put { path, content }),
        s.applied(base, ops, result),
    ensures
        s.file_at(result, segments(path)) == Some(content),
{
    let trees = choose|trees: Seq<Id>| #[trigger]
        s.follows(ops, trees) && trees[0] == base && trees[ops.len() as int] == result;
    let last = ops.len() - 1;
    assert(s.trees.contains_key(trees[last]) && s.stepped(trees[last], ops[last], trees[last + 1]));
    law_put_then_read(s, Some(trees[last]), segments(path), content, result);
}

/// After a file was put at a path, every name of the path but the last is a
/// directory that holds the next name.
pub proof fn law_put_makes_directories<Id>(
    s: StoreState<Id>,
    dir: Option<Id>,
    path: PathSpec,
    content: Seq<u8>,
    result: Id,
    k: int,
)
    requires
        s.grafted(dir, path, content, result),
        0 <= k < path.len(),
    ensures
        s.names_at(result, path.take(k)) is Some,
        s.names_at(result, path.take(k))->0.contains(path[k]),
    decreases path.len(),
{
    let link = s.trees[result][path[0]];
    if k == 0 {
        assert(path.take(0).len() == 0);
    } else {
        let rest = path.drop_first();
        law_put_makes_directories(s, s.subdir(dir, path[0]), rest, content, link.target, k - 1);
        assert(link == dir_link(link.target));
        assert(path.take(k).drop_first() =~= rest.take(k - 1));
        assert(path.take(k)[0] == path[0]);
        assert(s.descend(dir_link(result), path.take(k)) == s.descend(
            link,
            path.take(k).drop_first(),
        ));
    }
}

/// Putting a file at a path changes nothing of what a path that parts ways
/// with it leads to: the entries beside the path, at every level, stay as
/// they were.
pub proof fn law_put_keeps_the_rest<Id>(
    s: StoreState<Id>,
    dir: Option<Id>,
    path: PathSpec,
    content: Seq<u8>,
    result: Id,
    q: PathSpec,
)
    requires
        s.grafted(dir, path, content, result),
        apart(path, q),
    ensures
        s.entry_at(result, q) == match dir {
            Some(d) => s.entry_at(d, q),
            None => None,
        },
    decreases path.len(),
{
    assert(q.len() > 0) by {
        if q.len() == 0 {
            assert(q =~= path.subrange(0, 0));
        }
    }
    let link = s.trees[result][path[0]];
    if q[0] == path[0] {
        lemma_apart_rest(path, q);
        let sub = s.subdir(dir, path[0]);
        law_put_keeps_the_rest(s, sub, path.drop_first(), content, link.target, q.drop_first());
        assert(link == dir_link(link.target));
        match dir {
            Some(d) => {
                if s.entries_of(dir).contains_key(path[0]) {
                    let was = s.entries_of(dir)[path[0]];
                    if was.kind == EntryKind::Directory {
                        assert(was == dir_link(was.target));
                    } else {
                        assert(s.descend(was, q.drop_first()) is None);
                    }
                }
            },
            None => {},
        }
    } else {
        match dir {
            Some(d) => {},
            None => {},
        }
    }
}

/// A directory that taking a path out would leave without an entry holds
/// nothing that a path parting ways with that path leads to.
proof fn lemma_emptied_apart<Id>(s: StoreState<Id>, dir: Id, path: PathSpec, q: PathSpec)
    requires
        s.emptied(dir, path),
        apart(path, q),
    ensures
        s.entry_at(dir, q) is None,
    decreases path.len(),
{
    assert(q.len() > 0) by {
        if q.len() == 0 {
            assert(q =~= path.subrange(0, 0));
        }
    }
    let entries = s.entries_of(Some(dir));
    if q[0] == path[0] {
        lemma_apart_rest(path, q);
        if s.trees.contains_key(dir) && entries.contains_key(path[0]) {
            let was = entries[path[0]];
            match s.subdir(Some(dir), path[0]) {
                Some(d) => {
                    lemma_emptied_apart(s, d, path.drop_first(), q.drop_first());
                    assert(was == dir_link(d));
                },
                None => {},
            }
        }
    } else {
        if s.trees.contains_key(dir) && entries.contains_key(q[0]) {
            assert(entries.remove(path[0]).contains_key(q[0]));
        }
    }
}

/// Taking a path out changes nothing of what a path that parts ways with it
/// leads to: the entries beside the path, at every level, stay as they were.
pub proof fn law_take_keeps_the_rest<Id>(
    s: StoreState<Id>,
    base: Id,
    path: PathSpec,
    result: Id,
    q: PathSpec,
)
    requires
        s.pruned(base, path, result),
        apart(path, q),
    ensures
        s.entry_at(result, q) == s.entry_at(base, q),
    decreases path.len(),
{
    assert(q.len() > 0) by {
        if q.len() == 0 {
            assert(q =~= path.subrange(0, 0));
        }
    }
    let entries = s.entries_of(Some(base));
    if q[0] == path[0] {
        lemma_apart_rest(path, q);
        match s.subdir(Some(base), path[0]) {
            Some(d) => {
                assert(entries[path[0]] == dir_link(d));
                if s.emptied(d, path.drop_first()) {
                    lemma_emptied_apart(s, d, path.drop_first(), q.drop_first());
                } else {
                    let link = s.trees[result][path[0]];
                    law_take_keeps_the_rest(
                        s,
                        d,
                        path.drop_first(),
                        link.target,
                        q.drop_first(),
                    );
                    assert(link == dir_link(link.target));
                }
            },
            None => {},
        }
    } else {
        if path.len() > 1 {
            match s.subdir(Some(base), path[0]) {
                Some(d) => {},
                None => {},
            }
        }
    }
}

/// What was taken out is gone: the path, and every path that leads through
/// it, leads to nothing.
pub proof fn law_taken_is_absent<Id>(
    s: StoreState<Id>,
    base: Id,
    path: PathSpec,
    result: Id,
    q: PathSpec,
)
    requires
        s.pruned(base, path, result),
        path.is_prefix_of(q),
    ensures
        s.entry_at(result, q) is None,
    decreases path.len(),
{
    assert(q[0] == path[0]) by {
        assert(q.subrange(0, path.len() as int)[0] == q[0]);
    }
    if path.len() > 1 {
        match s.subdir(Some(base), path[0]) {
            Some(d) => {
                if !s.emptied(d, path.drop_first()) {
                    let link = s.trees[result][path[0]];
                    assert(path.drop_first() =~= q.drop_first().subrange(
                        0,
                        path.len() - 1,
                    )) by {
                        assert forall|i: int| 0 <= i < path.len() - 1 implies path.drop_first()[i]
                            == q.drop_first()[i] by {
                            assert(q.subrange(0, path.len() as int)[i + 1] == q[i + 1]);
                        }
                    }
                    law_taken_is_absent(s, d, path.drop_first(), link.target, q.drop_first());
                    assert(link == dir_link(link.target));
                }
            },
            None => {},
        }
    }
}

/// A directory that taking a path out does not leave without an entry has an
/// entry afterwards.
proof fn lemma_pruned_not_empty<Id>(s: StoreState<Id>, dir: Id, path: PathSpec, result: Id)
    requires
        s.pruned(dir, path, result),
        !s.emptied(dir, path),
    ensures
        s.trees[result] != Map::<Seq<char>, Link<Id>>::empty(),
    decreases path.len(),
{
    let entries = s.entries_of(Some(dir));
    if path.len() > 1 {
        match s.subdir(Some(dir), path[0]) {
            Some(d) => {
                if !s.emptied(d, path.drop_first()) {
                    assert(s.trees[result].contains_key(path[0]));
                }
            },
            None => {},
        }
    }
}

/// Taking a path out leaves no directory on the path without an entry: below
/// the root, each name of the path either is gone or is a directory that
/// still holds something.
pub proof fn law_take_leaves_no_empty_directory<Id>(
    s: StoreState<Id>,
    base: Id,
    path: PathSpec,
    result: Id,
    k: int,
)
    requires
        s.pruned(base, path, result),
        0 < k < path.len(),
    ensures
        match s.entry_at(result, path.take(k)) {
            Some(link) => link.kind == EntryKind::Directory && s.trees.contains_key(link.target)
                && s.trees[link.target] != Map::<Seq<char>, Link<Id>>::empty(),
            None => true,
        },
    decreases path.len(),
{
    let q = path.take(k);
    assert(q.len() == k && q[0] == path[0]);
    match s.subdir(Some(base), path[0]) {
        Some(d) => {
            if s.emptied(d, path.drop_first()) {
                assert(!s.trees[result].contains_key(path[0]));
                assert(s.descend(dir_link(result), q) is None);
            } else {
                let link = s.trees[result][path[0]];
                assert(link == dir_link(link.target));
                assert(q.drop_first() =~= path.drop_first().take(k - 1));
                assert(s.descend(dir_link(result), q) == s.descend(link, q.drop_first()));
                if k == 1 {
                    lemma_pruned_not_empty(s, d, path.drop_first(), link.target);
                    assert(s.descend(link, q.drop_first()) == Some(link));
                    assert(s.entry_at(result, q) == Some(link));
                    assert(s.trees.contains_key(link.target));
                } else {
                    law_take_leaves_no_empty_directory(
                        s,
                        d,
                        path.drop_first(),
                        link.target,
                        k - 1,
                    );
                    assert(s.entry_at(result, q) == s.entry_at(
                        link.target,
                        path.drop_first().take(k - 1),
                    ));
                }
            }
        },
        None => {},
    }
}

/// A directory that was made for a path alone is left without an entry when
/// the path is taken out again.
proof fn lemma_grafted_alone<Id>(s: StoreState<Id>, path: PathSpec, content: Seq<u8>, result: Id)
    requires
        s.grafted(None, path, content, result),
    ensures
        s.emptied(result, path),
    decreases path.len(),
{
    let link = s.trees[result][path[0]];
    assert(s.entries_of(None::<Id>) =~= Map::empty());
    assert(s.entries_of(Some(result)).remove(path[0]) =~= Map::<Seq<char>, Link<Id>>::empty());
    if path.len() > 1 {
        assert(s.subdir(None::<Id>, path[0]) is None);
        lemma_grafted_alone(s, path.drop_first(), content, link.target);
        assert(s.subdir(Some(result), path[0]) == Some(link.target));
    }
}

/// Putting a file below a name that the root of a tree does not hold, and
/// taking the file out again, gives back the very tree: every directory that
/// was made for the file goes with it.
pub proof fn law_put_then_take_restores<Id>(
    s: StoreState<Id>,
    base: Id,
    path: PathSpec,
    content: Seq<u8>,
    middle: Id,
    result: Id,
)
    requires
        s.wf(),
        s.trees.contains_key(base),
        !s.trees[base].contains_key(path[0]),
        s.grafted(Some(base), path, content, middle),
        s.pruned(middle, path, result),
    ensures
        result == base,
{
    let link = s.trees[middle][path[0]];
    assert(s.trees[base].insert(path[0], link).remove(path[0]) =~= s.trees[base]);
    if path.len() > 1 {
        assert(s.subdir(Some(base), path[0]) is None);
        lemma_grafted_alone(s, path.drop_first(), content, link.target);
        assert(s.subdir(Some(middle), path[0]) == Some(link.target));
    }
    assert(s.trees[result] == s.trees[base]);
}

/// In a store where equal contents have one id, putting a file at a path in a
/// directory can give one tree only.
pub proof fn lemma_grafted_unique<Id>(
    s: StoreState<Id>,
    dir: Option<Id>,
    path: PathSpec,
    content: Seq<u8>,
    a: Id,
    b: Id,
)
    requires
        s.wf(),
        s.grafted(dir, path, content, a),
        s.grafted(dir, path, content, b),
    ensures
        a == b,
    decreases path.len(),
{
    let la = s.trees[a][path[0]];
    let lb = s.trees[b][path[0]];
    if path.len() == 1 {
        assert(s.blobs[la.target] == s.blobs[lb.target]);
    } else {
        lemma_grafted_unique(
            s,
            s.subdir(dir, path[0]),
            path.drop_first(),
            content,
            la.target,
            lb.target,
        );
    }
    assert(la == lb);
    assert(s.trees[a] == s.trees[b]);
}

/// In a store where equal contents have one id, taking a path out of a
/// directory can give one tree only.
pub proof fn lemma_pruned_unique<Id>(s: StoreState<Id>, dir: Id, path: PathSpec, a: Id, b: Id)
    requires
        s.wf(),
        s.pruned(dir, path, a),
        s.pruned(dir, path, b),
    ensures
        a == b,
    decreases path.len(),
{
    if path.len() > 1 {
        match s.subdir(Some(dir), path[0]) {
            Some(d) => {
                if !s.emptied(d, path.drop_first()) {
                    let la = s.trees[a][path[0]];
                    let lb = s.trees[b][path[0]];
                    lemma_pruned_unique(s, d, path.drop_first(), la.target, lb.target);
                    assert(la == lb);
                }
            },
            None => {},
        }
    }
    assert(s.trees[a] == s.trees[b]);
}

/// The same changes to the same tree give the same tree, whenever they are
/// made: a second run, in the store as the first run left it or as it has
/// grown since, ends at the id at which the first one ended.
pub proof fn law_apply_is_deterministic<Id>(
    s: StoreState<Id>,
    t: StoreState<Id>,
    base: Id,
    ops: Seq<TreeOp>,
    first: Id,
    second: Id,
)
    requires
        s.wf(),
        t.wf(),
        s.within(t),
        s.applied(base, ops, first),
        t.applied(base, ops, second),
    ensures
        first == second,
{
    let a = choose|a: Seq<Id>| #[trigger]
        s.follows(ops, a) && a[0] == base && a[ops.len() as int] == first;
    let b = choose|b: Seq<Id>| #[trigger]
        t.follows(ops, b) && b[0] == base && b[ops.len() as int] == second;
    crate::batch::lemma_follows_grows(s, t, ops, a);
    lemma_same_trees(t, ops, a, b, ops.len() as int);
}

/// Two runs of the same changes from the same tree pass through the same trees.
proof fn lemma_same_trees<Id>(s: StoreState<Id>, ops: Seq<TreeOp>, a: Seq<Id>, b: Seq<Id>, k: int)
    requires
        s.wf(),
        s.follows(ops, a),
        s.follows(ops, b),
        a[0] == b[0],
        0 <= k <= ops.len(),
    ensures
        a[k] == b[k],
    decreases k,
{
    if k > 0 {
        lemma_same_trees(s, ops, a, b, k - 1);
        assert(s.trees.contains_key(a[k - 1]) && s.stepped(a[k - 1], ops[k - 1], a[k]));
        assert(s.trees.contains_key(b[k - 1]) && s.stepped(b[k - 1], ops[k - 1], b[k]));
        match ops[k - 1] {
            TreeOp::Put { path, content } => {
                lemma_grafted_unique(s, Some(a[k - 1]), segments(path), content, a[k], b[k]);
            },
            TreeOp::Take { path } => {
                lemma_pruned_unique(s, a[k - 1], segments(path), a[k], b[k]);
            },
        }
    }
}

/// The changes of a batch that puts a file at a path and removes the same path.
pub open spec fn put_then_take(path: Seq<char>, content: Seq<u8>) -> Seq<TreeOp> {
    seq![TreeOp::Put { path, content }, TreeOp::Take { path }]
}

/// A batch that puts a file at a path and removes the same path can always be
/// made, and the path leads to nothing in the tree that results: the removal
/// comes last.
pub proof fn law_removal_wins<Id>(
    s: StoreState<Id>,
    base: Id,
    path: Seq<char>,
    content: Seq<u8>,
    result: Id,
)
    requires
        names_entry(path),
    ensures
        forall|done: int, e: crate::error::StoreError|
            !#[trigger] s.stopped(base, put_then_take(path, content), done, e),
        s.applied(base, put_then_take(path, content), result) ==> s.entry_at(
            result,
            segments(path),
        ) is None && s.file_at(result, segments(path)) is None,
{
    let ops = put_then_take(path, content);
    assert forall|done: int, e: crate::error::StoreError|
        !#[trigger] s.stopped(base, ops, done, e) by {
        if s.stopped(base, ops, done, e) {
            let trees = choose|trees: Seq<Id>| #[trigger]
                s.follows(ops.take(done), trees) && trees[0] == base && s.trees.contains_key(
                    trees[done],
                ) && s.refused(trees[done], ops[done], e);
            if done == 1 {
                assert(s.stepped(trees[0], ops.take(1)[0], trees[1]));
                law_put_then_read(s, Some(trees[0]), segments(path), content, trees[1]);
            }
        }
    }
    if s.applied(base, ops, result) {
        let trees = choose|trees: Seq<Id>| #[trigger]
            s.follows(ops, trees) && trees[0] == base && trees[ops.len() as int] == result;
        assert(s.stepped(trees[1], ops[1], trees[2]));
        assert(segments(path) =~= segments(path).subrange(0, segments(path).len() as int));
        law_taken_is_absent(s, trees[1], segments(path), result, segments(path));
    }
}

/// Once a commit on top of `parent` has moved a ref, the ref no longer
/// points at `parent`: of two attempts that both read the same parent, the
/// one that comes second finds the ref moved.
pub proof fn law_stale_parent_conflicts<Id>(
    before: StoreState<Id>,
    after: StoreState<Id>,
    name: Seq<char>,
    parent: Option<Id>,
    id: Id,
    record: HistoryRecord<Id>,
)
    requires
        after.wf(),
        record.parent == parent,
        after == before.with_node(id, record).with_ref(name, id),
    ensures
        after.head(name) == Some(id),
        after.head(name) != parent,
{
    assert(after.history.contains_key(id));
    assert(after.history[id] == record);
}

/// Putting the same bytes at the same path in the same tree gives the same
/// tree, whenever it is done: a second call, in the store as the first left
/// it or as it has grown since, gives the id that the first gave.
pub proof fn law_same_put_same_tree<Id>(
    s: StoreState<Id>,
    t: StoreState<Id>,
    base: Id,
    path: PathSpec,
    content: Seq<u8>,
    first: Id,
    second: Id,
)
    requires
        s.wf(),
        t.wf(),
        s.within(t),
        s.trees.contains_key(base),
        s.grafted(Some(base), path, content, first),
        t.grafted(Some(base), path, content, second),
    ensures
        first == second,
{
    crate::change::lemma_grafted_grows(s, t, Some(base), path, content, first);
    lemma_grafted_unique(t, Some(base), path, content, first, second);
}

/// A batch that was recorded has moved the ref: the ref points at the new
/// node, whose parent is what the ref pointed at before, none on the first
/// commit, and the ref no longer points there. An attempt that still holds
/// the old value as its parent finds the ref moved.
pub proof fn law_recorded_moves_the_ref<Id>(
    before: StoreState<Id>,
    after: StoreState<Id>,
    name: Seq<char>,
    info: CommitText,
    timestamp: i64,
    ops: Seq<TreeOp>,
    id: Id,
)
    requires
        after.wf(),
        before.recorded(after, name, info, timestamp, ops, id),
    ensures
        after.head(name) == Some(id),
        after.history[id].parent == before.head(name),
        after.head(name) != before.head(name),
        before.head(name) is None ==> after.history[id].parent is None,
{
    assert(after.refs.contains_key(name));
    assert(after.history.contains_key(id));
}

/// After a batch whose last change puts a file at a path was recorded on a
/// ref, reading the path through the ref gives those bytes.
pub proof fn law_recorded_put_reads_back<Id>(
    before: StoreState<Id>,
    after: StoreState<Id>,
    name: Seq<char>,
    info: CommitText,
    timestamp: i64,
    ops: Seq<TreeOp>,
    id: Id,
    path: Seq<char>,
    content: Seq<u8>,
)
    requires
        before.recorded(after, name, info, timestamp, ops, id),
        ops.len() > 0,
        ops.last() == (TreeOp::Put { path, content }),
    ensures
        after.file_of(name, path) == Some(content),
{
    assert(after.refs.contains_key(name));
    let tree = after.history[id].tree;
    assert(after.tip(name) == Some(tree));
    let base = choose|base: Id| #[trigger]
        before.starts_from(after, name, base) && after.applied(base, ops, tree);
    law_last_put_reads_back(after, base, ops, tree, path, content);
    let trees = choose|trees: Seq<Id>| #[trigger]
        after.follows(ops, trees) && trees[0] == base && trees[ops.len() as int] == tree;
    let last = ops.len() - 1;
    assert(after.trees.contains_key(trees[last]) && after.stepped(
        trees[last],
        ops[last],
        trees[last + 1],
    ));
}

/// After a batch that puts a file at a path and removes the same path was
/// recorded on a ref, reading the path through the ref finds nothing.
pub proof fn law_recorded_removal_wins<Id>(
    before: StoreState<Id>,
    after: StoreState<Id>,
    name: Seq<char>,
    info: CommitText,
    timestamp: i64,
    id: Id,
    path: Seq<char>,
    content: Seq<u8>,
)
    requires
        before.recorded(after, name, info, timestamp, put_then_take(path, content), id),
    ensures
        after.file_of(name, path) is None,
        after.read_error(name, path) == crate::error::StoreError::NotFound,
{
    let ops = put_then_take(path, content);
    assert(after.refs.contains_key(name));
    let tree = after.history[id].tree;
    assert(after.tip(name) == Some(tree));
    let base = choose|base: Id| #[trigger]
        before.starts_from(after, name, base) && after.applied(base, ops, tree);
    let trees = choose|trees: Seq<Id>| #[trigger]
        after.follows(ops, trees) && trees[0] == base && trees[ops.len() as int] == tree;
    assert(after.trees.contains_key(trees[0]) && after.stepped(trees[0], ops[0], trees[1]));
    law_removal_wins(after, base, path, content, tree);
}

} // verus!
