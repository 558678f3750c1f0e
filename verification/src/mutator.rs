//! The two changes to a tree: putting a file at a path, and taking a path out.

use crate::change::{
    chained, lemma_chained_grows, lemma_chained_more, lemma_chained_on_path, lemma_dir_stable,
    lemma_emptied_stable, lemma_grafted_grows, lemma_grown_twice, lemma_pruned_grows,
    lemma_walk_finds, walks,
};
use crate::entry::{EntryKind, EntrySet, Link};
use crate::error::StoreError;
use crate::laws::{law_put_then_read, law_taken_is_absent};
use crate::path::{name_views, names_entry, parse_path, segments, valid_path};
use crate::reader::lemma_skip_step;
use crate::store::{read_failure, ObjectStore};
use vstd::pervasive::unreached;
use vstd::prelude::*;

verus! {

/// Reads the directories that `names` passes through in the tree `base`,
/// one for each name: the root first, then the directory that each name but
/// the last is bound to. Where a name is bound to no directory, the
/// directories from there on read as empty.
fn read_dirs<S: ObjectStore>(store: &S, base: S::Id, names: &Vec<String>) -> (r: Result<
    (Vec<EntrySet<S::Id>>, Ghost<Seq<Option<S::Id>>>),
    StoreError,
>)
    requires
        store.inv(),
        names@.len() > 0,
    ensures
        match r {
            Ok((dirs, ids)) => {
                &&& store@.trees.contains_key(base)
                &&& dirs@.len() == names@.len()
                &&& ids@.len() == names@.len()
                &&& walks(store@, Some(base), name_views(names@), ids@)
                &&& forall|k: int|
                    0 <= k < dirs@.len() ==> (#[trigger] dirs@[k]).wf() && dirs@[k]@
                        == store@.entries_of(ids@[k])
            },
            Err(e) => read_failure(e, store@.trees.contains_key(base), store.reliable()),
        },
{
    let n = names.len();
    let ghost steps = name_views(names@);
    let ghost s0 = store@;
    proof {
        store.inv_gives_wf();
    }
    let root = match store.get_tree(base) {
        Ok(entries) => entries,
        Err(e) => {
            return Err(e);
        },
    };
    let mut dirs: Vec<EntrySet<S::Id>> = Vec::new();
    let ghost mut ids: Seq<Option<S::Id>> = seq![Some(base)];
    dirs.push(root);
    let mut i: usize = 0;
    while i < n - 1
        invariant
            store.inv(),
            store@ == s0,
            s0.wf(),
            s0.trees.contains_key(base),
            n == names@.len(),
            steps == name_views(names@),
            0 <= i <= n - 1,
            dirs@.len() == i + 1,
            ids.len() == i + 1,
            walks(s0, Some(base), steps, ids),
            forall|k: int|
                0 <= k <= i ==> (#[trigger] dirs@[k]).wf() && dirs@[k]@ == s0.entries_of(ids[k]),
        decreases n - 1 - i,
    {
        let ghost here = ids[i as int];
        proof {
            lemma_dir_stable(s0, s0, here);
            assert(s0.known(s0.subdir(here, steps[i as int])));
            if s0.subdir(here, steps[i as int]) is Some {
                assert(s0.trees.contains_key(s0.subdir(here, steps[i as int])->0));
            }
        }
        let next = match dirs[i].get(&names[i]) {
            Some(link) => match link.kind {
                EntryKind::Directory => match store.get_tree(link.target) {
                    Ok(entries) => entries,
                    Err(e) => {
                        return Err(e);
                    },
                },
                EntryKind::File => EntrySet::new(),
            },
            None => EntrySet::new(),
        };
        proof {
            let before = ids;
            ids = ids.push(s0.subdir(here, steps[i as int]));
            assert forall|k: int| 0 <= k < ids.len() - 1 implies #[trigger] ids[k + 1]
                == s0.subdir(ids[k], steps[k]) by {
                if k < before.len() - 1 {
                    assert(before[k + 1] == s0.subdir(before[k], steps[k]));
                }
            }
            assert forall|k: int| 0 <= k < ids.len() implies s0.known(#[trigger] ids[k]) by {
                if k < before.len() {
                    assert(s0.known(before[k]));
                }
            }
        }
        dirs.push(next);
        i = i + 1;
    }
    Ok((dirs, Ghost(ids)))
}

/// Puts a file with the bytes `content` at `path` in the tree `base`, and
/// gives the id of the tree that results.
///
/// Every directory on the way is made where it is missing; a file that stands
/// where a directory is needed, or a directory that stands where the file
/// goes, gives way. Nothing else of the tree changes. The path needs at least
/// one segment.
pub fn upsert<S: ObjectStore>(store: &mut S, base: S::Id, path: &str, content: &[u8]) -> (r:
    Result<S::Id, StoreError>)
    requires
        old(store).inv(),
    ensures
        final(store).inv(),
        final(store).reliable() == old(store).reliable(),
        old(store)@.grown_to(final(store)@),
        final(store)@.history == old(store)@.history,
        forall|b: S::Id| #[trigger]
            final(store)@.blobs.contains_key(b) && !old(store)@.blobs.contains_key(b)
                ==> final(store)@.blobs[b] == content@,
        match r {
            Ok(id) => {
                &&& names_entry(path@)
                &&& old(store)@.trees.contains_key(base)
                &&& final(store)@.grafted(Some(base), segments(path@), content@, id)
                &&& final(store)@.file_at(id, segments(path@)) == Some(content@)
                &&& old(store)@.put_adds(final(store)@, id, segments(path@), content@)
            },
            Err(e) => if names_entry(path@) {
                read_failure(e, old(store)@.trees.contains_key(base), old(store).reliable())
            } else {
                e == StoreError::InvalidPath
            },
        },
{
    let names = match parse_path(path) {
        Ok(names) => names,
        Err(e) => {
            return Err(e);
        },
    };
    let n = names.len();
    if n == 0 {
        return Err(StoreError::InvalidPath);
    }
    let ghost steps = name_views(names@);
    let ghost s0 = store@;
    proof {
        store.inv_gives_wf();
    }
    let (mut dirs, walked) = match read_dirs(store, base, &names) {
        Ok(found) => found,
        Err(e) => {
            return Err(e);
        },
    };
    let ghost ids = walked@;
    let blob = match store.put_blob(content) {
        Ok(id) => id,
        Err(e) => {
            return Err(e);
        },
    };
    proof {
        store.inv_gives_wf();
    }
    let mut child = Link { kind: EntryKind::File, target: blob };
    let ghost mut made: Seq<S::Id> = Seq::empty();
    let mut j: usize = n;
    while j > 0
        invariant
            store.inv(),
            store@.wf(),
            made.len() == n - j,
            j < n ==> made[0] == child.target,
            chained(store@, steps, j as int, made),
            store@.history == s0.history,
            forall|b: S::Id| #[trigger]
                store@.blobs.contains_key(b) && !s0.blobs.contains_key(b) ==> store@.blobs[b]
                    == content@,
            forall|t: S::Id| #[trigger]
                store@.trees.contains_key(t) && !s0.trees.contains_key(t) ==> made.contains(t),
            store.reliable() == old(store).reliable(),
            s0 == old(store)@,
            s0.wf(),
            s0.grown_to(store@),
            s0.trees.contains_key(base),
            valid_path(path@),
            n == names@.len(),
            steps == name_views(names@),
            steps == segments(path@),
            0 <= j <= n,
            dirs@.len() == j,
            ids.len() == n,
            walks(s0, Some(base), steps, ids),
            forall|k: int|
                0 <= k < j ==> (#[trigger] dirs@[k]).wf() && dirs@[k]@ == s0.entries_of(ids[k]),
            store@.link_ok(child),
            j == n ==> child.kind == EntryKind::File && store@.blobs[child.target] == content@,
            j < n ==> child.kind == EntryKind::Directory && store@.grafted(
                ids[j as int],
                steps.skip(j as int),
                content@,
                child.target,
            ),
        decreases j,
    {
        j = j - 1;
        let ghost before = store@;
        let ghost here = ids[j as int];
        let mut entries = match dirs.pop() {
            Some(entries) => entries,
            None => unreached(),
        };
        entries.insert(names[j].clone(), child.kind, child.target);
        proof {
            lemma_skip_step(steps, j as int);
            lemma_dir_stable(s0, before, here);
            assert(s0.known(here));
            assert(before.tree_ok(entries@)) by {
                assert forall|name: Seq<char>| #[trigger] entries@.contains_key(name) implies
                    before.link_ok(entries@[name]) by {
                    if name != steps[j as int] {
                        let d = here->0;
                        assert(before.trees.contains_key(d));
                        assert(before.tree_ok(before.trees[d]));
                        assert(before.trees[d].contains_key(name));
                    }
                }
            }
        }
        let id = match store.put_tree(entries) {
            Ok(id) => id,
            Err(e) => {
                return Err(e);
            },
        };
        proof {
            store.inv_gives_wf();
            let after = store@;
            lemma_grown_twice(s0, before, after);
            lemma_dir_stable(s0, after, here);
            assert(after.trees[id] == entries@);
            assert(after.trees[id] =~= after.entries_of(here).insert(
                steps[j as int],
                after.trees[id][steps[j as int]],
            ));
            if j + 1 < n {
                assert(ids[j + 1] == s0.subdir(ids[j as int], steps[j as int]));
                assert(s0.known(ids[j + 1]));
                lemma_dir_stable(s0, before, ids[j + 1]);
                lemma_grafted_grows(
                    before,
                    after,
                    ids[j + 1],
                    steps.skip(j + 1),
                    content@,
                    child.target,
                );
            } else {
                assert(before.blobs.dom().contains(child.target));
            }
            lemma_chained_grows(before, after, steps, j + 1, made);
            lemma_chained_more(after, steps, j + 1, made, id);
            let more = seq![id] + made;
            assert forall|t: S::Id| #[trigger]
                after.trees.contains_key(t) && !s0.trees.contains_key(t) implies more.contains(
                t,
            ) by {
                if t == id {
                    assert(more[0] == t);
                } else {
                    assert(before.trees.contains_key(t));
                    let i = choose|i: int| 0 <= i < made.len() && made[i] == t;
                    assert(more[i + 1] == t);
                }
            }
            made = more;
        }
        child = Link { kind: EntryKind::Directory, target: id };
    }
    proof {
        assert(steps.skip(0) =~= steps);
        law_put_then_read(store@, Some(base), steps, content@, child.target);
        assert forall|t: S::Id| #[trigger]
            store@.trees.contains_key(t) && !s0.trees.contains_key(t) implies store@.on_path(
            child.target,
            steps,
            t,
        ) by {
            let i = choose|i: int| 0 <= i < made.len() && made[i] == t;
            lemma_chained_on_path(store@, steps, made, i);
        }
    }
    Ok(child.target)
}

/// Takes what `path` leads to out of the tree `base`, a file or a whole
/// directory, and gives the id of the tree that results.
///
/// A directory that is left without an entry goes too, and so on upwards;
/// only the root may end up empty. Nothing else of the tree changes. Fails
/// with `InvalidPath` on a malformed path or one without a segment, and with
/// `NotFound` where the path leads to nothing.
pub fn remove<S: ObjectStore>(store: &mut S, base: S::Id, path: &str) -> (r: Result<
    S::Id,
    StoreError,
>)
    requires
        old(store).inv(),
    ensures
        final(store).inv(),
        final(store).reliable() == old(store).reliable(),
        old(store)@.grown_to(final(store)@),
        final(store)@.history == old(store)@.history,
        final(store)@.blobs == old(store)@.blobs,
        match r {
            Ok(id) => {
                &&& names_entry(path@)
                &&& old(store)@.entry_at(base, segments(path@)) is Some
                &&& final(store)@.pruned(base, segments(path@), id)
                &&& final(store)@.entry_at(id, segments(path@)) is None
                &&& old(store)@.take_adds(final(store)@, id, segments(path@))
            },
            Err(e) => if names_entry(path@) {
                read_failure(
                    e,
                    old(store)@.entry_at(base, segments(path@)) is Some,
                    old(store).reliable(),
                )
            } else {
                e == StoreError::InvalidPath
            },
        },
{
    let names = match parse_path(path) {
        Ok(names) => names,
        Err(e) => {
            return Err(e);
        },
    };
    let n = names.len();
    if n == 0 {
        return Err(StoreError::InvalidPath);
    }
    let ghost steps = name_views(names@);
    let ghost s0 = store@;
    proof {
        store.inv_gives_wf();
        lemma_skip_step(steps, 0);
        assert(steps.skip(0) =~= steps);
    }
    let (mut dirs, walked) = match read_dirs(store, base, &names) {
        Ok(found) => found,
        Err(e) => {
            proof {
                if !s0.trees.contains_key(base) {
                    assert(s0.entry_at(base, steps) is None);
                }
            }
            return Err(e);
        },
    };
    let ghost ids = walked@;
    let mut j: usize = n - 1;
    let mut entries = match dirs.pop() {
        Some(entries) => entries,
        None => unreached(),
    };
    proof {
        lemma_skip_step(steps, j as int);
        assert(s0.known(ids[j as int]));
    }
    let found = entries.remove(&names[j]);
    proof {
        assert(steps.last() == steps[j as int]);
        assert(ids.last() == ids[j as int]);
        lemma_walk_finds(s0, base, steps, ids);
        assert(found == s0.entry_at(base, steps) is Some);
    }
    if !found {
        return Err(StoreError::NotFound);
    }
    while j > 0 && entries.is_empty()
        invariant
            s0.wf(),
            n == names@.len(),
            steps == name_views(names@),
            0 <= j <= n - 1,
            dirs@.len() == j,
            ids.len() == n,
            walks(s0, Some(base), steps, ids),
            forall|k: int| 0 <= k < n ==> (#[trigger] ids[k]) is Some,
            forall|k: int|
                0 <= k < j ==> (#[trigger] dirs@[k]).wf() && dirs@[k]@ == s0.entries_of(ids[k]),
            entries.wf(),
            entries@ == s0.entries_of(ids[j as int]).remove(steps[j as int]),
            j < n - 1 ==> s0.emptied(ids[j + 1]->0, steps.skip(j + 1)),
        decreases j,
    {
        proof {
            lemma_skip_step(steps, j as int);
            assert(s0.known(ids[j as int]));
            assert(ids[j as int] is Some);
            if j < n - 1 {
                assert(ids[j + 1] == s0.subdir(ids[j as int], steps[j as int]));
                assert(ids[j + 1] is Some);
            }
            assert(s0.emptied(ids[j as int]->0, steps.skip(j as int)));
        }
        j = j - 1;
        entries = match dirs.pop() {
            Some(entries) => entries,
            None => unreached(),
        };
        entries.remove(&names[j]);
    }
    let ghost before = store@;
    let ghost kept = entries@;
    proof {
        assert(s0.known(ids[j as int]));
        assert(ids[j as int] is Some);
        assert(before.tree_ok(entries@)) by {
            let d = ids[j as int]->0;
            assert(before.tree_ok(before.trees[d]));
            assert forall|name: Seq<char>| #[trigger] entries@.contains_key(name) implies
                before.link_ok(entries@[name]) by {
                assert(before.trees[d].contains_key(name));
            }
        }
    }
    let mut id = match store.put_tree(entries) {
        Ok(id) => id,
        Err(e) => {
            return Err(e);
        },
    };
    proof {
        store.inv_gives_wf();
        let after = store@;
        let d = ids[j as int]->0;
        lemma_skip_step(steps, j as int);
        lemma_dir_stable(s0, after, Some(d));
        if j < n - 1 {
            assert(ids[j + 1] == s0.subdir(ids[j as int], steps[j as int]));
            assert(ids[j + 1] is Some);
            assert(s0.known(ids[j + 1]));
            lemma_emptied_stable(s0, after, ids[j + 1]->0, steps.skip(j + 1));
        }
        assert(after.pruned(d, steps.skip(j as int), id));
        lemma_emptied_stable(s0, after, d, steps.skip(j as int));
        assert(after.trees[id] == kept);
        if j > 0 {
            assert(kept != Map::<Seq<char>, Link<S::Id>>::empty());
            assert(!after.emptied(d, steps.skip(j as int)));
        }
    }
    let ghost mut made: Seq<S::Id> = seq![id];
    proof {
        assert(made[0] == id);
        assert forall|t: S::Id| #[trigger]
            store@.trees.contains_key(t) && !s0.trees.contains_key(t) implies made.contains(t) by {
            assert(t == id);
        }
    }
    while j > 0
        invariant
            store.inv(),
            store@.wf(),
            made.len() > 0,
            made[0] == id,
            chained(store@, steps, j as int, made),
            store@.history == s0.history,
            store@.blobs == s0.blobs,
            forall|t: S::Id| #[trigger]
                store@.trees.contains_key(t) && !s0.trees.contains_key(t) ==> made.contains(t)
                    && (j == 0 && t == id || store@.trees[t] != Map::<
                    Seq<char>,
                    Link<S::Id>,
                >::empty()),
            store.reliable() == old(store).reliable(),
            s0 == old(store)@,
            s0.wf(),
            s0.grown_to(store@),
            valid_path(path@),
            s0.entry_at(base, steps) is Some,
            n == names@.len(),
            steps == name_views(names@),
            steps == segments(path@),
            0 <= j <= n - 1,
            dirs@.len() == j,
            ids.len() == n,
            walks(s0, Some(base), steps, ids),
            forall|k: int| 0 <= k < n ==> (#[trigger] ids[k]) is Some,
            forall|k: int|
                0 <= k < j ==> (#[trigger] dirs@[k]).wf() && dirs@[k]@ == s0.entries_of(ids[k]),
            store@.trees.contains_key(id),
            store@.pruned(ids[j as int]->0, steps.skip(j as int), id),
            j > 0 ==> !store@.emptied(ids[j as int]->0, steps.skip(j as int)),
        decreases j,
    {
        let ghost below = ids[j as int]->0;
        j = j - 1;
        let ghost before = store@;
        let ghost here = ids[j as int]->0;
        let mut entries = match dirs.pop() {
            Some(entries) => entries,
            None => unreached(),
        };
        entries.insert(names[j].clone(), EntryKind::Directory, id);
        proof {
            lemma_skip_step(steps, j as int);
            assert(s0.known(ids[j as int]));
            assert(ids[j as int] is Some);
            assert(ids[j + 1] is Some);
            lemma_dir_stable(s0, before, Some(here));
            assert(before.tree_ok(entries@)) by {
                assert(before.tree_ok(before.trees[here]));
                assert forall|name: Seq<char>| #[trigger] entries@.contains_key(name) implies
                    before.link_ok(entries@[name]) by {
                    if name != steps[j as int] {
                        assert(before.trees[here].contains_key(name));
                    }
                }
            }
        }
        let up = match store.put_tree(entries) {
            Ok(up) => up,
            Err(e) => {
                return Err(e);
            },
        };
        proof {
            store.inv_gives_wf();
            let after = store@;
            lemma_grown_twice(s0, before, after);
            lemma_dir_stable(s0, after, Some(here));
            assert(ids[j + 1] == s0.subdir(ids[j as int], steps[j as int]));
            assert(s0.known(ids[j + 1]));
            lemma_dir_stable(s0, before, Some(below));
            lemma_emptied_stable(before, after, below, steps.skip(j + 1));
            lemma_pruned_grows(before, after, below, steps.skip(j + 1), id);
            assert(after.trees[up] == entries@);
            assert(after.trees[up] =~= after.entries_of(Some(here)).insert(
                steps[j as int],
                after.trees[up][steps[j as int]],
            ));
            assert(after.pruned(here, steps.skip(j as int), up));
            assert(!after.emptied(here, steps.skip(j as int)));
            lemma_chained_grows(before, after, steps, j + 1, made);
            lemma_chained_more(after, steps, j + 1, made, up);
            let more = seq![up] + made;
            assert(after.trees[up].contains_key(steps[j as int]));
            assert forall|t: S::Id| #[trigger]
                after.trees.contains_key(t) && !s0.trees.contains_key(t) implies more.contains(
                t,
            ) && after.trees[t] != Map::<Seq<char>, Link<S::Id>>::empty() by {
                if t == up {
                    assert(more[0] == t);
                } else {
                    assert(before.trees.dom().contains(t));
                    let i = choose|i: int| 0 <= i < made.len() && made[i] == t;
                    assert(more[i + 1] == t);
                }
            }
            made = more;
        }
        id = up;
    }
    proof {
        assert(steps.skip(0) =~= steps);
        assert(steps =~= steps.subrange(0, steps.len() as int));
        law_taken_is_absent(store@, base, steps, id, steps);
        assert forall|t: S::Id| #[trigger]
            store@.trees.contains_key(t) && !s0.trees.contains_key(t) implies store@.on_path(
            id,
            steps,
            t,
        ) by {
            let i = choose|i: int| 0 <= i < made.len() && made[i] == t;
            lemma_chained_on_path(store@, steps, made, i);
        }
    }
    Ok(id)
}

} // verus!
