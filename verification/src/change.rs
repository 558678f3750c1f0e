//! What a change makes of a tree, stated on the contents of the store, and
//! why such statements survive when the store grows.

use crate::entry::{EntryKind, Link, TreeSpec};
use crate::path::PathSpec;
use crate::reader::dir_link;
use crate::store::StoreState;
use vstd::prelude::*;

verus! {

impl<Id> StoreState<Id> {
    /// `dir` is no directory at all, or a tree of the store.
    pub open spec fn known(self, dir: Option<Id>) -> bool {
        dir matches Some(d) ==> self.trees.contains_key(d)
    }

    /// The entries of the directory `dir`; none where there is no directory.
    pub open spec fn entries_of(self, dir: Option<Id>) -> TreeSpec<Id> {
        match dir {
            Some(d) => if self.trees.contains_key(d) {
                self.trees[d]
            } else {
                Map::empty()
            },
            None => Map::empty(),
        }
    }

    /// The directory that `name` is bound to in `dir`, if it is bound to one.
    pub open spec fn subdir(self, dir: Option<Id>, name: Seq<char>) -> Option<Id> {
        let entries = self.entries_of(dir);
        if entries.contains_key(name) && entries[name].kind == EntryKind::Directory {
            Some(entries[name].target)
        } else {
            None
        }
    }

    /// `result` is what the directory `dir` becomes when a file with the bytes
    /// `content` is put at `path` below it: a tree with the entries of `dir`,
    /// but for the first name of the path. That name is bound to the file
    /// where the path ends there, and else to a directory that is, in the
    /// same way, what the directory of that name in `dir` becomes with the
    /// rest of the path. Where `dir` has no directory of that name, the new
    /// directory starts empty.
    pub open spec fn grafted(
        self,
        dir: Option<Id>,
        path: PathSpec,
        content: Seq<u8>,
        result: Id,
    ) -> bool
        decreases path.len(),
    {
        &&& path.len() > 0
        &&& self.trees.contains_key(result)
        &&& self.trees[result].contains_key(path[0])
        &&& self.trees[result] == self.entries_of(dir).insert(path[0], self.trees[result][path[0]])
        &&& {
            let link = self.trees[result][path[0]];
            if path.len() == 1 {
                &&& link.kind == EntryKind::File
                &&& self.blobs.contains_key(link.target)
                &&& self.blobs[link.target] == content
            } else {
                &&& link.kind == EntryKind::Directory
                &&& self.grafted(
                    self.subdir(dir, path[0]),
                    path.drop_first(),
                    content,
                    link.target,
                )
            }
        }
    }

    /// Taking what `path` leads to out of the directory `dir` leaves `dir`
    /// without an entry: `dir` holds nothing but the first name of the path,
    /// and where the path goes on, the directory of that name is left without
    /// an entry in the same way.
    pub open spec fn emptied(self, dir: Id, path: PathSpec) -> bool
        decreases path.len(),
    {
        &&& path.len() > 0
        &&& self.entries_of(Some(dir)).remove(path[0]) == Map::<Seq<char>, Link<Id>>::empty()
        &&& path.len() > 1 ==> match self.subdir(Some(dir), path[0]) {
            Some(d) => self.emptied(d, path.drop_first()),
            None => false,
        }
    }

    /// `result` is what the directory `dir` becomes when what `path` leads to
    /// is taken out of it. Where the path ends at its first name, or the
    /// directory of that name would be left without an entry, `result` has
    /// the entries of `dir` without that name. Else it has the entries of
    /// `dir` with that name bound to what the directory of that name becomes
    /// without the rest of the path.
    pub open spec fn pruned(self, dir: Id, path: PathSpec, result: Id) -> bool
        decreases path.len(),
    {
        &&& path.len() > 0
        &&& self.trees.contains_key(result)
        &&& if path.len() == 1 {
            self.trees[result] == self.entries_of(Some(dir)).remove(path[0])
        } else {
            match self.subdir(Some(dir), path[0]) {
                Some(d) => if self.emptied(d, path.drop_first()) {
                    self.trees[result] == self.entries_of(Some(dir)).remove(path[0])
                } else {
                    let link = self.trees[result][path[0]];
                    &&& self.trees[result].contains_key(path[0])
                    &&& link.kind == EntryKind::Directory
                    &&& self.trees[result] == self.entries_of(Some(dir)).insert(path[0], link)
                    &&& self.pruned(d, path.drop_first(), link.target)
                },
                None => false,
            }
        }
    }

    /// The store has grown from `self` to `later`: every object is kept, and
    /// the refs are the same.
    pub open spec fn grown_to(self, later: Self) -> bool {
        self.within(later) && later.refs == self.refs
    }

    /// `tree` is one of the directories that `path` passes through in the
    /// tree `root`, the root itself included.
    pub open spec fn on_path(self, root: Id, path: PathSpec, tree: Id) -> bool {
        exists|k: int|
            0 <= k < path.len() && #[trigger] self.entry_at(root, path.take(k)) == Some(
                dir_link(tree),
            )
    }

    /// All that `later` holds and `self` does not are the objects that putting
    /// a file makes: blobs with the bytes `content`, and trees that are
    /// directories on `path` in the tree `root`.
    pub open spec fn put_adds(
        self,
        later: Self,
        root: Id,
        path: PathSpec,
        content: Seq<u8>,
    ) -> bool {
        &&& later.history == self.history
        &&& forall|b: Id| #[trigger]
            later.blobs.contains_key(b) && !self.blobs.contains_key(b) ==> later.blobs[b]
                == content
        &&& forall|t: Id| #[trigger]
            later.trees.contains_key(t) && !self.trees.contains_key(t) ==> later.on_path(
                root,
                path,
                t,
            )
    }

    /// All that `later` holds and `self` does not are the objects that taking
    /// a path out makes: trees that are directories on `path` in the tree
    /// `root`, none of them without an entry unless it is the root.
    pub open spec fn take_adds(self, later: Self, root: Id, path: PathSpec) -> bool {
        &&& later.history == self.history
        &&& later.blobs == self.blobs
        &&& forall|t: Id| #[trigger]
            later.trees.contains_key(t) && !self.trees.contains_key(t) ==> later.on_path(
                root,
                path,
                t,
            ) && (t == root || later.trees[t] != Map::<Seq<char>, Link<Id>>::empty())
    }
}

/// The tree at place `i` of `made` binds the name at place `from + i` of
/// `path` to the next tree of `made`, as a directory.
pub open spec fn linked<Id>(
    s: StoreState<Id>,
    path: PathSpec,
    from: int,
    made: Seq<Id>,
    i: int,
) -> bool {
    &&& s.trees.contains_key(made[i])
    &&& s.trees[made[i]].contains_key(path[from + i])
    &&& s.trees[made[i]][path[from + i]] == dir_link(made[i + 1])
}

/// `made` are trees of the store of which each binds its name of `path`,
/// counted from the place `from`, to the next as a directory.
pub open spec fn chained<Id>(
    s: StoreState<Id>,
    path: PathSpec,
    from: int,
    made: Seq<Id>,
) -> bool {
    &&& 0 <= from
    &&& from + made.len() <= path.len()
    &&& made.len() > 0 ==> s.trees.contains_key(made.last())
    &&& forall|i: int| 0 <= i < made.len() - 1 ==> #[trigger] linked(s, path, from, made, i)
}

/// A chain stays one when the store grows.
pub proof fn lemma_chained_grows<Id>(
    s: StoreState<Id>,
    t: StoreState<Id>,
    path: PathSpec,
    from: int,
    made: Seq<Id>,
)
    requires
        s.within(t),
        chained(s, path, from, made),
    ensures
        chained(t, path, from, made),
{
    if made.len() > 0 {
        assert(s.trees.dom().contains(made.last()));
    }
    assert forall|i: int| 0 <= i < made.len() - 1 implies #[trigger] linked(
        t,
        path,
        from,
        made,
        i,
    ) by {
        assert(linked(s, path, from, made, i));
        assert(s.trees.dom().contains(made[i]));
    }
}

/// One more tree at the front of a chain.
pub proof fn lemma_chained_more<Id>(
    s: StoreState<Id>,
    path: PathSpec,
    from: int,
    made: Seq<Id>,
    top: Id,
)
    requires
        0 < from,
        chained(s, path, from, made),
        s.trees.contains_key(top),
        made.len() > 0 ==> s.trees[top].contains_key(path[from - 1]) && s.trees[top][path[from
            - 1]] == dir_link(made[0]),
    ensures
        chained(s, path, from - 1, seq![top] + made),
{
    let more = seq![top] + made;
    if made.len() > 0 {
        assert(more.last() == made.last());
    }
    assert forall|i: int| 0 <= i < more.len() - 1 implies #[trigger] linked(
        s,
        path,
        from - 1,
        more,
        i,
    ) by {
        assert(more[i + 1] == made[i]);
        if i > 0 {
            assert(more[i] == made[i - 1]);
            assert(linked(s, path, from, made, i - 1));
        }
    }
}

/// The trees of a chain that starts at the root are the directories that the
/// path passes through.
pub proof fn lemma_chained_on_path<Id>(s: StoreState<Id>, path: PathSpec, made: Seq<Id>, k: int)
    requires
        chained(s, path, 0, made),
        0 <= k < made.len(),
    ensures
        s.entry_at(made[0], path.take(k)) == Some(dir_link(made[k])),
        s.on_path(made[0], path, made[k]),
{
    lemma_chained_reaches(s, path, made, 0, k);
    assert(path.skip(0) =~= path);
}

/// Following the next `k` names from a tree of a chain leads to the tree `k` places on.
proof fn lemma_chained_reaches<Id>(
    s: StoreState<Id>,
    path: PathSpec,
    made: Seq<Id>,
    a: int,
    k: int,
)
    requires
        chained(s, path, 0, made),
        0 <= a,
        0 <= k,
        a + k < made.len(),
    ensures
        s.descend(dir_link(made[a]), path.skip(a).take(k)) == Some(dir_link(made[a + k])),
    decreases k,
{
    let rest = path.skip(a).take(k);
    if k > 0 {
        lemma_chained_reaches(s, path, made, a + 1, k - 1);
        assert(rest[0] == path[a]);
        assert(rest.drop_first() =~= path.skip(a + 1).take(k - 1));
        assert(linked(s, path, 0, made, a));
    }
}

/// In a store that has grown, a known directory has the entries and the
/// subdirectories that it had, and its subdirectories were known before.
pub proof fn lemma_dir_stable<Id>(s: StoreState<Id>, t: StoreState<Id>, dir: Option<Id>)
    requires
        s.wf(),
        s.within(t),
        s.known(dir),
    ensures
        t.known(dir),
        t.entries_of(dir) == s.entries_of(dir),
        forall|name: Seq<char>| #[trigger] t.subdir(dir, name) == s.subdir(dir, name),
        forall|name: Seq<char>| s.known(#[trigger] s.subdir(dir, name)),
{
    assert forall|name: Seq<char>| s.known(#[trigger] s.subdir(dir, name)) by {
        if s.subdir(dir, name) is Some {
            let d = dir->0;
            assert(s.trees.contains_key(d));
            assert(s.tree_ok(s.trees[d]));
            assert(s.trees[d].contains_key(name));
            assert(s.link_ok(s.trees[d][name]));
        }
    }
    match dir {
        Some(d) => {
            assert(s.trees.dom().contains(d));
            assert(t.trees.contains_key(d) && t.trees[d] == s.trees[d]);
        },
        None => {},
    }
}

/// What was grafted stays grafted when the store grows.
pub proof fn lemma_grafted_grows<Id>(
    s: StoreState<Id>,
    t: StoreState<Id>,
    dir: Option<Id>,
    path: PathSpec,
    content: Seq<u8>,
    result: Id,
)
    requires
        s.wf(),
        s.within(t),
        s.known(dir),
        s.grafted(dir, path, content, result),
    ensures
        t.grafted(dir, path, content, result),
    decreases path.len(),
{
    lemma_dir_stable(s, t, dir);
    assert(s.trees.dom().contains(result));
    assert(t.trees.contains_key(result) && t.trees[result] == s.trees[result]);
    let link = s.trees[result][path[0]];
    if path.len() == 1 {
        assert(s.blobs.dom().contains(link.target));
        assert(t.blobs.contains_key(link.target) && t.blobs[link.target] == s.blobs[link.target]);
    } else {
        assert(t.subdir(dir, path[0]) == s.subdir(dir, path[0]));
        assert(s.known(s.subdir(dir, path[0])));
        lemma_grafted_grows(s, t, s.subdir(dir, path[0]), path.drop_first(), content, link.target);
    }
}

/// Whether a directory would be left without an entry does not change when the store grows.
pub proof fn lemma_emptied_stable<Id>(
    s: StoreState<Id>,
    t: StoreState<Id>,
    dir: Id,
    path: PathSpec,
)
    requires
        s.wf(),
        s.within(t),
        s.trees.contains_key(dir),
    ensures
        t.emptied(dir, path) == s.emptied(dir, path),
    decreases path.len(),
{
    lemma_dir_stable(s, t, Some(dir));
    if path.len() > 1 {
        assert(t.subdir(Some(dir), path[0]) == s.subdir(Some(dir), path[0]));
        assert(s.known(s.subdir(Some(dir), path[0])));
        match s.subdir(Some(dir), path[0]) {
            Some(d) => {
                lemma_emptied_stable(s, t, d, path.drop_first());
            },
            None => {},
        }
    }
}

/// What was pruned stays pruned when the store grows.
pub proof fn lemma_pruned_grows<Id>(
    s: StoreState<Id>,
    t: StoreState<Id>,
    dir: Id,
    path: PathSpec,
    result: Id,
)
    requires
        s.wf(),
        s.within(t),
        s.trees.contains_key(dir),
        s.pruned(dir, path, result),
    ensures
        t.pruned(dir, path, result),
    decreases path.len(),
{
    lemma_dir_stable(s, t, Some(dir));
    assert(s.trees.dom().contains(result));
    assert(t.trees.contains_key(result) && t.trees[result] == s.trees[result]);
    if path.len() > 1 {
        assert(t.subdir(Some(dir), path[0]) == s.subdir(Some(dir), path[0]));
        assert(s.known(s.subdir(Some(dir), path[0])));
        match s.subdir(Some(dir), path[0]) {
            Some(d) => {
                lemma_emptied_stable(s, t, d, path.drop_first());
                if !s.emptied(d, path.drop_first()) {
                    lemma_pruned_grows(
                        s,
                        t,
                        d,
                        path.drop_first(),
                        s.trees[result][path[0]].target,
                    );
                }
            },
            None => {},
        }
    }
}

/// What is kept twice over is kept.
pub proof fn lemma_within_twice<Id>(a: StoreState<Id>, b: StoreState<Id>, c: StoreState<Id>)
    requires
        a.within(b),
        b.within(c),
    ensures
        a.within(c),
{
    assert forall|k: Id| a.blobs.dom().contains(k) implies #[trigger] c.blobs.dom().contains(k)
        && c.blobs[k] == a.blobs[k] by {
        assert(b.blobs.dom().contains(k));
    }
    assert forall|k: Id| a.trees.dom().contains(k) implies #[trigger] c.trees.dom().contains(k)
        && c.trees[k] == a.trees[k] by {
        assert(b.trees.dom().contains(k));
    }
    assert forall|k: Id| a.history.dom().contains(k) implies #[trigger] c.history.dom().contains(
        k,
    ) && c.history[k] == a.history[k] by {
        assert(b.history.dom().contains(k));
    }
}

/// Growth is transitive.
pub proof fn lemma_grown_twice<Id>(a: StoreState<Id>, b: StoreState<Id>, c: StoreState<Id>)
    requires
        a.grown_to(b),
        b.grown_to(c),
    ensures
        a.grown_to(c),
{
    lemma_within_twice(a, b, c);
}

/// The directories that a path passes through: `dirs[0]` is `base`, and each
/// next one is the directory that the next name is bound to, if there is one.
pub open spec fn walks<Id>(
    s: StoreState<Id>,
    base: Option<Id>,
    path: PathSpec,
    dirs: Seq<Option<Id>>,
) -> bool {
    &&& dirs.len() > 0
    &&& dirs.len() <= path.len()
    &&& dirs[0] == base
    &&& forall|k: int| 0 <= k < dirs.len() ==> s.known(#[trigger] dirs[k])
    &&& forall|k: int|
        0 <= k < dirs.len() - 1 ==> #[trigger] dirs[k + 1] == s.subdir(dirs[k], path[k])
}

/// What a walk says of its path from the place `i` on: the path leads on to
/// something just where the last directory of the walk holds the last name,
/// and then the directory at place `i` is there.
proof fn lemma_walk_from<Id>(
    s: StoreState<Id>,
    base: Option<Id>,
    path: PathSpec,
    dirs: Seq<Option<Id>>,
    i: int,
)
    requires
        walks(s, base, path, dirs),
        dirs.len() == path.len(),
        0 <= i < path.len(),
    ensures
        match dirs[i] {
            Some(d) => s.descend(dir_link(d), path.skip(i)) is Some == s.entries_of(
                dirs.last(),
            ).contains_key(path.last()),
            None => !s.entries_of(dirs.last()).contains_key(path.last()),
        },
    decreases path.len() - i,
{
    let rest = path.skip(i);
    assert(rest.len() == path.len() - i && rest[0] == path[i]);
    assert(rest.drop_first() =~= path.skip(i + 1));
    assert(s.known(dirs[i]));
    if i == path.len() - 1 {
        match dirs[i] {
            Some(d) => {
                if s.trees[d].contains_key(path[i]) {
                    let link = s.trees[d][path[i]];
                    assert(s.descend(link, rest.drop_first()) == Some(link));
                }
            },
            None => {},
        }
    } else {
        lemma_walk_from(s, base, path, dirs, i + 1);
        assert(dirs[i + 1] == s.subdir(dirs[i], path[i]));
        assert(path.skip(i + 1).len() > 0);
        match dirs[i] {
            Some(d) => {
                if s.trees[d].contains_key(path[i]) {
                    let link = s.trees[d][path[i]];
                    if link.kind == EntryKind::Directory {
                        assert(link == dir_link(link.target));
                    } else {
                        assert(s.descend(link, path.skip(i + 1)) is None);
                    }
                }
            },
            None => {},
        }
    }
}

/// A walk along the whole of a path finds what the path leads to just where
/// its last directory holds the last name; and then every directory of the
/// walk is there.
pub proof fn lemma_walk_finds<Id>(
    s: StoreState<Id>,
    base: Id,
    path: PathSpec,
    dirs: Seq<Option<Id>>,
)
    requires
        walks(s, Some(base), path, dirs),
        dirs.len() == path.len(),
    ensures
        s.entry_at(base, path) is Some == s.entries_of(dirs.last()).contains_key(path.last()),
        s.entry_at(base, path) is Some ==> forall|k: int|
            0 <= k < dirs.len() ==> (#[trigger] dirs[k]) is Some,
{
    lemma_walk_from(s, Some(base), path, dirs, 0);
    assert(path.skip(0) =~= path);
    if s.entry_at(base, path) is Some {
        assert forall|k: int| 0 <= k < dirs.len() implies (#[trigger] dirs[k]) is Some by {
            lemma_walk_from(s, Some(base), path, dirs, k);
        }
    }
}

} // verus!
