//! The entries of one tree.

use vstd::prelude::*;
use vstd::string::*;

verus! {

/// What a tree entry points at.
#[derive(Clone, Copy, Debug, PartialEq, Eq, Structural)]
pub enum EntryKind {
    /// A blob.
    File,
    /// Another tree.
    Directory,
}

/// The kind and the id that a name is bound to inside a tree.
#[derive(Debug)]
pub struct Link<Id> {
    pub kind: EntryKind,
    pub target: Id,
}

impl<Id: Copy> Clone for Link<Id> {
    fn clone(&self) -> (r: Self)
        ensures
            r == *self,
    {
        *self
    }
}

impl<Id: Copy> Copy for Link<Id> {

}

/// One entry of a tree: a name, and what it is bound to.
#[derive(Debug)]
pub struct TreeEntry<Id> {
    pub name: String,
    pub kind: EntryKind,
    pub target: Id,
}

/// What a tree holds, as the model sees it: each name with its link.
pub type TreeSpec<Id> = Map<Seq<char>, Link<Id>>;

impl<Id> TreeEntry<Id> {
    /// What the entry's name is bound to.
    pub open spec fn link(&self) -> Link<Id> {
        Link { kind: self.kind, target: self.target }
    }
}

/// No two entries of `es` have the same name.
pub open spec fn unique_names<Id>(es: Seq<TreeEntry<Id>>) -> bool {
    forall|i: int, j: int|
        0 <= i < j < es.len() ==> (#[trigger] es[i]).name@ != (#[trigger] es[j]).name@
}

/// Some entry of `es` has the name `name`.
pub open spec fn has_name<Id>(es: Seq<TreeEntry<Id>>, name: Seq<char>) -> bool {
    exists|i: int| 0 <= i < es.len() && (#[trigger] es[i]).name@ == name
}

/// The place of an entry named `name` in `es`.
pub open spec fn place_of<Id>(es: Seq<TreeEntry<Id>>, name: Seq<char>) -> int {
    choose|i: int| 0 <= i < es.len() && (#[trigger] es[i]).name@ == name
}

/// The names of `es`, each with what it is bound to.
pub open spec fn links_of<Id>(es: Seq<TreeEntry<Id>>) -> TreeSpec<Id> {
    Map::new(|name: Seq<char>| has_name(es, name), |name: Seq<char>| es[place_of(es, name)].link())
}

/// With unique names, the entry at place `i` is the one that its name is bound to.
pub proof fn lemma_links_at<Id>(es: Seq<TreeEntry<Id>>, i: int)
    requires
        unique_names(es),
        0 <= i < es.len(),
    ensures
        links_of(es).contains_key(es[i].name@),
        links_of(es)[es[i].name@] == es[i].link(),
        place_of(es, es[i].name@) == i,
{
    let name = es[i].name@;
    assert(has_name(es, name));
    let p = place_of(es, name);
    if p < i {
        assert(es[p].name@ != es[i].name@);
    } else if i < p {
        assert(es[i].name@ != es[p].name@);
    }
}

/// The entries of one tree. Each name occurs once; the order of the entries
/// carries no meaning.
#[derive(Debug)]
pub struct EntrySet<Id> {
    pub entries: Vec<TreeEntry<Id>>,
}

impl<Id> View for EntrySet<Id> {
    type V = TreeSpec<Id>;

    open spec fn view(&self) -> TreeSpec<Id> {
        links_of(self.entries@)
    }
}

impl<Id: Copy> EntrySet<Id> {
    /// Each name occurs once.
    pub open spec fn wf(&self) -> bool {
        unique_names(self.entries@)
    }

    /// A set without entries.
    pub fn new() -> (r: Self)
        ensures
            r.wf(),
            r@ == Map::<Seq<char>, Link<Id>>::empty(),
            r.entries@.len() == 0,
    {
        let r = EntrySet { entries: Vec::new() };
        assert(r@ =~= Map::<Seq<char>, Link<Id>>::empty());
        r
    }

    /// The number of entries.
    pub fn len(&self) -> (r: usize)
        ensures
            r == self.entries@.len(),
    {
        self.entries.len()
    }

    /// Whether the set has no entry.
    pub fn is_empty(&self) -> (r: bool)
        ensures
            r == (self@ == Map::<Seq<char>, Link<Id>>::empty()),
            r == (self.entries@.len() == 0),
    {
        let r = self.entries.len() == 0;
        proof {
            if r {
                assert(self@ =~= Map::<Seq<char>, Link<Id>>::empty());
            } else {
                assert(has_name(self.entries@, self.entries@[0].name@));
                assert(self@.contains_key(self.entries@[0].name@));
            }
        }
        r
    }

    /// The place of the entry named `name`, if there is one.
    pub fn position(&self, name: &String) -> (r: Option<usize>)
        ensures
            match r {
                Some(i) => i < self.entries@.len() && self.entries@[i as int].name@ == name@,
                None => !has_name(self.entries@, name@),
            },
    {
        let mut i: usize = 0;
        while i < self.entries.len()
            invariant
                0 <= i <= self.entries@.len(),
                forall|j: int| 0 <= j < i ==> (#[trigger] self.entries@[j]).name@ != name@,
            decreases self.entries@.len() - i,
        {
            if self.entries[i].name == *name {
                return Some(i);
            }
            i = i + 1;
        }
        None
    }

    /// What `name` is bound to, if it is bound.
    pub fn get(&self, name: &String) -> (r: Option<Link<Id>>)
        requires
            self.wf(),
        ensures
            r == (if self@.contains_key(name@) {
                Some(self@[name@])
            } else {
                None
            }),
    {
        match self.position(name) {
            Some(i) => {
                proof {
                    lemma_links_at(self.entries@, i as int);
                }
                Some(Link { kind: self.entries[i].kind, target: self.entries[i].target })
            },
            None => None,
        }
    }

    /// Binds `name` to a link, in place of what it was bound to before, if anything.
    pub fn insert(&mut self, name: String, kind: EntryKind, target: Id)
        requires
            old(self).wf(),
        ensures
            final(self).wf(),
            final(self)@ == old(self)@.insert(name@, Link { kind, target }),
    {
        let ghost before = self.entries@;
        let ghost key = name@;
        let found = self.position(&name);
        let entry = TreeEntry { name, kind, target };
        match found {
            Some(i) => {
                self.entries[i] = entry;
                proof {
                    let after = self.entries@;
                    assert(after == before.update(i as int, entry));
                    assert forall|a: int, b: int| 0 <= a < b < after.len() implies (
                    #[trigger] after[a]).name@ != (#[trigger] after[b]).name@ by {
                        assert(before[a].name@ != before[b].name@);
                    }
                    assert forall|n: Seq<char>| has_name(after, n) == has_name(before, n) by {
                        if has_name(after, n) {
                            let p = place_of(after, n);
                            assert(before[p].name@ == n);
                        }
                        if has_name(before, n) {
                            let p = place_of(before, n);
                            assert(after[p].name@ == n);
                        }
                    }
                    lemma_links_at(before, i as int);
                    assert forall|n: Seq<char>| has_name(after, n) implies links_of(after)[n]
                        == links_of(before).insert(key, Link { kind, target })[n] by {
                        let p = place_of(after, n);
                        lemma_links_at(after, p);
                        if p != i {
                            assert(before[p].name@ == n);
                            lemma_links_at(before, p);
                        }
                    }
                    assert(links_of(after) =~= links_of(before).insert(key, Link { kind, target }));
                }
            },
            None => {
                self.entries.push(entry);
                proof {
                    let after = self.entries@;
                    assert(after == before.push(entry));
                    assert forall|a: int, b: int| 0 <= a < b < after.len() implies (
                    #[trigger] after[a]).name@ != (#[trigger] after[b]).name@ by {
                        if b < before.len() {
                            assert(before[a].name@ != before[b].name@);
                        } else {
                            assert(before[a].name@ != key);
                        }
                    }
                    assert forall|n: Seq<char>| has_name(after, n) == (has_name(before, n) || n
                        == key) by {
                        if has_name(after, n) {
                            let p = place_of(after, n);
                            if p < before.len() {
                                assert(before[p].name@ == n);
                            }
                        }
                        if has_name(before, n) {
                            let p = place_of(before, n);
                            assert(after[p].name@ == n);
                        }
                        if n == key {
                            assert(after[before.len() as int].name@ == n);
                        }
                    }
                    assert forall|n: Seq<char>| has_name(after, n) implies links_of(after)[n]
                        == links_of(before).insert(key, Link { kind, target })[n] by {
                        let p = place_of(after, n);
                        lemma_links_at(after, p);
                        if p < before.len() {
                            assert(before[p].name@ == n);
                            lemma_links_at(before, p);
                        }
                    }
                    assert(links_of(after) =~= links_of(before).insert(key, Link { kind, target }));
                }
            },
        }
    }

    /// Takes the entry named `name` out, and says whether there was one.
    pub fn remove(&mut self, name: &String) -> (r: bool)
        requires
            old(self).wf(),
        ensures
            final(self).wf(),
            final(self)@ == old(self)@.remove(name@),
            r == old(self)@.contains_key(name@),
    {
        let ghost before = self.entries@;
        match self.position(name) {
            Some(i) => {
                self.entries.remove(i);
                proof {
                    let after = self.entries@;
                    assert(after == before.remove(i as int));
                    assert forall|a: int, b: int| 0 <= a < b < after.len() implies (
                    #[trigger] after[a]).name@ != (#[trigger] after[b]).name@ by {
                        let a0 = if a < i { a } else { a + 1 };
                        let b0 = if b < i { b } else { b + 1 };
                        assert(before[a0].name@ != before[b0].name@);
                    }
                    lemma_links_at(before, i as int);
                    assert forall|n: Seq<char>| has_name(after, n) == (has_name(before, n) && n
                        != name@) by {
                        if has_name(after, n) {
                            let p = place_of(after, n);
                            let was = if p < i { p } else { p + 1 };
                            assert(before[was].name@ == n);
                            if was < i {
                                assert(before[was].name@ != before[i as int].name@);
                            } else {
                                assert(before[i as int].name@ != before[was].name@);
                            }
                        }
                        if has_name(before, n) && n != name@ {
                            let p = place_of(before, n);
                            let q = if p < i { p } else { p - 1 };
                            assert(after[q].name@ == n);
                        }
                    }
                    assert forall|n: Seq<char>| has_name(after, n) implies links_of(after)[n]
                        == links_of(before)[n] by {
                        let p = place_of(after, n);
                        lemma_links_at(after, p);
                        let was = if p < i { p } else { p + 1 };
                        assert(before[was].name@ == n);
                        lemma_links_at(before, was);
                    }
                    assert(links_of(after) =~= links_of(before).remove(name@));
                }
                true
            },
            None => {
                assert(links_of(before) =~= links_of(before).remove(name@));
                false
            },
        }
    }

    /// The names of the entries, in the order in which the set holds them.
    pub fn names(&self) -> (r: Vec<String>)
        ensures
            r@.len() == self.entries@.len(),
            forall|i: int| 0 <= i < r@.len() ==> (#[trigger] r@[i])@ == self.entries@[i].name@,
    {
        let mut out: Vec<String> = Vec::new();
        let mut i: usize = 0;
        while i < self.entries.len()
            invariant
                0 <= i <= self.entries@.len(),
                out@.len() == i,
                forall|j: int| 0 <= j < i ==> (#[trigger] out@[j])@ == self.entries@[j].name@,
            decreases self.entries@.len() - i,
        {
            out.push(self.entries[i].name.clone());
            i = i + 1;
        }
        out
    }

    /// A second set with the same entries in the same order.
    pub fn duplicate(&self) -> (r: Self)
        requires
            self.wf(),
        ensures
            r.entries@.len() == self.entries@.len(),
            forall|i: int|
                0 <= i < r.entries@.len() ==> (#[trigger] r.entries@[i]).name@
                    == self.entries@[i].name@ && r.entries@[i].link() == self.entries@[i].link(),
            r.wf(),
            r@ == self@,
    {
        let mut out: Vec<TreeEntry<Id>> = Vec::new();
        let mut i: usize = 0;
        while i < self.entries.len()
            invariant
                0 <= i <= self.entries@.len(),
                out@.len() == i,
                forall|j: int|
                    0 <= j < i ==> (#[trigger] out@[j]).name@ == self.entries@[j].name@
                        && out@[j].link() == self.entries@[j].link(),
            decreases self.entries@.len() - i,
        {
            let e = &self.entries[i];
            out.push(TreeEntry { name: e.name.clone(), kind: e.kind, target: e.target });
            i = i + 1;
        }
        let r = EntrySet { entries: out };
        proof {
            lemma_same_entries(self.entries@, r.entries@);
        }
        r
    }
}

/// Two sequences with the same names and links, place by place, are the same tree.
pub proof fn lemma_same_entries<Id>(a: Seq<TreeEntry<Id>>, b: Seq<TreeEntry<Id>>)
    requires
        unique_names(a),
        a.len() == b.len(),
        forall|i: int|
            0 <= i < a.len() ==> (#[trigger] b[i]).name@ == a[i].name@ && b[i].link()
                == a[i].link(),
    ensures
        unique_names(b),
        links_of(a) == links_of(b),
{
    assert forall|i: int, j: int| 0 <= i < j < b.len() implies (#[trigger] b[i]).name@ != (
    #[trigger] b[j]).name@ by {
        assert(a[i].name@ != a[j].name@);
    }
    assert forall|n: Seq<char>| has_name(a, n) == has_name(b, n) by {
        if has_name(a, n) {
            assert(b[place_of(a, n)].name@ == n);
        }
        if has_name(b, n) {
            assert(a[place_of(b, n)].name@ == n);
        }
    }
    assert forall|n: Seq<char>| has_name(a, n) implies links_of(a)[n] == links_of(b)[n] by {
        let p = place_of(a, n);
        assert(b[p].name@ == n);
        lemma_links_at(a, p);
        lemma_links_at(b, p);
    }
    assert(links_of(a) =~= links_of(b));
}

} // verus!
