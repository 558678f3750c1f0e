//! An object store in memory.

use crate::entry::{lemma_links_at, place_of, EntryKind, EntrySet, TreeSpec};
use crate::error::StoreError;
use crate::store::{HistoryNode, ObjectStore, StoreState};
use vstd::prelude::*;
use vstd::slice::slice_to_vec;

verus! {

/// A ref of the store in memory: a name and the history node it points at.
struct RefSlot {
    name: String,
    target: usize,
}

/// Some ref of `refs` has the name `name`.
spec fn has_ref(refs: Seq<RefSlot>, name: Seq<char>) -> bool {
    exists|i: int| 0 <= i < refs.len() && (#[trigger] refs[i]).name@ == name
}

/// The place of a ref named `name` in `refs`.
spec fn ref_place(refs: Seq<RefSlot>, name: Seq<char>) -> int {
    choose|i: int| 0 <= i < refs.len() && (#[trigger] refs[i]).name@ == name
}

/// No two refs of `refs` have the same name.
spec fn unique_refs(refs: Seq<RefSlot>) -> bool {
    forall|i: int, j: int|
        0 <= i < j < refs.len() ==> (#[trigger] refs[i]).name@ != (#[trigger] refs[j]).name@
}

/// The names of `refs`, each with the id it points at.
spec fn refs_of(refs: Seq<RefSlot>) -> Map<Seq<char>, usize> {
    Map::new(
        |name: Seq<char>| has_ref(refs, name),
        |name: Seq<char>| refs[ref_place(refs, name)].target,
    )
}

/// With unique names, the ref at place `i` is the one that its name stands for.
proof fn lemma_ref_at(refs: Seq<RefSlot>, i: int)
    requires
        unique_refs(refs),
        0 <= i < refs.len(),
    ensures
        has_ref(refs, refs[i].name@),
        ref_place(refs, refs[i].name@) == i,
        refs_of(refs)[refs[i].name@] == refs[i].target,
{
    let p = ref_place(refs, refs[i].name@);
    if p < i {
        assert(refs[p].name@ != refs[i].name@);
    } else if i < p {
        assert(refs[i].name@ != refs[p].name@);
    }
}

/// Every link of `tree` points below the given numbers of blobs and of trees.
spec fn links_below(tree: TreeSpec<usize>, blobs: nat, trees: nat) -> bool {
    forall|name: Seq<char>| #[trigger]
        tree.contains_key(name) ==> match tree[name].kind {
            EntryKind::File => tree[name].target < blobs,
            EntryKind::Directory => tree[name].target < trees,
        }
}

/// An object store that lives in memory. An object's id is its place in the
/// order in which the store first saw each content. It never fails.
pub struct MemStore {
    blobs: Vec<Vec<u8>>,
    trees: Vec<EntrySet<usize>>,
    history: Vec<HistoryNode<usize>>,
    refs: Vec<RefSlot>,
}

/// Whether the two hold the same bytes.
fn same_bytes(a: &Vec<u8>, b: &[u8]) -> (r: bool)
    ensures
        r == (a@ == b@),
{
    if a.len() != b.len() {
        return false;
    }
    let mut i: usize = 0;
    while i < a.len()
        invariant
            a@.len() == b@.len(),
            0 <= i <= a@.len(),
            forall|k: int| 0 <= k < i ==> a@[k] == b@[k],
        decreases a@.len() - i,
    {
        if a[i] != b[i] {
            return false;
        }
        i = i + 1;
    }
    assert(a@ =~= b@);
    true
}

/// Whether every entry of `a` is an entry of `b` too.
fn contained(a: &EntrySet<usize>, b: &EntrySet<usize>) -> (r: bool)
    requires
        a.wf(),
        b.wf(),
    ensures
        r == a@.submap_of(b@),
{
    let mut i: usize = 0;
    while i < a.len()
        invariant
            a.wf(),
            b.wf(),
            0 <= i <= a.entries@.len(),
            forall|k: int|
                0 <= k < i ==> b@.contains_key((#[trigger] a.entries@[k]).name@)
                    && b@[a.entries@[k].name@] == a.entries@[k].link(),
        decreases a.entries@.len() - i,
    {
        let e = &a.entries[i];
        proof {
            lemma_links_at(a.entries@, i as int);
        }
        let same = match b.get(&e.name) {
            Some(link) => link.kind == e.kind && link.target == e.target,
            None => false,
        };
        if !same {
            assert(a@.dom().contains(e.name@));
            return false;
        }
        i = i + 1;
    }
    proof {
        assert forall|name: Seq<char>| #[trigger] a@.dom().contains(name) implies b@.dom().contains(
            name,
        ) && a@[name] == b@[name] by {
            let p = place_of(a.entries@, name);
            lemma_links_at(a.entries@, p);
        }
    }
    true
}

/// Whether the two sets hold the same entries.
fn same_tree(a: &EntrySet<usize>, b: &EntrySet<usize>) -> (r: bool)
    requires
        a.wf(),
        b.wf(),
    ensures
        r == (a@ == b@),
{
    let r = contained(a, b) && contained(b, a);
    proof {
        if r {
            assert(a@ =~= b@);
        }
    }
    r
}

/// Whether the two are the same id, or both none.
fn same_id(a: Option<usize>, b: Option<usize>) -> (r: bool)
    ensures
        r == (a == b),
{
    match (a, b) {
        (Some(x), Some(y)) => x == y,
        (None, None) => true,
        _ => false,
    }
}

/// Whether the two history nodes say the same.
fn same_node(a: &HistoryNode<usize>, b: &HistoryNode<usize>) -> (r: bool)
    ensures
        r == (a@ == b@),
{
    a.tree == b.tree && same_id(a.parent, b.parent) && a.author == b.author && a.email == b.email
        && a.message == b.message && a.timestamp == b.timestamp
}

impl MemStore {
    /// A store without objects and without refs.
    pub fn new() -> (r: Self)
        ensures
            r.inv(),
            r@ == StoreState::<usize>::empty(),
    {
        let r = MemStore {
            blobs: Vec::new(),
            trees: Vec::new(),
            history: Vec::new(),
            refs: Vec::new(),
        };
        proof {
            assert(r@.blobs =~= Map::empty());
            assert(r@.trees =~= Map::empty());
            assert(r@.history =~= Map::empty());
            assert(r@.refs =~= Map::empty());
        }
        r
    }

    /// The place of the ref named `name`, if there is one.
    fn ref_position(&self, name: &String) -> (r: Option<usize>)
        ensures
            match r {
                Some(i) => i < self.refs@.len() && self.refs@[i as int].name@ == name@,
                None => !has_ref(self.refs@, name@),
            },
    {
        let mut i: usize = 0;
        while i < self.refs.len()
            invariant
                0 <= i <= self.refs@.len(),
                forall|k: int| 0 <= k < i ==> (#[trigger] self.refs@[k]).name@ != name@,
            decreases self.refs@.len() - i,
        {
            if self.refs[i].name == *name {
                return Some(i);
            }
            i = i + 1;
        }
        None
    }
}

impl ObjectStore for MemStore {
    type Id = usize;

    closed spec fn view(&self) -> StoreState<usize> {
        StoreState {
            blobs: Map::new(|i: usize| i < self.blobs@.len(), |i: usize| self.blobs@[i as int]@),
            trees: Map::new(|i: usize| i < self.trees@.len(), |i: usize| self.trees@[i as int]@),
            history: Map::new(
                |i: usize| i < self.history@.len(),
                |i: usize| self.history@[i as int]@,
            ),
            refs: refs_of(self.refs@),
        }
    }

    closed spec fn inv(&self) -> bool {
        &&& forall|i: int, j: int|
            0 <= i < j < self.blobs@.len() ==> (#[trigger] self.blobs@[i])@ != (
            #[trigger] self.blobs@[j])@
        &&& forall|i: int| 0 <= i < self.trees@.len() ==> (#[trigger] self.trees@[i]).wf()
        &&& forall|i: int, j: int|
            0 <= i < j < self.trees@.len() ==> (#[trigger] self.trees@[i])@ != (
            #[trigger] self.trees@[j])@
        &&& forall|i: int|
            0 <= i < self.trees@.len() ==> links_below(
                (#[trigger] self.trees@[i])@,
                self.blobs@.len(),
                self.trees@.len(),
            )
        &&& forall|i: int, j: int|
            0 <= i < j < self.history@.len() ==> (#[trigger] self.history@[i])@ != (
            #[trigger] self.history@[j])@
        &&& forall|i: int|
            0 <= i < self.history@.len() ==> (#[trigger] self.history@[i]).tree
                < self.trees@.len() && (self.history@[i].parent matches Some(p) ==> p < i)
        &&& unique_refs(self.refs@)
        &&& forall|i: int|
            0 <= i < self.refs@.len() ==> (#[trigger] self.refs@[i]).target < self.history@.len()
    }

    open spec fn reliable(&self) -> bool {
        true
    }

    proof fn inv_gives_wf(&self) {
        let s = self@;
        assert forall|a: usize, b: usize|
            s.blobs.contains_key(a) && s.blobs.contains_key(b) && #[trigger] s.blobs[a]
                == #[trigger] s.blobs[b] implies a == b by {
            if a < b {
                assert(self.blobs@[a as int]@ != self.blobs@[b as int]@);
            } else if b < a {
                assert(self.blobs@[b as int]@ != self.blobs@[a as int]@);
            }
        }
        assert forall|a: usize, b: usize|
            s.trees.contains_key(a) && s.trees.contains_key(b) && #[trigger] s.trees[a]
                == #[trigger] s.trees[b] implies a == b by {
            if a < b {
                assert(self.trees@[a as int]@ != self.trees@[b as int]@);
            } else if b < a {
                assert(self.trees@[b as int]@ != self.trees@[a as int]@);
            }
        }
        assert forall|a: usize, b: usize|
            s.history.contains_key(a) && s.history.contains_key(b) && #[trigger] s.history[a]
                == #[trigger] s.history[b] implies a == b by {
            if a < b {
                assert(self.history@[a as int]@ != self.history@[b as int]@);
            } else if b < a {
                assert(self.history@[b as int]@ != self.history@[a as int]@);
            }
        }
        assert forall|t: usize| #[trigger] s.trees.contains_key(t) implies s.tree_ok(
            s.trees[t],
        ) by {
            assert(links_below(self.trees@[t as int]@, self.blobs@.len(), self.trees@.len()));
            assert forall|name: Seq<char>| #[trigger] s.trees[t].contains_key(name) implies s.link_ok(
                s.trees[t][name],
            ) by {}
        }
        assert forall|h: usize| #[trigger] s.history.contains_key(h) implies s.node_ok(
            s.history[h],
        ) && s.history[h].parent != Some(h) by {
            assert(self.history@[h as int].tree < self.trees@.len());
        }
        assert forall|name: Seq<char>| #[trigger] s.refs.contains_key(name) implies s.history.contains_key(
            s.refs[name],
        ) by {
            let p = ref_place(self.refs@, name);
            assert(self.refs@[p].target < self.history@.len());
        }
    }

    fn get_blob(&self, id: usize) -> (r: Result<Vec<u8>, StoreError>) {
        if id < self.blobs.len() {
            Ok(self.blobs[id].clone())
        } else {
            Err(StoreError::NotFound)
        }
    }

    fn put_blob(&mut self, bytes: &[u8]) -> (r: Result<usize, StoreError>) {
        let mut i: usize = 0;
        while i < self.blobs.len()
            invariant
                *self == *old(self),
                self.inv(),
                0 <= i <= self.blobs@.len(),
                forall|k: int| 0 <= k < i ==> (#[trigger] self.blobs@[k])@ != bytes@,
            decreases self.blobs@.len() - i,
        {
            if same_bytes(&self.blobs[i], bytes) {
                proof {
                    assert(self@.blobs =~= old(self)@.blobs.insert(i, bytes@));
                }
                return Ok(i);
            }
            i = i + 1;
        }
        let id = self.blobs.len();
        self.blobs.push(slice_to_vec(bytes));
        proof {
            assert(self@.blobs =~= old(self)@.blobs.insert(id, bytes@));
            assert(self@.trees =~= old(self)@.trees);
            assert(self@.history =~= old(self)@.history);
            assert forall|a: int, b: int| 0 <= a < b < self.blobs@.len() implies (
            #[trigger] self.blobs@[a])@ != (#[trigger] self.blobs@[b])@ by {
                if b < id {
                    assert(old(self).blobs@[a]@ != old(self).blobs@[b]@);
                } else {
                    assert(old(self).blobs@[a]@ != bytes@);
                }
            }
            assert forall|k: int| 0 <= k < self.trees@.len() implies links_below(
                (#[trigger] self.trees@[k])@,
                self.blobs@.len(),
                self.trees@.len(),
            ) by {
                assert(links_below(
                    old(self).trees@[k]@,
                    old(self).blobs@.len(),
                    old(self).trees@.len(),
                ));
            }
        }
        Ok(id)
    }

    fn get_tree(&self, id: usize) -> (r: Result<EntrySet<usize>, StoreError>) {
        if id < self.trees.len() {
            Ok(self.trees[id].duplicate())
        } else {
            Err(StoreError::NotFound)
        }
    }

    fn put_tree(&mut self, entries: EntrySet<usize>) -> (r: Result<usize, StoreError>) {
        let mut k: usize = 0;
        while k < entries.len()
            invariant
                *self == *old(self),
                self.inv(),
                entries.wf(),
                0 <= k <= entries.entries@.len(),
                forall|i: int|
                    0 <= i < k ==> self@.link_ok((#[trigger] entries.entries@[i]).link()),
            decreases entries.entries@.len() - k,
        {
            let e = &entries.entries[k];
            let present = match e.kind {
                EntryKind::File => e.target < self.blobs.len(),
                EntryKind::Directory => e.target < self.trees.len(),
            };
            if !present {
                proof {
                    lemma_links_at(entries.entries@, k as int);
                    assert(entries@.contains_key(e.name@));
                }
                return Err(StoreError::NotFound);
            }
            k = k + 1;
        }
        proof {
            assert forall|name: Seq<char>| #[trigger] entries@.contains_key(name) implies self@.link_ok(
                entries@[name],
            ) by {
                let p = place_of(entries.entries@, name);
                lemma_links_at(entries.entries@, p);
            }
            assert(links_below(entries@, self.blobs@.len(), self.trees@.len()));
        }
        let mut i: usize = 0;
        while i < self.trees.len()
            invariant
                *self == *old(self),
                self.inv(),
                entries.wf(),
                0 <= i <= self.trees@.len(),
                forall|k: int| 0 <= k < i ==> (#[trigger] self.trees@[k])@ != entries@,
            decreases self.trees@.len() - i,
        {
            if same_tree(&self.trees[i], &entries) {
                proof {
                    assert(self@.trees =~= old(self)@.trees.insert(i, entries@));
                }
                return Ok(i);
            }
            i = i + 1;
        }
        let id = self.trees.len();
        let ghost tree = entries@;
        self.trees.push(entries);
        proof {
            assert(self@.trees =~= old(self)@.trees.insert(id, tree));
            assert(self@.blobs =~= old(self)@.blobs);
            assert(self@.history =~= old(self)@.history);
            assert forall|a: int, b: int| 0 <= a < b < self.trees@.len() implies (
            #[trigger] self.trees@[a])@ != (#[trigger] self.trees@[b])@ by {
                if b < id {
                    assert(old(self).trees@[a]@ != old(self).trees@[b]@);
                } else {
                    assert(old(self).trees@[a]@ != tree);
                }
            }
            assert forall|k: int| 0 <= k < self.trees@.len() implies (#[trigger] self.trees@[k]).wf()
                && links_below(self.trees@[k]@, self.blobs@.len(), self.trees@.len()) by {
                if k < id {
                    assert(old(self).trees@[k].wf());
                    assert(links_below(
                        old(self).trees@[k]@,
                        old(self).blobs@.len(),
                        old(self).trees@.len(),
                    ));
                }
            }
            assert forall|k: int| 0 <= k < self.history@.len() implies (
            #[trigger] self.history@[k]).tree < self.trees@.len() by {
                assert(old(self).history@[k].tree < old(self).trees@.len());
            }
        }
        Ok(id)
    }

    fn get_history_node(&self, id: usize) -> (r: Result<HistoryNode<usize>, StoreError>) {
        if id < self.history.len() {
            let node = &self.history[id];
            Ok(
                HistoryNode {
                    tree: node.tree,
                    parent: node.parent,
                    author: node.author.clone(),
                    email: node.email.clone(),
                    message: node.message.clone(),
                    timestamp: node.timestamp,
                },
            )
        } else {
            Err(StoreError::NotFound)
        }
    }

    fn put_history_node(&mut self, node: HistoryNode<usize>) -> (r: Result<usize, StoreError>) {
        if node.tree >= self.trees.len() {
            return Err(StoreError::NotFound);
        }
        match node.parent {
            Some(p) => {
                if p >= self.history.len() {
                    return Err(StoreError::NotFound);
                }
            },
            None => {},
        }
        let mut i: usize = 0;
        while i < self.history.len()
            invariant
                *self == *old(self),
                self.inv(),
                self@.node_ok(node@),
                0 <= i <= self.history@.len(),
                forall|k: int| 0 <= k < i ==> (#[trigger] self.history@[k])@ != node@,
            decreases self.history@.len() - i,
        {
            if same_node(&self.history[i], &node) {
                proof {
                    assert(self@.history =~= old(self)@.history.insert(i, node@));
                }
                return Ok(i);
            }
            i = i + 1;
        }
        let id = self.history.len();
        let ghost record = node@;
        self.history.push(node);
        proof {
            assert(self@.history =~= old(self)@.history.insert(id, record));
            assert(self@.blobs =~= old(self)@.blobs);
            assert(self@.trees =~= old(self)@.trees);
            assert forall|a: int, b: int| 0 <= a < b < self.history@.len() implies (
            #[trigger] self.history@[a])@ != (#[trigger] self.history@[b])@ by {
                if b < id {
                    assert(old(self).history@[a]@ != old(self).history@[b]@);
                } else {
                    assert(old(self).history@[a]@ != record);
                }
            }
            assert forall|k: int| 0 <= k < self.history@.len() implies (
            #[trigger] self.history@[k]).tree < self.trees@.len() && (
            self.history@[k].parent matches Some(p) ==> p < k) by {
                if k < id {
                    assert(old(self).history@[k].tree < old(self).trees@.len());
                }
            }
            assert forall|k: int| 0 <= k < self.refs@.len() implies (#[trigger] self.refs@[k]).target
                < self.history@.len() by {
                assert(old(self).refs@[k].target < old(self).history@.len());
            }
        }
        Ok(id)
    }

    fn read_ref(&self, name: &str) -> (r: Result<Option<usize>, StoreError>) {
        let key = name.to_owned();
        match self.ref_position(&key) {
            Some(i) => {
                proof {
                    lemma_ref_at(self.refs@, i as int);
                }
                Ok(Some(self.refs[i].target))
            },
            None => Ok(None),
        }
    }

    fn compare_and_swap_ref(&mut self, name: &str, expected: Option<usize>, new: usize) -> (r:
        Result<bool, StoreError>) {
        if new >= self.history.len() {
            return Err(StoreError::NotFound);
        }
        let key = name.to_owned();
        let found = self.ref_position(&key);
        let ghost before = self.refs@;
        match found {
            Some(i) => {
                proof {
                    lemma_ref_at(before, i as int);
                }
                if !same_id(Some(self.refs[i].target), expected) {
                    return Ok(false);
                }
                self.refs[i] = RefSlot { name: key, target: new };
                proof {
                    let after = self.refs@;
                    assert forall|a: int, b: int| 0 <= a < b < after.len() implies (
                    #[trigger] after[a]).name@ != (#[trigger] after[b]).name@ by {
                        assert(before[a].name@ != before[b].name@);
                    }
                    assert forall|n: Seq<char>| has_ref(after, n) == has_ref(before, n) by {
                        if has_ref(after, n) {
                            assert(before[ref_place(after, n)].name@ == n);
                        }
                        if has_ref(before, n) {
                            assert(after[ref_place(before, n)].name@ == n);
                        }
                    }
                    assert forall|n: Seq<char>| has_ref(after, n) implies refs_of(after)[n]
                        == refs_of(before).insert(name@, new)[n] by {
                        let p = ref_place(after, n);
                        lemma_ref_at(after, p);
                        if p != i {
                            assert(before[p].name@ == n);
                            lemma_ref_at(before, p);
                        }
                    }
                    assert(refs_of(after) =~= refs_of(before).insert(name@, new));
                    assert forall|k: int| 0 <= k < after.len() implies (#[trigger] after[k]).target
                        < self.history@.len() by {
                        if k != i {
                            assert(before[k].target < self.history@.len());
                        }
                    }
                }
                Ok(true)
            },
            None => {
                if !same_id(None, expected) {
                    return Ok(false);
                }
                self.refs.push(RefSlot { name: key, target: new });
                proof {
                    let after = self.refs@;
                    assert forall|a: int, b: int| 0 <= a < b < after.len() implies (
                    #[trigger] after[a]).name@ != (#[trigger] after[b]).name@ by {
                        if b < before.len() {
                            assert(before[a].name@ != before[b].name@);
                        } else {
                            assert(before[a].name@ != name@);
                        }
                    }
                    assert forall|n: Seq<char>| has_ref(after, n) == (has_ref(before, n) || n
                        == name@) by {
                        if has_ref(after, n) {
                            let p = ref_place(after, n);
                            if p < before.len() {
                                assert(before[p].name@ == n);
                            }
                        }
                        if has_ref(before, n) {
                            assert(after[ref_place(before, n)].name@ == n);
                        }
                        if n == name@ {
                            assert(after[before.len() as int].name@ == n);
                        }
                    }
                    assert forall|n: Seq<char>| has_ref(after, n) implies refs_of(after)[n]
                        == refs_of(before).insert(name@, new)[n] by {
                        let p = ref_place(after, n);
                        lemma_ref_at(after, p);
                        if p < before.len() {
                            assert(before[p].name@ == n);
                            lemma_ref_at(before, p);
                        }
                    }
                    assert(refs_of(after) =~= refs_of(before).insert(name@, new));
                    assert forall|k: int| 0 <= k < after.len() implies (#[trigger] after[k]).target
                        < self.history@.len() by {
                        if k < before.len() {
                            assert(before[k].target < self.history@.len());
                        }
                    }
                }
                Ok(true)
            },
        }
    }
}

} // verus!
