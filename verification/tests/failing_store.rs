use treestore::store::StoreState;
use treestore::{
    apply, commit, commit_files, get_file, resolve, upsert, CommitInfo, EntrySet, HistoryNode,
    MemStore, ObjectStore, StagedFile, StoreError,
};

/// A store whose writes start to fail once a number of them have gone through.
struct Flaky {
    inner: MemStore,
    writes_left: usize,
}

impl Flaky {
    fn new(writes_left: usize) -> Self {
        Flaky { inner: MemStore::new(), writes_left }
    }

    fn spend(&mut self) -> Result<(), StoreError> {
        if self.writes_left == 0 {
            return Err(StoreError::StoreFailure);
        }
        self.writes_left -= 1;
        Ok(())
    }
}

impl ObjectStore for Flaky {
    type Id = usize;

    // The next four exist for proofs only and are never run.
    fn view(&self) -> StoreState<usize> {
        unreachable!()
    }

    fn inv(&self) -> bool {
        unreachable!()
    }

    fn reliable(&self) -> bool {
        unreachable!()
    }

    fn inv_gives_wf(&self) {
        unreachable!()
    }

    fn get_blob(&self, id: usize) -> Result<Vec<u8>, StoreError> {
        self.inner.get_blob(id)
    }

    fn put_blob(&mut self, bytes: &[u8]) -> Result<usize, StoreError> {
        self.spend()?;
        self.inner.put_blob(bytes)
    }

    fn get_tree(&self, id: usize) -> Result<EntrySet<usize>, StoreError> {
        self.inner.get_tree(id)
    }

    fn put_tree(&mut self, entries: EntrySet<usize>) -> Result<usize, StoreError> {
        self.spend()?;
        self.inner.put_tree(entries)
    }

    fn get_history_node(&self, id: usize) -> Result<HistoryNode<usize>, StoreError> {
        self.inner.get_history_node(id)
    }

    fn put_history_node(&mut self, node: HistoryNode<usize>) -> Result<usize, StoreError> {
        self.spend()?;
        self.inner.put_history_node(node)
    }

    fn read_ref(&self, name: &str) -> Result<Option<usize>, StoreError> {
        self.inner.read_ref(name)
    }

    fn compare_and_swap_ref(
        &mut self,
        name: &str,
        expected: Option<usize>,
        new: usize,
    ) -> Result<bool, StoreError> {
        self.spend()?;
        self.inner.compare_and_swap_ref(name, expected, new)
    }
}

fn ann() -> CommitInfo {
    CommitInfo {
        message: "m".to_string(),
        author: "ann".to_string(),
        email: "ann@example.org".to_string(),
    }
}

#[test]
fn a_failing_write_ends_an_upsert_with_store_failure() {
    let mut store = Flaky::new(2);
    let base = store.put_tree(EntrySet::new()).unwrap();
    // One write is left: the blob goes through, the tree above it does not.
    assert_eq!(upsert(&mut store, base, "a/b", b"x"), Err(StoreError::StoreFailure));
}

#[test]
fn a_failed_batch_leaves_the_ref_where_it_was() {
    let mut store = Flaky::new(3);
    let base = store.put_tree(EntrySet::new()).unwrap();
    let first = commit(&mut store, "master", base, &ann(), 1).unwrap();
    let file = StagedFile { content: "x".to_string(), path: "a".to_string() };
    assert_eq!(apply(&mut store, base, &[file], &[]), Err(StoreError::StoreFailure));
    assert_eq!(store.read_ref("master"), Ok(Some(first)));
    assert_eq!(get_file("a", &store), Err(StoreError::NotFound));
    assert_eq!(resolve(&store, base, "a"), Err(StoreError::NotFound));
}

#[test]
fn a_storage_failure_during_the_first_commit_leaves_the_ref_absent() {
    let file = StagedFile { content: "x".to_string(), path: "a".to_string() };
    // Writes of a first commit: the empty tree, the blob, the root, the node, the ref.
    for writes in 0..5 {
        let mut store = Flaky::new(writes);
        let r = commit_files(&ann(), &[file.clone()], &[], &mut store, 1);
        assert_eq!(r, Err(StoreError::StoreFailure));
        assert_eq!(store.read_ref("master"), Ok(None));
    }
    let mut store = Flaky::new(5);
    let id = commit_files(&ann(), &[file.clone()], &[], &mut store, 1).unwrap();
    assert_eq!(store.read_ref("master"), Ok(Some(id)));
}
