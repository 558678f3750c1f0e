use treestore::{
    commit, commit_batch, commit_files, commit_on, get_dir, get_file, head_of, list_at, read_at,
    CommitInfo, EntrySet, MemStore, ObjectStore, StagedFile, StoreError, MAIN_REF,
};

fn signed(message: &str) -> CommitInfo {
    CommitInfo {
        message: message.to_string(),
        author: "ann".to_string(),
        email: "ann@example.org".to_string(),
    }
}

fn file_at_path(path: &str, content: &str) -> StagedFile {
    StagedFile { content: content.to_string(), path: path.to_string() }
}

fn store_with_history() -> (MemStore, usize) {
    let mut store = MemStore::new();
    let tree = store.put_tree(EntrySet::new()).unwrap();
    let head = commit(&mut store, MAIN_REF, tree, &signed("start"), 1).unwrap();
    (store, head)
}

#[test]
fn first_commit_creates_the_ref() {
    let mut store = MemStore::new();
    let tree = store.put_tree(EntrySet::new()).unwrap();
    assert_eq!(store.read_ref("master"), Ok(None));
    let id = commit(&mut store, "master", tree, &signed("first"), 7).unwrap();
    assert_eq!(store.read_ref("master"), Ok(Some(id)));
    let node = store.get_history_node(id).unwrap();
    assert_eq!(node.parent, None);
    assert_eq!(node.tree, tree);
    assert_eq!(node.author, "ann");
    assert_eq!(node.email, "ann@example.org");
    assert_eq!(node.message, "first");
    assert_eq!(node.timestamp, 7);
}

#[test]
fn next_commit_has_the_head_as_parent() {
    let (mut store, head) = store_with_history();
    let tree = store.get_history_node(head).unwrap().tree;
    let next = commit(&mut store, MAIN_REF, tree, &signed("next"), 2).unwrap();
    assert_ne!(next, head);
    assert_eq!(store.get_history_node(next).unwrap().parent, Some(head));
    assert_eq!(store.read_ref(MAIN_REF), Ok(Some(next)));
}

#[test]
fn second_of_two_commits_on_one_parent_conflicts() {
    let (mut store, head) = store_with_history();
    let tree = store.get_history_node(head).unwrap().tree;
    // Both attempts have read `head` as the parent.
    let first = commit_on(&mut store, MAIN_REF, Some(head), tree, &signed("one"), 2).unwrap();
    assert_eq!(store.read_ref(MAIN_REF), Ok(Some(first)));
    let second = commit_on(&mut store, MAIN_REF, Some(head), tree, &signed("two"), 3);
    assert_eq!(second, Err(StoreError::Conflict));
    assert_eq!(store.read_ref(MAIN_REF), Ok(Some(first)));
    // After reading the ref again the second attempt goes through.
    let retried = commit_on(&mut store, MAIN_REF, Some(first), tree, &signed("two"), 3).unwrap();
    assert_eq!(store.read_ref(MAIN_REF), Ok(Some(retried)));
}

#[test]
fn commit_on_an_absent_ref_conflicts_once_it_exists() {
    let mut store = MemStore::new();
    let tree = store.put_tree(EntrySet::new()).unwrap();
    let first = commit_on(&mut store, "r", None, tree, &signed("one"), 1).unwrap();
    assert_eq!(
        commit_on(&mut store, "r", None, tree, &signed("two"), 2),
        Err(StoreError::Conflict)
    );
    assert_eq!(store.read_ref("r"), Ok(Some(first)));
}

#[test]
fn commit_of_a_missing_tree_or_parent_is_not_found() {
    let mut store = MemStore::new();
    assert_eq!(commit(&mut store, "r", 4, &signed("m"), 1), Err(StoreError::NotFound));
    let tree = store.put_tree(EntrySet::new()).unwrap();
    assert_eq!(
        commit_on(&mut store, "r", Some(4), tree, &signed("m"), 1),
        Err(StoreError::NotFound)
    );
    assert_eq!(store.read_ref("r"), Ok(None));
}

#[test]
fn commit_files_records_the_batch_on_the_main_ref() {
    let (mut store, head) = store_with_history();
    let files = [file_at_path("files/p", "page"), file_at_path("meta/p.json", "{}")];
    let id = commit_files(&signed("add"), &files, &[], &mut store, 5).unwrap();
    assert_eq!(store.read_ref("master"), Ok(Some(id)));
    let node = store.get_history_node(id).unwrap();
    assert_eq!(node.parent, Some(head));
    assert_eq!(node.message, "add");
    assert_eq!(node.timestamp, 5);
    assert_eq!(get_file("files/p", &store).unwrap(), b"page".to_vec());
    assert_eq!(get_dir("files", &store).unwrap(), vec!["p".to_string()]);
    let mut root = get_dir("", &store).unwrap();
    root.sort();
    assert_eq!(root, vec!["files".to_string(), "meta".to_string()]);
    assert_eq!(head_of(&store, "master"), Ok((id, node.tree)));

    let removed = ["files/p".to_string(), "meta/p.json".to_string()];
    let last = commit_files(&signed("drop"), &[], &removed, &mut store, 6).unwrap();
    assert_eq!(store.get_history_node(last).unwrap().parent, Some(id));
    assert_eq!(get_dir("", &store).unwrap(), Vec::<String>::new());
    assert_eq!(get_file("files/p", &store), Err(StoreError::NotFound));
}

#[test]
fn a_failed_batch_does_not_move_the_ref() {
    let (mut store, head) = store_with_history();
    let removed = ["nothing".to_string()];
    assert_eq!(
        commit_files(&signed("m"), &[file_at_path("a", "A")], &removed, &mut store, 2),
        Err(StoreError::NotFound)
    );
    assert_eq!(store.read_ref("master"), Ok(Some(head)));
    assert_eq!(get_file("a", &store), Err(StoreError::NotFound));
    assert_eq!(
        commit_files(&signed("m"), &[file_at_path("", "A")], &[], &mut store, 2),
        Err(StoreError::InvalidPath)
    );
    assert_eq!(store.read_ref("master"), Ok(Some(head)));
}

#[test]
fn reading_through_a_ref_that_does_not_exist_is_not_found() {
    let store = MemStore::new();
    assert_eq!(get_file("a", &store), Err(StoreError::NotFound));
    assert_eq!(get_file("a//b", &store), Err(StoreError::NotFound));
    assert_eq!(get_dir("", &store), Err(StoreError::NotFound));
    assert_eq!(head_of(&store, "master"), Err(StoreError::NotFound));
}

#[test]
fn commit_files_records_the_first_snapshot_on_an_empty_store() {
    let mut store = MemStore::new();
    assert_eq!(store.read_ref("master"), Ok(None));
    let files = [file_at_path("x/y", "v"), file_at_path("z", "w")];
    let id = commit_files(&signed("first"), &files, &[], &mut store, 3).unwrap();
    assert_eq!(store.read_ref("master"), Ok(Some(id)));
    let node = store.get_history_node(id).unwrap();
    assert_eq!(node.parent, None);
    assert_eq!(node.author, "ann");
    assert_eq!(node.email, "ann@example.org");
    assert_eq!(node.message, "first");
    assert_eq!(node.timestamp, 3);
    assert_eq!(get_dir("", &store).unwrap(), vec!["x".to_string(), "z".to_string()]);
    assert_eq!(get_file("x/y", &store).unwrap(), b"v".to_vec());
    // The tree of the node is what the batch makes of the empty tree.
    let empty = store.put_tree(EntrySet::new()).unwrap();
    let expected = treestore::apply(&mut store, empty, &files, &[]).unwrap();
    assert_eq!(node.tree, expected);
    // The next commit has the first as its parent.
    let next = commit_files(&signed("next"), &[], &["z".to_string()], &mut store, 4).unwrap();
    assert_eq!(store.get_history_node(next).unwrap().parent, Some(id));
}

#[test]
fn first_commit_of_an_empty_batch_records_the_empty_tree() {
    let mut store = MemStore::new();
    let id = commit_batch(&mut store, "r", &signed("empty"), &[], &[], 1).unwrap();
    assert_eq!(store.read_ref("r"), Ok(Some(id)));
    let node = store.get_history_node(id).unwrap();
    assert_eq!(node.parent, None);
    assert_eq!(store.get_tree(node.tree).unwrap().len(), 0);
    assert_eq!(list_at(&store, "r", "").unwrap(), Vec::<String>::new());
}

#[test]
fn a_refused_first_commit_leaves_the_ref_absent_and_writes_no_node() {
    let mut store = MemStore::new();
    let removed = ["nothing".to_string()];
    assert_eq!(
        commit_files(&signed("m"), &[file_at_path("a", "A")], &removed, &mut store, 1),
        Err(StoreError::NotFound)
    );
    assert_eq!(
        commit_files(&signed("m"), &[file_at_path("", "A")], &[], &mut store, 1),
        Err(StoreError::InvalidPath)
    );
    assert_eq!(store.read_ref("master"), Ok(None));
    assert_eq!(store.get_history_node(0).map(|n| n.timestamp), Err(StoreError::NotFound));
}

#[test]
fn a_refused_batch_writes_no_history_node() {
    let (mut store, head) = store_with_history();
    let removed = ["nothing".to_string()];
    assert_eq!(
        commit_files(&signed("m"), &[], &removed, &mut store, 2),
        Err(StoreError::NotFound)
    );
    assert_eq!(store.read_ref("master"), Ok(Some(head)));
    // The only node is the one that was there.
    assert_eq!(head, 0);
    assert_eq!(store.get_history_node(1).map(|n| n.timestamp), Err(StoreError::NotFound));
}

#[test]
fn a_stale_parent_conflicts_after_commit_files_moved_the_ref() {
    let (mut store, head) = store_with_history();
    let tree = store.get_history_node(head).unwrap().tree;
    let moved = commit_files(&signed("one"), &[file_at_path("f", "1")], &[], &mut store, 2);
    let moved = moved.unwrap();
    assert_ne!(moved, head);
    let late = commit_on(&mut store, MAIN_REF, Some(head), tree, &signed("two"), 3);
    assert_eq!(late, Err(StoreError::Conflict));
    assert_eq!(store.read_ref(MAIN_REF), Ok(Some(moved)));
}

#[test]
fn each_ref_has_its_own_history() {
    let (mut store, head) = store_with_history();
    let tree = store.get_history_node(head).unwrap().tree;
    let side = commit(&mut store, "side", tree, &signed("side"), 2).unwrap();
    let on_side = commit_batch(&mut store, "side", &signed("s"), &[file_at_path("f", "S")], &[], 3);
    let on_side = on_side.unwrap();
    assert_eq!(store.get_history_node(on_side).unwrap().parent, Some(side));
    assert_eq!(read_at(&store, "side", "f").unwrap(), b"S".to_vec());
    assert_eq!(list_at(&store, "side", "").unwrap(), vec!["f".to_string()]);
    assert_eq!(read_at(&store, "master", "f"), Err(StoreError::NotFound));
    assert_eq!(store.read_ref("master"), Ok(Some(head)));
}
