use treestore::{EntryKind, EntrySet, HistoryNode, MemStore, ObjectStore, StoreError};

fn node(tree: usize, parent: Option<usize>, message: &str) -> HistoryNode<usize> {
    HistoryNode {
        tree,
        parent,
        author: "ann".to_string(),
        email: "ann@example.org".to_string(),
        message: message.to_string(),
        timestamp: 10,
    }
}

#[test]
fn equal_blobs_have_one_id() {
    let mut store = MemStore::new();
    let a = store.put_blob(b"same").unwrap();
    let b = store.put_blob(b"other").unwrap();
    let c = store.put_blob(b"same").unwrap();
    assert_eq!(a, c);
    assert_ne!(a, b);
    assert_eq!(store.get_blob(a).unwrap(), b"same".to_vec());
    assert_eq!(store.get_blob(b).unwrap(), b"other".to_vec());
    assert_eq!(store.get_blob(b + 1), Err(StoreError::NotFound));
}

#[test]
fn equal_trees_have_one_id_whatever_the_order() {
    let mut store = MemStore::new();
    let x = store.put_blob(b"x").unwrap();
    let y = store.put_blob(b"y").unwrap();
    let mut one = EntrySet::new();
    one.insert("x".to_string(), EntryKind::File, x);
    one.insert("y".to_string(), EntryKind::File, y);
    let mut two = EntrySet::new();
    two.insert("y".to_string(), EntryKind::File, y);
    two.insert("x".to_string(), EntryKind::File, x);
    let mut three = EntrySet::new();
    three.insert("x".to_string(), EntryKind::File, y);
    three.insert("y".to_string(), EntryKind::File, x);
    let a = store.put_tree(one).unwrap();
    let b = store.put_tree(two).unwrap();
    let c = store.put_tree(three).unwrap();
    assert_eq!(a, b);
    assert_ne!(a, c);
}

#[test]
fn a_tree_must_point_at_objects_of_the_store() {
    let mut store = MemStore::new();
    let mut dangling = EntrySet::new();
    dangling.insert("x".to_string(), EntryKind::File, 3);
    assert_eq!(store.put_tree(dangling), Err(StoreError::NotFound));
    let blob = store.put_blob(b"x").unwrap();
    let mut wrong_kind = EntrySet::new();
    wrong_kind.insert("x".to_string(), EntryKind::Directory, blob);
    assert_eq!(store.put_tree(wrong_kind), Err(StoreError::NotFound));
    assert_eq!(store.get_tree(0).map(|t| t.len()), Err(StoreError::NotFound));
}

#[test]
fn entry_set_binds_each_name_once() {
    let mut set: EntrySet<usize> = EntrySet::new();
    assert!(set.is_empty());
    set.insert("a".to_string(), EntryKind::File, 1);
    set.insert("b".to_string(), EntryKind::Directory, 2);
    set.insert("a".to_string(), EntryKind::Directory, 3);
    assert_eq!(set.len(), 2);
    let a = set.get(&"a".to_string()).unwrap();
    assert_eq!((a.kind, a.target), (EntryKind::Directory, 3));
    assert!(set.get(&"c".to_string()).is_none());
    assert_eq!(set.names(), vec!["a".to_string(), "b".to_string()]);
    assert!(set.remove(&"a".to_string()));
    assert!(!set.remove(&"a".to_string()));
    assert_eq!(set.names(), vec!["b".to_string()]);
    assert!(!set.is_empty());
}

#[test]
fn history_nodes_need_their_tree_and_parent() {
    let mut store = MemStore::new();
    assert_eq!(store.put_history_node(node(0, None, "m")), Err(StoreError::NotFound));
    let tree = store.put_tree(EntrySet::new()).unwrap();
    assert_eq!(store.put_history_node(node(tree, Some(0), "m")), Err(StoreError::NotFound));
    let first = store.put_history_node(node(tree, None, "m")).unwrap();
    let again = store.put_history_node(node(tree, None, "m")).unwrap();
    let other = store.put_history_node(node(tree, Some(first), "m")).unwrap();
    assert_eq!(first, again);
    assert_ne!(first, other);
    let read = store.get_history_node(other).unwrap();
    assert_eq!(read.parent, Some(first));
    assert_eq!(read.tree, tree);
    assert_eq!(read.author, "ann");
    assert_eq!(read.email, "ann@example.org");
    assert_eq!(read.message, "m");
    assert_eq!(read.timestamp, 10);
    assert!(store.get_history_node(other + 1).is_err());
}

#[test]
fn compare_and_swap_moves_a_ref_only_from_the_expected_value() {
    let mut store = MemStore::new();
    let tree = store.put_tree(EntrySet::new()).unwrap();
    let one = store.put_history_node(node(tree, None, "1")).unwrap();
    let two = store.put_history_node(node(tree, Some(one), "2")).unwrap();
    assert_eq!(store.read_ref("main"), Ok(None));
    assert_eq!(store.compare_and_swap_ref("main", Some(one), two), Ok(false));
    assert_eq!(store.read_ref("main"), Ok(None));
    assert_eq!(store.compare_and_swap_ref("main", None, one), Ok(true));
    assert_eq!(store.read_ref("main"), Ok(Some(one)));
    assert_eq!(store.compare_and_swap_ref("main", None, two), Ok(false));
    assert_eq!(store.compare_and_swap_ref("main", Some(two), two), Ok(false));
    assert_eq!(store.read_ref("main"), Ok(Some(one)));
    assert_eq!(store.compare_and_swap_ref("main", Some(one), two), Ok(true));
    assert_eq!(store.read_ref("main"), Ok(Some(two)));
    assert_eq!(store.read_ref("other"), Ok(None));
    assert_eq!(store.compare_and_swap_ref("main", Some(two), 9), Err(StoreError::NotFound));
}
