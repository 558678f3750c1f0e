use treestore::{
    apply, comes_before, list, parse_path, remove, resolve, sort_names, upsert, EntryKind,
    EntrySet, MemStore, ObjectStore, StagedFile, StoreError,
};

fn empty_tree(store: &mut MemStore) -> usize {
    store.put_tree(EntrySet::new()).unwrap()
}

fn staged(path: &str, content: &str) -> StagedFile {
    StagedFile { content: content.to_string(), path: path.to_string() }
}

fn names(list: &[&str]) -> Vec<String> {
    list.iter().map(|s| s.to_string()).collect()
}

fn sorted(mut list: Vec<String>) -> Vec<String> {
    list.sort();
    list
}

/// A tree with the files `a`, `d/b`, `d/c` and `d/e/f`.
fn sample(store: &mut MemStore) -> usize {
    let base = empty_tree(store);
    let files =
        [staged("a", "A"), staged("d/b", "B"), staged("d/c", "C"), staged("d/e/f", "F")];
    apply(store, base, &files, &[]).unwrap()
}

#[test]
fn parse_path_splits_at_slashes() {
    assert_eq!(parse_path("x/y/z"), Ok(names(&["x", "y", "z"])));
    assert_eq!(parse_path("file.txt"), Ok(names(&["file.txt"])));
    assert_eq!(parse_path(""), Ok(Vec::new()));
    assert_eq!(parse_path("päge/ü"), Ok(names(&["päge", "ü"])));
}

#[test]
fn parse_path_refuses_empty_segments() {
    assert_eq!(parse_path("/"), Err(StoreError::InvalidPath));
    assert_eq!(parse_path("/x"), Err(StoreError::InvalidPath));
    assert_eq!(parse_path("x/"), Err(StoreError::InvalidPath));
    assert_eq!(parse_path("x//y"), Err(StoreError::InvalidPath));
}

#[test]
fn resolve_of_an_absent_path_is_not_found() {
    let mut store = MemStore::new();
    let tree = sample(&mut store);
    assert_eq!(resolve(&store, tree, "nothing"), Err(StoreError::NotFound));
    assert_eq!(resolve(&store, tree, "d/nothing"), Err(StoreError::NotFound));
    assert_eq!(resolve(&store, tree, "nothing/b"), Err(StoreError::NotFound));
    // A file stands where a directory is needed.
    assert_eq!(resolve(&store, tree, "a/b"), Err(StoreError::NotFound));
    // The path ends at a directory.
    assert_eq!(resolve(&store, tree, "d"), Err(StoreError::NotFound));
    assert_eq!(resolve(&store, tree, ""), Err(StoreError::NotFound));
    // The tree itself is not in the store.
    assert_eq!(resolve(&store, tree + 100, "a"), Err(StoreError::NotFound));
}

#[test]
fn resolve_of_a_malformed_path_is_invalid_path() {
    let mut store = MemStore::new();
    let tree = sample(&mut store);
    assert_eq!(resolve(&store, tree, "d//b"), Err(StoreError::InvalidPath));
    assert_eq!(list(&store, tree, "d/"), Err(StoreError::InvalidPath));
}

#[test]
fn upsert_then_resolve_returns_the_content() {
    let mut store = MemStore::new();
    let base = sample(&mut store);
    let tree = apply(&mut store, base, &[staged("d/e/g", "new")], &[]).unwrap();
    assert_eq!(resolve(&store, tree, "d/e/g").unwrap(), b"new".to_vec());
    // The base tree is untouched.
    assert_eq!(resolve(&store, base, "d/e/g"), Err(StoreError::NotFound));
}

#[test]
fn upsert_overwrites_a_file() {
    let mut store = MemStore::new();
    let base = sample(&mut store);
    let tree = upsert(&mut store, base, "d/b", b"B2").unwrap();
    assert_eq!(resolve(&store, tree, "d/b").unwrap(), b"B2".to_vec());
    assert_eq!(resolve(&store, base, "d/b").unwrap(), b"B".to_vec());
}

#[test]
fn upsert_keeps_siblings_at_every_level() {
    let mut store = MemStore::new();
    let base = sample(&mut store);
    let tree = upsert(&mut store, base, "d/e/g", b"G").unwrap();
    assert_eq!(sorted(list(&store, tree, "").unwrap()), names(&["a", "d"]));
    assert_eq!(sorted(list(&store, tree, "d").unwrap()), names(&["b", "c", "e"]));
    assert_eq!(sorted(list(&store, tree, "d/e").unwrap()), names(&["f", "g"]));
    assert_eq!(resolve(&store, tree, "a").unwrap(), b"A".to_vec());
    assert_eq!(resolve(&store, tree, "d/b").unwrap(), b"B".to_vec());
    assert_eq!(resolve(&store, tree, "d/c").unwrap(), b"C".to_vec());
    assert_eq!(resolve(&store, tree, "d/e/f").unwrap(), b"F".to_vec());
}

#[test]
fn upsert_shares_untouched_directories() {
    let mut store = MemStore::new();
    let base = sample(&mut store);
    let tree = upsert(&mut store, base, "z", b"Z").unwrap();
    let before = store.get_tree(base).unwrap();
    let after = store.get_tree(tree).unwrap();
    let d = "d".to_string();
    assert_eq!(before.get(&d).unwrap().target, after.get(&d).unwrap().target);
    assert_eq!(after.get(&d).unwrap().kind, EntryKind::Directory);
}

#[test]
fn upsert_turns_a_file_into_a_directory_and_back() {
    let mut store = MemStore::new();
    let base = sample(&mut store);
    let tree = upsert(&mut store, base, "a/inner", b"I").unwrap();
    assert_eq!(resolve(&store, tree, "a/inner").unwrap(), b"I".to_vec());
    assert_eq!(resolve(&store, tree, "a"), Err(StoreError::NotFound));
    assert_eq!(list(&store, tree, "a").unwrap(), names(&["inner"]));
    let back = upsert(&mut store, tree, "a", b"A").unwrap();
    assert_eq!(resolve(&store, back, "a").unwrap(), b"A".to_vec());
    assert_eq!(resolve(&store, back, "a/inner"), Err(StoreError::NotFound));
    assert_eq!(back, base);
}

#[test]
fn upsert_at_the_empty_path_is_invalid_path() {
    let mut store = MemStore::new();
    let base = sample(&mut store);
    assert_eq!(upsert(&mut store, base, "", b"x"), Err(StoreError::InvalidPath));
    assert_eq!(apply(&mut store, base, &[staged("", "x")], &[]), Err(StoreError::InvalidPath));
    assert_eq!(upsert(&mut store, base, "a//b", b"x"), Err(StoreError::InvalidPath));
}

#[test]
fn upsert_into_a_tree_that_is_missing_is_not_found() {
    let mut store = MemStore::new();
    assert_eq!(upsert(&mut store, 5, "a", b"x"), Err(StoreError::NotFound));
    assert_eq!(apply(&mut store, 5, &[], &[]), Err(StoreError::NotFound));
}

#[test]
fn identical_upsert_gives_the_same_tree_twice() {
    let mut store = MemStore::new();
    let base = sample(&mut store);
    let first = apply(&mut store, base, &[staged("d/e/g", "G")], &[]).unwrap();
    let second = apply(&mut store, base, &[staged("d/e/g", "G")], &[]).unwrap();
    assert_eq!(first, second);
    // Writing what is there already gives back the tree itself.
    assert_eq!(apply(&mut store, first, &[staged("d/e/g", "G")], &[]).unwrap(), first);
}

#[test]
fn upsert_creates_missing_directories() {
    let mut store = MemStore::new();
    let base = empty_tree(&mut store);
    let tree = apply(&mut store, base, &[staged("x/y/z", "v")], &[]).unwrap();
    assert_eq!(list(&store, tree, "").unwrap(), names(&["x"]));
    assert_eq!(list(&store, tree, "x").unwrap(), names(&["y"]));
    assert_eq!(list(&store, tree, "x/y").unwrap(), names(&["z"]));
    assert_eq!(resolve(&store, tree, "x/y/z").unwrap(), b"v".to_vec());
}

#[test]
fn removal_collapses_empty_directories_up_to_the_root() {
    let mut store = MemStore::new();
    let base = empty_tree(&mut store);
    let tree = apply(&mut store, base, &[staged("x/y/z", "v")], &[]).unwrap();
    let after = apply(&mut store, tree, &[], &["x/y/z".to_string()]).unwrap();
    assert_eq!(list(&store, after, "").unwrap(), Vec::<String>::new());
    assert_eq!(after, base);
}

#[test]
fn removal_stops_collapsing_at_a_directory_with_siblings() {
    let mut store = MemStore::new();
    let base = sample(&mut store);
    let tree = remove(&mut store, base, "d/e/f").unwrap();
    // `e` held nothing else and goes; `d` still holds `b` and `c`.
    assert_eq!(sorted(list(&store, tree, "d").unwrap()), names(&["b", "c"]));
    assert_eq!(list(&store, tree, "d/e"), Err(StoreError::NotFound));
    assert_eq!(sorted(list(&store, tree, "").unwrap()), names(&["a", "d"]));
    assert_eq!(resolve(&store, tree, "d/b").unwrap(), b"B".to_vec());
    assert_eq!(resolve(&store, tree, "a").unwrap(), b"A".to_vec());
}

#[test]
fn removal_of_a_directory_takes_all_below_it() {
    let mut store = MemStore::new();
    let base = sample(&mut store);
    let tree = remove(&mut store, base, "d").unwrap();
    assert_eq!(list(&store, tree, "").unwrap(), names(&["a"]));
    assert_eq!(resolve(&store, tree, "d/b"), Err(StoreError::NotFound));
}

#[test]
fn removal_of_the_last_file_leaves_an_empty_root() {
    let mut store = MemStore::new();
    let base = empty_tree(&mut store);
    let tree = upsert(&mut store, base, "only", b"1").unwrap();
    let after = remove(&mut store, tree, "only").unwrap();
    assert_eq!(list(&store, after, "").unwrap(), Vec::<String>::new());
}

#[test]
fn removal_of_an_absent_path_is_not_found() {
    let mut store = MemStore::new();
    let base = sample(&mut store);
    assert_eq!(remove(&mut store, base, "nothing"), Err(StoreError::NotFound));
    assert_eq!(remove(&mut store, base, "d/nothing"), Err(StoreError::NotFound));
    assert_eq!(remove(&mut store, base, "a/b"), Err(StoreError::NotFound));
    assert_eq!(remove(&mut store, base, "nothing/at/all"), Err(StoreError::NotFound));
}

#[test]
fn removal_of_a_malformed_or_empty_path_is_invalid_path() {
    let mut store = MemStore::new();
    let base = sample(&mut store);
    assert_eq!(remove(&mut store, base, ""), Err(StoreError::InvalidPath));
    assert_eq!(remove(&mut store, base, "d/"), Err(StoreError::InvalidPath));
}

#[test]
fn removal_wins_over_upsert_in_one_batch() {
    let mut store = MemStore::new();
    let base = sample(&mut store);
    let tree = apply(&mut store, base, &[staged("p/q", "A")], &["p/q".to_string()]).unwrap();
    assert_eq!(resolve(&store, tree, "p/q"), Err(StoreError::NotFound));
    assert_eq!(tree, base);
}

#[test]
fn batch_applies_upserts_in_order() {
    let mut store = MemStore::new();
    let base = empty_tree(&mut store);
    let tree = apply(&mut store, base, &[staged("f", "1"), staged("f", "2")], &[]).unwrap();
    assert_eq!(resolve(&store, tree, "f").unwrap(), b"2".to_vec());
}

#[test]
fn batch_stops_at_the_first_change_that_fails() {
    let mut store = MemStore::new();
    let base = sample(&mut store);
    let removals = ["a".to_string(), "nothing".to_string(), "d//x".to_string()];
    assert_eq!(apply(&mut store, base, &[], &removals), Err(StoreError::NotFound));
    let removals = ["d//x".to_string(), "nothing".to_string()];
    assert_eq!(apply(&mut store, base, &[], &removals), Err(StoreError::InvalidPath));
    // Removing the same path twice: the second removal finds nothing.
    let removals = ["a".to_string(), "a".to_string()];
    assert_eq!(apply(&mut store, base, &[], &removals), Err(StoreError::NotFound));
}

#[test]
fn empty_batch_gives_back_the_base() {
    let mut store = MemStore::new();
    let base = sample(&mut store);
    assert_eq!(apply(&mut store, base, &[], &[]), Ok(base));
}

#[test]
fn content_is_stored_as_utf8_bytes() {
    let mut store = MemStore::new();
    let base = empty_tree(&mut store);
    let tree = apply(&mut store, base, &[staged("g", "grüß")], &[]).unwrap();
    assert_eq!(resolve(&store, tree, "g").unwrap(), vec![b'g', b'r', 0xc3, 0xbc, 0xc3, 0x9f]);
}

#[test]
fn names_compare_byte_by_byte() {
    assert!(comes_before("a", "b"));
    assert!(!comes_before("b", "a"));
    assert!(!comes_before("a", "a"));
    assert!(comes_before("", "a"));
    assert!(!comes_before("a", ""));
    assert!(!comes_before("", ""));
    assert!(comes_before("a", "ab"));
    assert!(!comes_before("ab", "a"));
    assert!(comes_before("B", "a"));
    assert!(comes_before("a.txt", "a/"));
    assert!(comes_before("z", "ä"));
}

#[test]
fn sort_names_puts_names_in_ascending_order() {
    assert_eq!(sort_names(names(&["b", "a", "c"])), names(&["a", "b", "c"]));
    assert_eq!(sort_names(names(&["b", "ab", "a", "B"])), names(&["B", "a", "ab", "b"]));
    assert_eq!(sort_names(names(&["x", "x"])), names(&["x", "x"]));
    assert_eq!(sort_names(Vec::new()), Vec::<String>::new());
}

#[test]
fn list_is_in_ascending_order_whatever_the_order_of_writing() {
    let mut store = MemStore::new();
    let base = empty_tree(&mut store);
    let files = [staged("m", "1"), staged("z", "2"), staged("a/x", "3"), staged("b", "4")];
    let tree = apply(&mut store, base, &files, &[]).unwrap();
    assert_eq!(list(&store, tree, "").unwrap(), names(&["a", "b", "m", "z"]));
}
