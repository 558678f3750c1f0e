use treestore::{
    auth, commit, content_path, get_dir, get_file, join_lines, metadata_document, metadata_path,
    removed_paths, stage_pages, CommitInfo, EntrySet, MemStore, Metadata, MutationRoot,
    ObjectStore, Page, PageUpdate, QueryRoot, StoreError, UserInfo, MAIN_REF,
    PAGE_AUTHOR,
};

fn store_with_first_commit() -> MemStore {
    let mut store = MemStore::new();
    let tree = store.put_tree(EntrySet::new()).unwrap();
    let info = CommitInfo {
        message: "start".to_string(),
        author: "ann".to_string(),
        email: "ann@example.org".to_string(),
    };
    commit(&mut store, MAIN_REF, tree, &info, 1).unwrap();
    store
}

fn update(path: &str, title: &str, content: &str) -> PageUpdate {
    PageUpdate { content: content.to_string(), title: title.to_string(), path: path.to_string() }
}

#[test]
fn auth_needs_both_the_user_and_the_email() {
    let user = auth(Some("ann".to_string()), Some("ann@example.org".to_string())).unwrap();
    assert_eq!(user.user, "ann");
    assert_eq!(user.email, "ann@example.org");
    assert!(auth(Some("ann".to_string()), None).is_none());
    assert!(auth(None, Some("ann@example.org".to_string())).is_none());
    assert!(auth(None, None).is_none());
}

#[test]
fn a_user_signs_commits_with_name_and_email() {
    let user = UserInfo { user: "ann".to_string(), email: "ann@example.org".to_string() };
    let info = user.clone().commit_info("fix".to_string());
    assert_eq!(info.message, "fix");
    assert_eq!(info.author, "ann");
    assert_eq!(info.email, "ann@example.org");
}

#[test]
fn join_lines_puts_one_name_on_each_line() {
    assert_eq!(join_lines(&vec![]), "");
    assert_eq!(join_lines(&vec!["a".to_string()]), "a");
    assert_eq!(join_lines(&vec!["a".to_string(), "b".to_string(), "c".to_string()]), "a\nb\nc");
    assert_eq!(join_lines(&vec!["".to_string(), "".to_string()]), "\n");
}

#[test]
fn page_paths_live_under_files_and_meta() {
    assert_eq!(content_path("intro"), "files/intro");
    assert_eq!(content_path("a/b"), "files/a/b");
    assert_eq!(metadata_path("intro"), "meta/intro.json");
    assert_eq!(metadata_path("a/b"), "meta/a/b.json");
}

#[test]
fn metadata_document_is_title_then_path() {
    assert_eq!(metadata_document("\"T\"", "\"p\""), "{\"title\":\"T\",\"path\":\"p\"}");
}

#[test]
fn metadata_is_encoded_as_json() {
    let meta = Metadata { title: "A \"quoted\" title\n".to_string(), path: "a\\b".to_string() };
    assert_eq!(meta.title(), "A \"quoted\" title\n");
    assert_eq!(meta.path(), "a\\b");
    assert_eq!(
        meta.to_json(),
        "{\"title\":\"A \\\"quoted\\\" title\\n\",\"path\":\"a\\\\b\"}"
    );
    let plain = Metadata { title: "Intro".to_string(), path: "intro".to_string() };
    assert_eq!(plain.to_json(), "{\"title\":\"Intro\",\"path\":\"intro\"}");
}

#[test]
fn each_page_is_staged_as_content_then_metadata() {
    let files = stage_pages(&[update("p", "P", "text"), update("q", "Q", "more")]);
    let got: Vec<(&str, &str)> =
        files.iter().map(|f| (f.path.as_str(), f.content.as_str())).collect();
    assert_eq!(
        got,
        vec![
            ("files/p", "text"),
            ("meta/p.json", "{\"title\":\"P\",\"path\":\"p\"}"),
            ("files/q", "more"),
            ("meta/q.json", "{\"title\":\"Q\",\"path\":\"q\"}"),
        ]
    );
    assert_eq!(stage_pages(&[]).len(), 0);
}

#[test]
fn each_removed_page_loses_content_and_metadata() {
    assert_eq!(
        removed_paths(&["p".to_string(), "d/q".to_string()]),
        vec!["files/p", "meta/p.json", "files/d/q", "meta/d/q.json"]
    );
    assert_eq!(removed_paths(&[]), Vec::<String>::new());
}

#[test]
fn committed_pages_can_be_read_back() {
    let mut store = store_with_first_commit();
    let done = MutationRoot.commit(
        &mut store,
        "two pages".to_string(),
        vec![update("p", "P", "text"), update("q", "Q", "more")],
        vec![],
        9,
    );
    assert_eq!(done, Ok(true));
    let mut pages: Vec<String> =
        QueryRoot.pages(&store).unwrap().into_iter().map(|p| p.path).collect();
    pages.sort();
    assert_eq!(pages, vec!["p", "q"]);
    let page = QueryRoot.page("p".to_string());
    assert_eq!(page.path, "p");
    assert_eq!(page.content(&store).unwrap(), b"text".to_vec());
    assert_eq!(page.meta(&store).unwrap(), b"{\"title\":\"P\",\"path\":\"p\"}".to_vec());
    assert_eq!(get_file("files/q", &store).unwrap(), b"more".to_vec());
    let absent = Page { path: "r".to_string() };
    assert_eq!(absent.content(&store), Err(StoreError::NotFound));
    assert_eq!(absent.meta(&store), Err(StoreError::NotFound));

    let head = store.read_ref(MAIN_REF).unwrap().unwrap();
    let node = store.get_history_node(head).unwrap();
    assert_eq!(node.message, "two pages");
    assert_eq!(node.author, PAGE_AUTHOR);
    assert_eq!(node.email, PAGE_AUTHOR);
    assert_eq!(node.timestamp, 9);
}

#[test]
fn removing_the_last_page_removes_both_directories() {
    let mut store = store_with_first_commit();
    let done =
        MutationRoot.commit(&mut store, "add".to_string(), vec![update("p", "P", "t")], vec![], 2);
    assert_eq!(done, Ok(true));
    let done = MutationRoot.commit(&mut store, "drop".to_string(), vec![], vec!["p".to_string()], 3);
    assert_eq!(done, Ok(true));
    assert_eq!(get_dir("", &store).unwrap(), Vec::<String>::new());
    assert_eq!(QueryRoot.pages(&store).map(|p| p.len()), Err(StoreError::NotFound));
}

#[test]
fn a_page_update_and_removal_in_one_call_ends_removed() {
    let mut store = store_with_first_commit();
    let done = MutationRoot.commit(
        &mut store,
        "both".to_string(),
        vec![update("p", "P", "t")],
        vec!["p".to_string()],
        2,
    );
    assert_eq!(done, Ok(true));
    assert_eq!(QueryRoot.page("p".to_string()).content(&store), Err(StoreError::NotFound));
}

#[test]
fn removing_a_page_that_is_missing_fails_and_keeps_the_head() {
    let mut store = store_with_first_commit();
    let head = store.read_ref(MAIN_REF).unwrap();
    let done = MutationRoot.commit(&mut store, "m".to_string(), vec![], vec!["p".to_string()], 2);
    assert_eq!(done, Err(StoreError::NotFound));
    let done = MutationRoot.commit(
        &mut store,
        "m".to_string(),
        vec![update("bad//path", "T", "t")],
        vec![],
        2,
    );
    assert_eq!(done, Err(StoreError::InvalidPath));
    assert_eq!(store.read_ref(MAIN_REF).unwrap(), head);
}

#[test]
fn the_first_pages_can_be_committed_to_an_empty_store() {
    let mut store = MemStore::new();
    let done = MutationRoot.commit(
        &mut store,
        "start".to_string(),
        vec![update("p", "P \u{1} tab\t", "t")],
        vec![],
        1,
    );
    assert_eq!(done, Ok(true));
    let head = store.read_ref(MAIN_REF).unwrap().unwrap();
    assert_eq!(store.get_history_node(head).unwrap().parent, None);
    let page = QueryRoot.page("p".to_string());
    assert_eq!(page.content(&store).unwrap(), b"t".to_vec());
    assert_eq!(
        page.meta(&store).unwrap(),
        b"{\"title\":\"P \\u0001 tab\\t\",\"path\":\"p\"}".to_vec()
    );
}
