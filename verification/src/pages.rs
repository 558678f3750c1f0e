//! Pages: a file under `files/` for the content of each, and a JSON document
//! under `meta/` for its title.

use crate::batch::{batch_ops, StagedFile, TreeOp};
use crate::error::StoreError;
use crate::history::{CommitInfo, CommitText};
use crate::order::ascending;
use crate::path::{name_views, segments, valid_path};
use crate::repo::{commit_files, get_dir, get_file, MAIN_REF};
use crate::store::ObjectStore;
use vstd::pervasive::unreached;
use vstd::prelude::*;
use vstd::string::*;
use vstd::utf8::encode_utf8;

verus! {

/// The JSON string literal that stands for a text, quotes and escapes included.
pub uninterp spec fn json_string(text: Seq<char>) -> Seq<char>;

/// Calls `serde_json::to_string` on a string slice. The call always gives a
/// text: a string is written through an encoder that has no error of its own,
/// into a vector, which takes every write. The text is the JSON string
/// literal for the argument and depends on the argument alone; the contract
/// gives it the name `json_string` and says nothing more of it.
#[verifier::external_body]
fn json_quote(text: &str) -> (r: Option<String>)
    ensures
        r is Some,
        r matches Some(quoted) ==> quoted@ == json_string(text@),
{
    serde_json::to_string(text).ok()
}

/// Where the content of the page `path` is kept.
pub open spec fn files_path(path: Seq<char>) -> Seq<char> {
    "files/"@ + path
}

/// Where the metadata of the page `path` is kept.
pub open spec fn meta_path(path: Seq<char>) -> Seq<char> {
    "meta/"@ + path + ".json"@
}

/// The metadata document with the given JSON literals for title and path.
pub open spec fn metadata_text(title: Seq<char>, path: Seq<char>) -> Seq<char> {
    "{\"title\":"@ + title + ",\"path\":"@ + path + "}"@
}

/// The metadata document of a page with this title and path.
pub open spec fn metadata_json(title: Seq<char>, path: Seq<char>) -> Seq<char> {
    metadata_text(json_string(title), json_string(path))
}

/// The path of the file that holds the content of the page `path`.
pub fn content_path(path: &str) -> (r: String)
    ensures
        r@ == files_path(path@),
{
    let mut out = String::from_str("files/");
    out.append(path);
    out
}

/// The path of the file that holds the metadata of the page `path`.
pub fn metadata_path(path: &str) -> (r: String)
    ensures
        r@ == meta_path(path@),
{
    let mut out = String::from_str("meta/");
    out.append(path);
    out.append(".json");
    out
}

/// Puts the JSON literals of a title and a path together into a metadata document.
pub fn metadata_document(title: &str, path: &str) -> (r: String)
    ensures
        r@ == metadata_text(title@, path@),
{
    let mut out = String::from_str("{\"title\":");
    out.append(title);
    out.append(",\"path\":");
    out.append(path);
    out.append("}");
    out
}

/// What is known of a page beside its content.
#[derive(Debug)]
pub struct Metadata {
    pub title: String,
    pub path: String,
}

impl Metadata {
    /// The title of the page.
    pub fn title(&self) -> (r: String)
        ensures
            r@ == self.title@,
    {
        self.title.clone()
    }

    /// The path of the page.
    pub fn path(&self) -> (r: String)
        ensures
            r@ == self.path@,
    {
        self.path.clone()
    }

    /// The metadata as a JSON document: an object with the title and the path, in this order.
    pub fn to_json(&self) -> (r: String)
        ensures
            r@ == metadata_json(self.title@, self.path@),
    {
        let title = match json_quote(self.title.as_str()) {
            Some(title) => title,
            None => unreached(),
        };
        let path = match json_quote(self.path.as_str()) {
            Some(path) => path,
            None => unreached(),
        };
        metadata_document(title.as_str(), path.as_str())
    }
}

/// A page to write: its content, its title, and where it goes.
#[derive(Debug)]
pub struct PageUpdate {
    pub content: String,
    pub title: String,
    pub path: String,
}

/// The two changes that write one page: its content, then its metadata.
pub open spec fn page_puts(update: PageUpdate) -> Seq<TreeOp> {
    seq![
        TreeOp::Put { path: files_path(update.path@), content: encode_utf8(update.content@) },
        TreeOp::Put {
            path: meta_path(update.path@),
            content: encode_utf8(metadata_json(update.title@, update.path@)),
        },
    ]
}

/// The changes that write the pages `updates`, in order.
pub open spec fn pages_puts(updates: Seq<PageUpdate>) -> Seq<TreeOp>
    decreases updates.len(),
{
    if updates.len() == 0 {
        Seq::empty()
    } else {
        pages_puts(updates.drop_last()) + page_puts(updates.last())
    }
}

/// The changes that remove the pages `removed`, in order: for each page its
/// content, then its metadata.
pub open spec fn pages_takes(removed: Seq<String>) -> Seq<TreeOp>
    decreases removed.len(),
{
    if removed.len() == 0 {
        Seq::empty()
    } else {
        pages_takes(removed.drop_last()) + seq![
            TreeOp::Take { path: files_path(removed.last()@) },
            TreeOp::Take { path: meta_path(removed.last()@) },
        ]
    }
}

/// The files to stage for the pages `updates`: for each page its content
/// under `files/`, then its metadata under `meta/`.
pub fn stage_pages(updates: &[PageUpdate]) -> (r: Vec<StagedFile>)
    ensures
        batch_ops(r@, Seq::<String>::empty()) == pages_puts(updates@),
{
    let mut files: Vec<StagedFile> = Vec::new();
    let mut i: usize = 0;
    proof {
        assert(updates@.take(0) =~= Seq::<PageUpdate>::empty());
        assert(batch_ops(files@, Seq::<String>::empty()) =~= Seq::<TreeOp>::empty());
    }
    while i < updates.len()
        invariant
            0 <= i <= updates@.len(),
            batch_ops(files@, Seq::<String>::empty()) == pages_puts(updates@.take(i as int)),
        decreases updates@.len() - i,
    {
        let update = &updates[i];
        let meta = Metadata { title: update.title.clone(), path: update.path.clone() };
        proof {
            assert(updates@.take(i + 1).drop_last() =~= updates@.take(i as int));
            assert(updates@.take(i + 1).last() == updates@[i as int]);
        }
        let document = meta.to_json();
        let ghost before = files@;
        files.push(
            StagedFile { content: update.content.clone(), path: content_path(update.path.as_str()) },
        );
        files.push(StagedFile { content: document, path: metadata_path(update.path.as_str()) });
        proof {
            assert(batch_ops(files@, Seq::<String>::empty()) =~= batch_ops(
                before,
                Seq::<String>::empty(),
            ) + page_puts(updates@[i as int]));
        }
        i = i + 1;
    }
    proof {
        assert(updates@.take(updates@.len() as int) =~= updates@);
    }
    files
}

/// The paths to remove for the pages `removed`: for each page its content
/// under `files/`, then its metadata under `meta/`.
pub fn removed_paths(removed: &[String]) -> (r: Vec<String>)
    ensures
        batch_ops(Seq::<StagedFile>::empty(), r@) == pages_takes(removed@),
{
    let mut paths: Vec<String> = Vec::new();
    let mut i: usize = 0;
    proof {
        assert(removed@.take(0) =~= Seq::<String>::empty());
        assert(batch_ops(Seq::<StagedFile>::empty(), paths@) =~= Seq::<TreeOp>::empty());
    }
    while i < removed.len()
        invariant
            0 <= i <= removed@.len(),
            batch_ops(Seq::<StagedFile>::empty(), paths@) == pages_takes(removed@.take(i as int)),
        decreases removed@.len() - i,
    {
        let ghost before = paths@;
        proof {
            assert(removed@.take(i + 1).drop_last() =~= removed@.take(i as int));
            assert(removed@.take(i + 1).last() == removed@[i as int]);
        }
        paths.push(content_path(removed[i].as_str()));
        paths.push(metadata_path(removed[i].as_str()));
        proof {
            assert(batch_ops(Seq::<StagedFile>::empty(), paths@) =~= batch_ops(
                Seq::<StagedFile>::empty(),
                before,
            ) + seq![
                TreeOp::Take { path: files_path(removed@[i as int]@) },
                TreeOp::Take { path: meta_path(removed@[i as int]@) },
            ]);
        }
        i = i + 1;
    }
    proof {
        assert(removed@.take(removed@.len() as int) =~= removed@);
    }
    paths
}

/// A page of the current snapshot.
#[derive(Debug)]
pub struct Page {
    pub path: String,
}

impl Page {
    /// The content of the page: the bytes of its file under `files/`.
    pub fn content<S: ObjectStore>(&self, store: &S) -> (r: Result<Vec<u8>, StoreError>)
        requires
            store.inv(),
        ensures
            match r {
                Ok(bytes) => store@.file_of(MAIN_REF@, files_path(self.path@)) == Some(bytes@),
                Err(e) => e == StoreError::StoreFailure && !store.reliable() || store@.file_of(
                    MAIN_REF@,
                    files_path(self.path@),
                ) is None && e == store@.read_error(MAIN_REF@, files_path(self.path@)),
            },
    {
        let path = content_path(self.path.as_str());
        get_file(path.as_str(), store)
    }

    /// The metadata of the page as it is stored: the bytes of its JSON
    /// document under `meta/`.
    pub fn meta<S: ObjectStore>(&self, store: &S) -> (r: Result<Vec<u8>, StoreError>)
        requires
            store.inv(),
        ensures
            match r {
                Ok(bytes) => store@.file_of(MAIN_REF@, meta_path(self.path@)) == Some(bytes@),
                Err(e) => e == StoreError::StoreFailure && !store.reliable() || store@.file_of(
                    MAIN_REF@,
                    meta_path(self.path@),
                ) is None && e == store@.read_error(MAIN_REF@, meta_path(self.path@)),
            },
    {
        let path = metadata_path(self.path.as_str());
        get_file(path.as_str(), store)
    }
}

/// The views of the paths of `pages`.
pub open spec fn page_paths(pages: Seq<Page>) -> Seq<Seq<char>> {
    Seq::new(pages.len(), |i: int| pages[i].path@)
}

/// The queries on the pages of the current snapshot.
#[derive(Debug)]
pub struct QueryRoot;

impl QueryRoot {
    /// The page at `path`, whether or not it exists.
    pub fn page(&self, path: String) -> (r: Page)
        ensures
            r.path == path,
    {
        Page { path }
    }

    /// Every page of the current snapshot: one for each name under `files`,
    /// in ascending order.
    pub fn pages<S: ObjectStore>(&self, store: &S) -> (r: Result<Vec<Page>, StoreError>)
        requires
            store.inv(),
        ensures
            match r {
                Ok(pages) => ascending(page_paths(pages@)) && page_paths(pages@).no_duplicates()
                    && store@.names_of(MAIN_REF@, "files"@) == Some(page_paths(pages@).to_set()),
                Err(e) => e == StoreError::StoreFailure && !store.reliable() || store@.names_of(
                    MAIN_REF@,
                    "files"@,
                ) is None && e == StoreError::NotFound,
            },
    {
        proof {
            lemma_files_is_one_name();
        }
        let names = match get_dir("files", store) {
            Ok(names) => names,
            Err(e) => {
                return Err(e);
            },
        };
        let mut pages: Vec<Page> = Vec::new();
        let mut i: usize = 0;
        while i < names.len()
            invariant
                0 <= i <= names@.len(),
                pages@.len() == i,
                forall|k: int| 0 <= k < i ==> (#[trigger] pages@[k]).path@ == names@[k]@,
            decreases names@.len() - i,
        {
            pages.push(Page { path: names[i].clone() });
            i = i + 1;
        }
        proof {
            assert(page_paths(pages@) =~= name_views(names@));
        }
        Ok(pages)
    }
}

/// The path `files` is well formed and has the one segment `files`.
pub proof fn lemma_files_is_one_name()
    ensures
        valid_path("files"@),
        segments("files"@) == seq!["files"@],
{
    reveal_strlit("files");
    crate::path::lemma_first_slash_is("files"@, 5);
    assert(crate::path::split("files"@) =~= seq!["files"@]);
    assert(segments("files"@) =~= seq!["files"@]);
}

/// The address under which changes to pages are recorded.
pub const PAGE_AUTHOR: &'static str = "test@peori.space";

/// The changes that one call of `MutationRoot::commit` makes, in order:
/// every page to write, then every page to remove.
pub open spec fn page_ops(updates: Seq<PageUpdate>, removed: Seq<String>) -> Seq<TreeOp> {
    pages_puts(updates) + pages_takes(removed)
}

/// The changes to the pages of the current snapshot.
#[derive(Debug)]
pub struct MutationRoot;

impl MutationRoot {
    /// Writes the pages `updated`, removes the pages `removed`, and records
    /// the result as the next snapshot, with `message`. Gives `true` once the
    /// snapshot is recorded, and never `false`.
    ///
    /// Where there is no snapshot yet the changes start from the empty tree,
    /// and the call records the first snapshot.
    pub fn commit<S: ObjectStore>(
        &self,
        store: &mut S,
        message: String,
        updated: Vec<PageUpdate>,
        removed: Vec<String>,
        timestamp: i64,
    ) -> (r: Result<bool, StoreError>)
        requires
            old(store).inv(),
        ensures
            final(store).inv(),
            final(store).reliable() == old(store).reliable(),
            old(store)@.within(final(store)@),
            match r {
                Ok(done) => {
                    &&& done
                    &&& final(store)@.head(MAIN_REF@) is Some
                    &&& old(store)@.recorded(
                        final(store)@,
                        MAIN_REF@,
                        (CommitText {
                            message: message@,
                            author: PAGE_AUTHOR@,
                            email: PAGE_AUTHOR@,
                        }),
                        timestamp,
                        page_ops(updated@, removed@),
                        final(store)@.head(MAIN_REF@)->0,
                    )
                },
                Err(e) => old(store)@.turned_down(
                    final(store)@,
                    old(store).reliable(),
                    MAIN_REF@,
                    page_ops(updated@, removed@),
                    e,
                ),
            },
    {
        let files = stage_pages(updated.as_slice());
        let paths = removed_paths(removed.as_slice());
        let info = CommitInfo {
            message,
            author: String::from_str(PAGE_AUTHOR),
            email: String::from_str(PAGE_AUTHOR),
        };
        proof {
            assert(batch_ops(files@, paths@) =~= batch_ops(files@, Seq::<String>::empty())
                + batch_ops(Seq::<StagedFile>::empty(), paths@));
        }
        match commit_files(&info, files.as_slice(), paths.as_slice(), store, timestamp) {
            Ok(id) => {
                proof {
                    assert(store@.head(MAIN_REF@) == Some(id));
                }
                Ok(true)
            },
            Err(e) => Err(e),
        }
    }
}

} // verus!
