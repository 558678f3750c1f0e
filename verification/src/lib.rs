//! A versioned, content-addressed store of files in a directory tree.
//!
//! Every blob, tree and history node is immutable and known by an id that
//! stands for its content. A batch of upserts and removals turns one tree
//! into another that shares every untouched directory with it, and a named
//! ref is moved to a new history node by compare-and-swap.

pub mod access;
pub mod batch;
pub mod change;
pub mod entry;
pub mod error;
pub mod history;
pub mod laws;
pub mod memory;
pub mod mutator;
pub mod order;
pub mod pages;
pub mod path;
pub mod reader;
pub mod repo;
pub mod store;

pub use access::{auth, join_lines, UserInfo};
pub use batch::{apply, StagedFile};
pub use entry::{EntryKind, EntrySet, Link, TreeEntry};
pub use error::StoreError;
pub use history::{commit, commit_on, CommitInfo};
pub use memory::MemStore;
pub use mutator::{remove, upsert};
pub use order::{comes_before, sort_names};
pub use pages::{
    content_path, metadata_document, metadata_path, removed_paths, stage_pages, Metadata,
    MutationRoot, Page, PageUpdate, QueryRoot, PAGE_AUTHOR,
};
pub use path::parse_path;
pub use reader::{find_entry, list, resolve};
pub use repo::{commit_batch, commit_files, get_dir, get_file, head_of, list_at, read_at, MAIN_REF};
pub use store::{HistoryNode, ObjectStore};
