//! Rust utilities for path handling and a purely memory based virtual filesystem.
pub mod strs;
pub mod errors;
pub mod path;
pub mod path_lemmas;
pub mod expand;
pub mod entry;
pub mod entry_iter;
pub mod entry_sort;
pub mod chmod;
pub mod chown;
pub mod memfs;
pub mod entries;
pub mod entries_lemmas;
pub mod entries_depth;
pub mod entries_order;
pub mod entries_siblings;
pub mod copy;
pub mod file;
