//! Keeps localized string resources consistent between a directory tree of
//! JSON files and a remote translation store.
//!
//! The library holds the rules of that work: flattening and rebuilding JSON
//! trees, overlaying translations onto existing files, assembling the
//! translation set of a directory scan, remapping language codes, and the
//! decisions of the batched push and of the pull. Reading and writing files,
//! talking to the store and drawing progress are left to the caller.

pub mod text;
pub mod str_map;
pub mod json;
pub mod flatten;
pub mod types;
pub mod client;
pub mod import_cmd;
pub mod language_mapping;
pub mod scanner;
pub mod sync_cmd;
pub mod config;
pub mod cli;
pub mod progress;
pub mod flatten_laws;
pub mod rebuild_laws;
