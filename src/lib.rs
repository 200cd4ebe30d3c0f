//! Reconstructing a captured corpus tree from a tar-structured archive.
//!
//! The library decides, entry by entry, what filesystem object an archive
//! entry becomes and where; the caller performs the operations it names.
//! `tree` models what those operations leave behind and proves the laws of
//! an export over that model.
pub mod archive;
pub mod config;
pub mod entry;
pub mod export;
pub mod path;
pub mod tree;
