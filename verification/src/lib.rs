//! Duplicate-file detection by content.
//!
//! Files are bucketed by byte size first and by a BLAKE3 fingerprint of their
//! content second, so that only files that share a size are ever hashed.

pub mod cli;
pub mod file_index;
pub mod grouping;
pub mod hash_index;
pub mod hasher;
pub mod memory;
pub mod size_index;
pub mod walker;

pub use cli::Cli;
pub use file_index::{FileIndexBuilder, FileIndexStorage};
pub use hash_index::{FileGroup, HashBasedFileIndex};
pub use hasher::hash_file_content;
pub use size_index::SizeBasedFileIndex;
