//! Duplicate-file detection as a verified core.
//!
//! The library decides which files of a directory listing are duplicates of
//! one another. It never touches the file system: a caller hands it the
//! listing and the digests it asks for, and gets the groups back.
//!
//! A scan goes in three steps. The caller lists the tree as [`scanner::DirEntry`]
//! values and asks [`Scanner::hash_requests`] which files have to be read: the
//! candidates that share their size with another candidate and are not in the
//! cache. It fingerprints those, with [`hasher::Hasher`] or
//! [`utils::calculate_hash`]. [`Scanner::find_duplicates`] then groups the
//! candidates by size and fingerprint.
//!
//! - [`scanner`]: the filter, the scan and its definition in terms of
//!   sequences and maps.
//! - [`duplicates`]: the grouping, and what holds of every result.
//! - [`cache`]: the table of known fingerprints.
//! - [`hasher`] and [`utils`]: SHA-256 fingerprints, the hidden-file
//!   convention.
//! - [`laws`]: what holds of every scan.
//! - [`cli`] and [`interactive`]: the arguments and the configuration of a
//!   scan.

pub mod cache;
pub mod cli;
pub mod duplicates;
pub mod file_info;
pub mod hasher;
pub mod interactive;
pub mod laws;
pub mod scanner;
pub mod utils;

pub use cache::Cache;
pub use cli::Args;
pub use file_info::FileInfo;
pub use scanner::Scanner;
