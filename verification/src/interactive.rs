//! The configuration of a scan, however it was asked for.

use vstd::prelude::*;

verus! {

/// What one scan is to do.
#[derive(Debug)]
pub struct InteractiveConfig {
    /// The directory to scan.
    pub path: String,
    /// The smallest size to consider, in bytes.
    pub min_size: Option<u64>,
    /// The largest size to consider, in bytes.
    pub max_size: Option<u64>,
    /// Whether fingerprints are kept from run to run.
    pub use_cache: bool,
}

} // verus!
