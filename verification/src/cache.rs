//! A record shape reserved for scans whose results would be cached between
//! runs; persisting and reusing scan results is out of scope for this
//! engine, so only the shape is kept.

use vstd::prelude::*;

verus! {

/// What a persisted scan entry would carry for one file: its path, its
/// byte length, and a placeholder for the content hash.
pub struct CachedFileState {
    /// The recorded path.
    pub path: String,
    /// The recorded byte length.
    pub len: u64,
    /// Placeholder for the recorded content hash.
    pub hash: (),
}

} // verus!
