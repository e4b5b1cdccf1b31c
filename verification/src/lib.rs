//! Core engine of a duplicate-file finder.
//!
//! The engine locates byte-identical files inside one directory tree, or
//! between a base tree and external compare trees, using a bounded-cost
//! content fingerprint (length, head hash, optional tail hash).  Groups of
//! duplicates are ordered by a retention heuristic so that the member at
//! index zero is the one to keep, and the remaining members are counted and
//! sized for reporting or removal.
//!
//! All directory walking, file reading and deletion happens outside this
//! crate; callers hand the engine plain scan records and content samples and
//! receive duplicate groups, rendered report lines and removal plans back.

pub mod cache;
pub mod config;
pub mod fingerprint;
pub mod format;
pub mod listing;
pub mod meta;
pub mod multiple;
pub mod opt;
pub mod rank;
pub mod single;
pub mod text;
