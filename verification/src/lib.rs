//! Chronological playback for hierarchical array files.
//!
//! The crate turns a file of named, independently time-indexed datasets into a
//! single, strictly time-ordered stream of records.  It provides:
//!
//! - a storage adapter that gives a block-device style interface
//!   (sized reads at arbitrary offsets) over an abstract sequential reader;
//! - a timestamp index per playable dataset, mapping each timestamp to the
//!   records that share it;
//! - a chronological merge iterator over any subset of channels and any time
//!   range, scanning in bounded windows to cap memory;
//! - a backfill resolver returning the most recent records at or before a
//!   target time.
//!
//! Parsing of the on-disk array format itself is left to an external engine;
//! the host hands this crate plain values (dataset descriptors, timestamp
//! arrays, record indices) and receives plain values back.

pub mod catalog;
pub mod index;
pub mod loader;
pub mod merge;
pub mod messages;
pub mod records;
pub mod storage;
pub mod text;

use vstd::prelude::*;

verus! {

/// Failure of a read against the underlying byte source: a hard error from
/// the host reader, propagated as-is.  Short reads near the end of the data
/// are not errors.
#[derive(Clone, Copy, PartialEq, Eq, Structural, Debug)]
pub enum IoError {
    /// The underlying reader reported a hard failure.
    ReadFailed,
    /// A mutating operation was attempted on the read-only adapter.
    ReadOnly,
}

} // verus!
