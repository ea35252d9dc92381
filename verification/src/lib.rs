//! An in-memory, MVCC-aware region cache over a lock-free ordered map,
//! with the region worker that owns the physical lifecycle of cached and
//! on-disk key ranges.
//!
//! Reads open a snapshot pinned at a region, read timestamp and sequence
//! number, then run point reads and bidirectional, bounds-restricted
//! scans that see exactly the records visible at that sequence. Region
//! lifecycle events flow through the region manager, which admits, splits
//! and evicts regions and defers physical deletion until no live
//! snapshot could observe the data; the worker coalesces pending delete
//! ranges, sweeps the stale ones, and throttles snapshot ingestion
//! against write stall.

pub mod admin;
pub mod byteorder;
pub mod compact;
pub mod engine;
pub mod codec;
pub mod model;
pub mod read;
pub mod region_manager;
pub mod store;
pub mod worker;

use vstd::prelude::*;

verus! {

/// The largest sequence number a record may carry: sequence numbers are
/// packed into 56 bits inside an encoded internal key.
pub const MAX_SEQUENCE_NUMBER: u64 = 0x00ff_ffff_ffff_ffff;

} // verus!
