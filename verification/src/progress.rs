//! Lightweight progress reporting.
//!
//! A front-end hands the engine a shared [`Progress`] and polls it from another
//! thread while the work runs. The engine only does cheap relaxed atomic adds
//! on the hot path, so reporting costs essentially nothing. What the counters
//! mean is the engine's business and differs by operation (uncompressed bytes
//! fed in while compressing, bytes consumed while extracting).
use std::sync::atomic::AtomicU64;
use vstd::prelude::*;

verus! {

/// A shared, thread-safe progress counter. Its values are whatever the threads
/// sharing it last left there, so no contract speaks of them.
pub struct Progress {
    processed: AtomicU64,
    total: AtomicU64,
}

impl Progress {
    pub fn new() -> Progress {
        Progress { processed: AtomicU64::new(0), total: AtomicU64::new(0) }
    }

    /// Bytes processed so far.
    pub fn processed(&self) -> u64 {
        self.processed.load(std::sync::atomic::Ordering::Relaxed)
    }

    /// Total work expected, or `0` if not yet known.
    pub fn total(&self) -> u64 {
        self.total.load(std::sync::atomic::Ordering::Relaxed)
    }

    /// Record the expected total.
    pub fn set_total(&self, total: u64) {
        self.total.store(total, std::sync::atomic::Ordering::Relaxed);
    }

    /// Add to the processed count (wrapping, as atomics do).
    pub fn add(&self, bytes: u64) {
        self.processed.fetch_add(bytes, std::sync::atomic::Ordering::Relaxed);
    }
}

} // verus!
