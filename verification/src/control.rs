//! The pause flag shared by the dashboard and the crawl loop.
use std::sync::atomic::{AtomicBool, Ordering};
use std::sync::Arc;
use vstd::prelude::*;

verus! {

/// A pause switch whose clones share one lock-free flag. Every holder may
/// flip it at any time, so a read reports the flag as some holder last left
/// it; no clause here can promise a value beyond that.
#[derive(Clone, Default)]
pub struct RuntimeControl {
    paused: Arc<AtomicBool>,
}

impl RuntimeControl {
    /// Reads the shared flag.
    pub fn is_paused(&self) -> bool {
        self.paused.load(Ordering::Relaxed)
    }

    /// Sets the shared flag.
    pub fn pause(&self) {
        self.paused.store(true, Ordering::Relaxed);
    }

    /// Clears the shared flag.
    pub fn resume(&self) {
        self.paused.store(false, Ordering::Relaxed);
    }

    /// Flips the shared flag in one atomic step.
    pub fn toggle(&self) {
        self.paused.fetch_xor(true, Ordering::Relaxed);
    }
}

} // verus!
