//! The signal by which a worker tells the others that the search is over.
use std::sync::atomic::{AtomicBool, Ordering};
use vstd::prelude::*;

verus! {

/// A flag that search workers share.  It is a hint: a worker that reads it
/// late only samples a few candidates more.
pub struct StopSignal {
    flag: AtomicBool,
}

impl StopSignal {
    /// A signal that has not been raised.
    pub fn new() -> (signal: Self) {
        Self { flag: AtomicBool::new(false) }
    }

    /// Raises the signal.
    pub fn raise(&self) {
        self.flag.store(true, Ordering::Relaxed);
    }

    /// Whether the signal was seen raised.
    pub fn is_raised(&self) -> (raised: bool) {
        self.flag.load(Ordering::Relaxed)
    }
}

} // verus!
