//! The times that a run of replacement searches took.
use std::time::Duration;
use vstd::prelude::*;

verus! {

/// Up to `ITER` times, in the order in which they were added.
#[derive(Debug)]
pub struct ReplacementStats<const ITER: usize> {
    pub times: Vec<Duration>,
}

impl<const ITER: usize> ReplacementStats<ITER> {
    pub fn new() -> (stats: Self)
        ensures
            stats.times@.len() == 0,
    {
        Self { times: Vec::with_capacity(ITER) }
    }

    pub fn add_entry(&mut self, time: Duration)
        ensures
            final(self).times@ == old(self).times@.push(time),
    {
        self.times.push(time);
    }

    pub fn at_capacity(&self) -> (full: bool)
        ensures
            full == (self.times.len() == ITER),
    {
        self.times.len() == ITER
    }

    pub fn clear(&mut self)
        ensures
            final(self).times@.len() == 0,
    {
        self.times.clear();
    }
}

} // verus!
