//! Two-generation value store for the leapfrog integrator.
//!
//! Each particle keeps the acceleration from the latest force evaluation
//! and the one from the evaluation before it: the velocity update averages
//! the two. A force evaluation must first move the current slot into the
//! previous slot for every particle, then fill the current slot afresh.

use vstd::prelude::*;

verus! {

/// A pair of slots holding the current and the previous generation of a
/// value. Only two generations ever matter, so the history is a fixed
/// two-slot store with an explicit rotation step, not a ring buffer.
#[derive(Clone, Copy, Debug)]
pub struct TwoSlot<A> {
    /// The most recently computed generation.
    pub cur: A,
    /// The generation computed before `cur`.
    pub prev: A,
}

impl<A: Copy> TwoSlot<A> {
    /// Builds a store holding `cur` as the current generation and `prev`
    /// as the one before it.
    pub fn new(cur: A, prev: A) -> (r: TwoSlot<A>)
        ensures
            r.cur == cur,
            r.prev == prev,
    {
        TwoSlot { cur, prev }
    }

    /// Retires the current generation to the previous slot and installs
    /// `fresh` as the new current generation. The generation that was in
    /// the previous slot is discarded.
    pub fn rotate(&mut self, fresh: A)
        ensures
            final(self).prev == old(self).cur,
            final(self).cur == fresh,
    {
        self.prev = self.cur;
        self.cur = fresh;
    }
}

} // verus!
