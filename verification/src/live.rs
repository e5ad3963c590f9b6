//! Values a render builder reads *after* it was captured.
//!
//! A widget's render builder is a closure captured long before it runs, with
//! no access to the world. A value written by something in the schedule and
//! read by such a builder travels through a shared cell the closure captured.
//! Relaxed ordering is enough: each cell is independent, and a builder reading
//! a value one frame stale draws one frame stale.
//!
//! What a cell holds at any moment depends on every other holder of it, so
//! nothing is stated of the values the cells hand back. What a store does with
//! the value the cell held before it is stated, by [`changed`] and
//! [`bits_changed`], which the stores call with that previous value.

use std::sync::atomic::{AtomicBool, Ordering};

use vstd::prelude::*;

verus! {

/// Whether storing `v` over `previous` is a change.
pub fn changed(previous: bool, v: bool) -> (r: bool)
    ensures
        r == (previous != v),
{
    previous != v
}

/// Whether storing the bit pattern `v` over `previous` is a change. Bitwise,
/// so for an `f32` stored as its bits `NaN` and `-0.0` compare as their
/// representations: a reader asks whether the bits it reads changed.
pub fn bits_changed(previous: u32, v: u32) -> (r: bool)
    ensures
        r == (previous != v),
{
    previous != v
}

/// One shared `bool`.
#[derive(Debug, Default)]
pub struct LiveBool(AtomicBool);

impl LiveBool {
    /// A cell holding `v`.
    pub fn new(v: bool) -> Self {
        Self(AtomicBool::new(v))
    }

    /// The current contents.
    pub fn get(&self) -> bool {
        self.0.load(Ordering::Relaxed)
    }

    /// Store `v`, reporting whether it differed from what was there.
    pub fn replace(&self, v: bool) -> bool {
        let previous = self.0.swap(v, Ordering::Relaxed);
        changed(previous, v)
    }
}

} // verus!
