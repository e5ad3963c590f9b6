//! The shape a `0.0..=1.0` progress is bent into before it is interpolated.

use vstd::prelude::*;

verus! {

/// An easing curve applied to the raw tween progress before interpolating.
#[derive(Clone, Copy, PartialEq, Debug)]
pub enum Easing {
    Linear,
    EaseInOut,
}

} // verus!
