//! Scrollbar widgets' data.

use vstd::prelude::*;

use super::geometry::Axis;

verus! {

/// Marks a scrollbar entity with the axis it belongs to.
#[derive(Clone, Copy, PartialEq, Eq, Debug)]
pub struct ScrollbarSlot(pub Axis);

} // verus!
