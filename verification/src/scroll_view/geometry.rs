//! The axis vocabulary scrollbar geometry is written in.

use vstd::prelude::*;

verus! {

/// Which axis a scrollbar runs along.
///
/// `X` is the horizontal bar (it runs along the bottom edge); `Y` is the
/// vertical one (along the right edge).
#[derive(Debug, Clone, Copy, PartialEq, Eq, Hash)]
pub enum Axis {
    X,
    Y,
}

impl Axis {
    /// Index into an `[x, y]` pair for this axis.
    pub open spec fn index(self) -> usize {
        match self {
            Axis::X => 0,
            Axis::Y => 1,
        }
    }

    /// Index into an `[x, y]` pair for this axis.
    pub fn main(self) -> (r: usize)
        ensures
            r == self.index(),
            r < 2,
    {
        match self {
            Axis::X => 0,
            Axis::Y => 1,
        }
    }

    /// Index into an `[x, y]` pair for the perpendicular axis.
    pub fn cross(self) -> (r: usize)
        ensures
            r == 1 - self.index(),
            r == self.other_spec().index(),
    {
        1 - self.main()
    }

    /// The perpendicular axis.
    pub open spec fn other_spec(self) -> Axis {
        match self {
            Axis::X => Axis::Y,
            Axis::Y => Axis::X,
        }
    }

    /// The perpendicular axis.
    pub fn other(self) -> (r: Axis)
        ensures
            r == self.other_spec(),
            r != self,
    {
        match self {
            Axis::X => Axis::Y,
            Axis::Y => Axis::X,
        }
    }
}

/// Taking the perpendicular axis twice gives back the axis, and the two axes
/// always index opposite halves of an `[x, y]` pair.
pub proof fn lemma_other_is_an_involution(axis: Axis)
    ensures
        axis.other_spec().other_spec() == axis,
        axis.other_spec().index() + axis.index() == 1,
{
}

} // verus!
