//! Which layout a container applies, and the CSS flexbox vocabulary its
//! children are distributed with.

use vstd::prelude::*;

verus! {

/// Which layout a container applies.
#[derive(Clone, Copy, PartialEq, Eq, Debug)]
pub enum LayoutKind {
    Container,
    Column,
    Row,
}

impl LayoutKind {
    /// Index into an `[x, y]` pair of the axis children stack along.
    /// Meaningless for `Container`, which stacks nothing.
    pub fn main_axis(&self) -> (r: usize)
        ensures
            r == (match *self {
                LayoutKind::Row => 0usize,
                LayoutKind::Column | LayoutKind::Container => 1usize,
            }),
    {
        match self {
            LayoutKind::Row => 0,
            LayoutKind::Column | LayoutKind::Container => 1,
        }
    }
}

/// CSS `justify-content` subset: how leftover main-axis space is distributed.
/// Never changes a child's own size, only repositions. Default matches CSS's
/// `flex-start`.
#[derive(Clone, Copy, PartialEq, Eq, Debug, Default)]
pub enum JustifyContent {
    #[default]
    Start,
    End,
    Center,
    SpaceBetween,
    SpaceAround,
}

/// CSS `align-items` subset: cross-axis placement of each child within the
/// container's cross-axis size. Default matches CSS's `stretch`.
#[derive(Clone, Copy, PartialEq, Eq, Debug, Default)]
pub enum AlignItems {
    #[default]
    Stretch,
    Start,
    End,
    Center,
}

} // verus!
