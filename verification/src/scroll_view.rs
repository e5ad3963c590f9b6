//! Scrolling: which axes a viewport scrolls on, and the axis vocabulary the
//! scrollbar geometry is written in.

pub mod geometry;
pub mod scrollbar;

use vstd::prelude::*;

pub use geometry::Axis;
pub use scrollbar::ScrollbarSlot;

verus! {

/// What to do with content that does not fit, per axis.
///
/// Both values clip; they differ in whether the axis can be scrolled at all.
#[derive(Debug, Clone, Copy, PartialEq, Eq, Default)]
pub enum Overflow {
    /// Measure the content against the viewport on this axis and clip whatever
    /// still overflows. No scrollbar, and the wheel does nothing.
    #[default]
    Hidden,
    /// Measure the content unbounded on this axis, then clip and scroll it.
    Auto,
}

impl Overflow {
    /// Whether this axis may scroll at all.
    pub fn scrolls(self) -> (r: bool)
        ensures
            r <==> self == Overflow::Auto,
    {
        match self {
            Overflow::Auto => true,
            Overflow::Hidden => false,
        }
    }
}

/// Which axes scroll, `[x, y]`, resolved for the geometry layer.
#[derive(Clone, Copy, PartialEq, Eq, Debug)]
pub struct ScrollAxes(pub [bool; 2]);

impl ScrollAxes {
    /// The axes of a viewport whose horizontal and vertical overflow are
    /// `overflow_x` and `overflow_y`.
    pub fn of(overflow_x: Overflow, overflow_y: Overflow) -> (r: ScrollAxes)
        ensures
            r.0[0] == (overflow_x == Overflow::Auto),
            r.0[1] == (overflow_y == Overflow::Auto),
    {
        ScrollAxes([overflow_x.scrolls(), overflow_y.scrolls()])
    }
}

} // verus!
