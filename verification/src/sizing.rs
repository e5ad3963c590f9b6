//! Cross-axis placement vocabulary shared by the containers and the per-item
//! `align_self` override.

use vstd::prelude::*;

verus! {

/// CSS `align-items` subset: cross-axis placement of each child within the
/// container's cross-axis size. Default matches CSS's `stretch`.
#[derive(Clone, Copy, PartialEq, Eq, Debug, Default)]
pub enum AlignItems {
    #[default]
    Stretch,
    Start,
    End,
    Center,
}

} // verus!
