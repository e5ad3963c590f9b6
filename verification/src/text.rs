//! The `Text` widget's declared data.

use vstd::prelude::*;

verus! {

/// The displayed string.
#[derive(Clone, PartialEq, Eq, Debug)]
pub struct TextContent(pub String);

} // verus!
