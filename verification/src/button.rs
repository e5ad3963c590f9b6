//! The button's declared data.

use vstd::prelude::*;

verus! {

/// The button's label text.
#[derive(Clone, PartialEq, Eq, Debug)]
pub struct ButtonLabel(pub String);

} // verus!
