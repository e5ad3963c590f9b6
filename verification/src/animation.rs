//! What a widget declares about fading out when the view stops declaring it.

use std::time::Duration;

use vstd::prelude::*;

use crate::easing::Easing;

verus! {

/// Declares that this entity fades out (to fully transparent) when the view
/// stops declaring it, instead of vanishing at once: over `duration`, along
/// `easing`.
#[derive(Clone, Copy, Debug)]
pub struct ExitFade {
    pub duration: Duration,
    pub easing: Easing,
}

} // verus!
