//! Core types shared by the Carbon-style entry points.

use vstd::prelude::*;

verus! {

/// Status result of the Carbon-style calls; zero is success.
pub type OSStatus = i32;

} // verus!
