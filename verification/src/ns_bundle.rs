//! Host-side state of the bundle class.

use vstd::prelude::*;
use crate::objc::ObjId;

verus! {

/// Framework state of the bundle class: the main bundle's instance once it
/// has been created.
#[derive(Default)]
pub struct State {
    pub main_bundle: Option<ObjId>,
}

impl State {
    /// Fresh state: no main bundle instance yet.
    pub fn new() -> (r: State)
        ensures
            r.main_bundle.is_none(),
    {
        State { main_bundle: None }
    }
}

} // verus!
