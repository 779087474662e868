//! Host-side state of the locale class.

use vstd::prelude::*;
use crate::objc::ObjId;

verus! {

/// Framework state of the locale class: the lazily created current locale
/// and preferred-language list.
#[derive(Default)]
pub struct State {
    pub current_locale: Option<ObjId>,
    pub preferred_languages: Option<ObjId>,
}

impl State {
    /// Fresh state: nothing created yet.
    pub fn new() -> (r: State)
        ensures
            r.current_locale.is_none(),
            r.preferred_languages.is_none(),
    {
        State { current_locale: None, preferred_languages: None }
    }

    /// The locale state inside the framework state.
    pub fn get(framework_state: &mut crate::FrameworkState) -> (r: &mut State)
        ensures
            *r == old(framework_state).ns_locale,
            final(framework_state).ns_locale == *final(r),
            final(framework_state).audio_file == old(framework_state).audio_file,
            final(framework_state).dirent == old(framework_state).dirent,
            final(framework_state).ns_bundle == old(framework_state).ns_bundle,
    {
        &mut framework_state.ns_locale
    }
}

} // verus!
