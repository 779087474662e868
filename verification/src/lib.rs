//! Guest-API runtime support library.
//!
//! The heart of the crate is [`ns_dictionary::DictionaryHostObject`], an
//! associative container keyed by a caller-supplied hash and equality
//! predicate rather than by a structural hash of the key's bytes.  Keys and
//! values are opaque reference-counted handles managed by the object registry
//! in [`objc`]; the remaining modules carry the pure decision logic of the
//! framework entry points that surround the container.

#![allow(nonstandard_style)]

use vstd::prelude::*;

pub mod audio_file;
pub mod audio_session;
pub mod carbon_core;
pub mod cf_bundle;
pub mod cf_dictionary;
pub mod cf_string;
pub mod cg_color_space;
pub mod core_audio_types;
pub mod dirent;
pub mod ns_bundle;
pub mod ns_dictionary;
pub mod ns_locale;
pub mod ns_string;
pub mod objc;
pub mod unistd;

verus! {

/// Host-side state of the framework and libc shims, one field per module
/// that keeps any.
pub struct FrameworkState {
    pub audio_file: audio_file::State,
    pub dirent: dirent::State,
    pub ns_bundle: ns_bundle::State,
    pub ns_locale: ns_locale::State,
}

impl FrameworkState {
    /// Fresh state: nothing open, nothing cached.
    pub fn new() -> (r: FrameworkState)
        ensures
            r.audio_file.audio_files@.len() == 0,
            r.dirent.open_dirs@.len() == 0,
            r.ns_bundle.main_bundle.is_none(),
            r.ns_locale.current_locale.is_none(),
            r.ns_locale.preferred_languages.is_none(),
    {
        FrameworkState {
            audio_file: audio_file::State::new(),
            dirent: dirent::State::new(),
            ns_bundle: ns_bundle::State::new(),
            ns_locale: ns_locale::State::new(),
        }
    }
}

} // verus!
