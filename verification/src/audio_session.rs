//! Decision logic of the audio session and audio-unit-graph entry points.
//!
//! The session properties are answered from fixed defaults; the audio unit
//! graph family is unimplemented and reports failure throughout, which the
//! guests this layer targets tolerate.

use vstd::prelude::*;
use crate::carbon_core::OSStatus;

verus! {

pub const kAudioSessionBadPropertySizeError: OSStatus = 0x2173697A;

pub const kAudioSessionProperty_OtherAudioIsPlaying: u32 = 0x6F746872;

pub const kAudioSessionProperty_AudioCategory: u32 = 0x61636174;

pub const kAudioSessionProperty_CurrentHardwareSampleRate: u32 = 0x63687372;

pub const kAudioSessionCategory_SoloAmbientSound: u32 = 0x736F6C6F;

/// A session property value to be written back to the guest.  The hardware
/// sample rate is carried as whole Hertz; the substrate writes it to guest
/// memory as an 8-byte floating-point value.
#[derive(Clone, Copy, PartialEq, Eq, Structural, Debug)]
pub enum SessionPropertyValue {
    OtherAudioIsPlaying(u32),
    AudioCategory(u32),
    CurrentHardwareSampleRateHz(u32),
}

/// Size in bytes of a supported session property's guest value.
pub open spec fn spec_session_property_size(in_id: u32) -> u32 {
    if in_id == kAudioSessionProperty_CurrentHardwareSampleRate {
        8
    } else {
        4
    }
}

/// Session setup is accepted and ignored.
pub fn AudioSessionInitialize() -> (r: OSStatus)
    ensures
        r == 0,
{
    0
}

/// Answer a session property: nothing else is audible, the category is the
/// solo-ambient default, and the hardware runs at 44100 Hz.  A caller
/// passing the wrong value size is turned away.
pub fn AudioSessionGetProperty(in_id: u32, io_data_size: u32) -> (r: (
    OSStatus,
    Option<SessionPropertyValue>,
))
    requires
        in_id == kAudioSessionProperty_OtherAudioIsPlaying || in_id
            == kAudioSessionProperty_AudioCategory || in_id
            == kAudioSessionProperty_CurrentHardwareSampleRate,
    ensures
        io_data_size != spec_session_property_size(in_id) ==> r == (
            kAudioSessionBadPropertySizeError,
            None::<SessionPropertyValue>,
        ),
        io_data_size == spec_session_property_size(in_id) ==> r.0 == 0 && r.1 == Some(
            if in_id == kAudioSessionProperty_OtherAudioIsPlaying {
                SessionPropertyValue::OtherAudioIsPlaying(0)
            } else if in_id == kAudioSessionProperty_AudioCategory {
                SessionPropertyValue::AudioCategory(kAudioSessionCategory_SoloAmbientSound)
            } else {
                SessionPropertyValue::CurrentHardwareSampleRateHz(44100)
            },
        ),
{
    let required_size: u32 = if in_id == kAudioSessionProperty_CurrentHardwareSampleRate {
        8
    } else {
        4
    };
    if io_data_size != required_size {
        return (kAudioSessionBadPropertySizeError, None);
    }
    if in_id == kAudioSessionProperty_OtherAudioIsPlaying {
        (0, Some(SessionPropertyValue::OtherAudioIsPlaying(0)))
    } else if in_id == kAudioSessionProperty_AudioCategory {
        (0, Some(SessionPropertyValue::AudioCategory(kAudioSessionCategory_SoloAmbientSound)))
    } else {
        (0, Some(SessionPropertyValue::CurrentHardwareSampleRateHz(44100)))
    }
}

/// Setting the audio category is accepted with the right value size and
/// otherwise turned away; the value itself is ignored for now.
pub fn AudioSessionSetProperty(in_id: u32, in_data_size: u32) -> (r: OSStatus)
    requires
        in_id == kAudioSessionProperty_AudioCategory,
    ensures
        in_data_size == 4 ==> r == 0,
        in_data_size != 4 ==> r == kAudioSessionBadPropertySizeError,
{
    if in_data_size != 4 {
        return kAudioSessionBadPropertySizeError;
    }
    0
}

/// Activation is accepted and ignored.
pub fn AudioSessionSetActive(_active: bool) -> (r: OSStatus)
    ensures
        r == 0,
{
    0
}

/// The audio unit graph family always reports failure.
pub fn NewAUGraph() -> (r: OSStatus)
    ensures
        r == -1,
{
    -1
}

pub fn DisposeAUGraph() -> (r: OSStatus)
    ensures
        r == -1,
{
    -1
}

pub fn AUGraphAddNode() -> (r: OSStatus)
    ensures
        r == -1,
{
    -1
}

pub fn AUGraphConnectNodeInput(
    _in_src_node: u32,
    _in_src_out_num: u32,
    _in_dest_node: u32,
    _in_dest_in_num: u32,
) -> (r: OSStatus)
    ensures
        r == -1,
{
    -1
}

pub fn AUGraphOpen() -> (r: OSStatus)
    ensures
        r == -1,
{
    -1
}

pub fn AUGraphStart() -> (r: OSStatus)
    ensures
        r == -1,
{
    -1
}

pub fn AUGraphIsRunning() -> (r: OSStatus)
    ensures
        r == -1,
{
    -1
}

pub fn AUGraphIsInitialized() -> (r: OSStatus)
    ensures
        r == -1,
{
    -1
}

pub fn AUGraphNodeInfo(_in_node: u32) -> (r: OSStatus)
    ensures
        r == -1,
{
    -1
}

pub fn AUGraphSetNodeInputCallback(_in_dest_node: u32, _in_dest_in_num: u32) -> (r: OSStatus)
    ensures
        r == -1,
{
    -1
}

pub fn AUGraphInitialize() -> (r: OSStatus)
    ensures
        r == -1,
{
    -1
}

pub fn AudioUnitSetProperty(_in_id: u32, _in_scope: u32, _in_elem: u32, _in_data_size: u32) -> (r:
    OSStatus)
    ensures
        r == -1,
{
    -1
}

} // verus!
