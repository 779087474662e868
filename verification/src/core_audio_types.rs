//! Shared Core Audio data types and four-character codes.

use vstd::prelude::*;

verus! {

/// Big-endian packing of a four-character code.
pub open spec fn spec_fourcc(b: Seq<u8>) -> u32
    recommends
        b.len() == 4,
{
    (((b[0] as u32) << 24) | ((b[1] as u32) << 16) | ((b[2] as u32) << 8) | (b[3] as u32)) as u32
}

/// Pack a four-character code into its numeric form.
pub fn fourcc(bytes: &[u8; 4]) -> (r: u32)
    ensures
        r == spec_fourcc(bytes@),
{
    ((bytes[0] as u32) << 24) | ((bytes[1] as u32) << 16) | ((bytes[2] as u32) << 8) | (
    bytes[3] as u32)
}

pub const kAudioFormatLinearPCM: u32 = 0x6C70636D;

pub const kAudioFormatAppleIMA4: u32 = 0x696D6134;

pub const kAudioFormatMPEG4AAC: u32 = 0x61616320;

pub const kAudioFormatFlagIsFloat: u32 = 1;

pub const kAudioFormatFlagIsBigEndian: u32 = 2;

pub const kAudioFormatFlagIsSignedInteger: u32 = 4;

pub const kAudioFormatFlagIsPacked: u32 = 8;

/// The stream description handed to guests.  The guest-facing layout stores
/// the sample rate as an 8-byte floating-point field; this host-side model
/// carries it as whole Hertz, and the substrate converts when writing guest
/// memory.
#[derive(Clone, Copy, PartialEq, Eq, Structural, Debug)]
pub struct AudioStreamBasicDescription {
    pub sample_rate_hz: u32,
    pub format_id: u32,
    pub format_flags: u32,
    pub bytes_per_packet: u32,
    pub frames_per_packet: u32,
    pub bytes_per_frame: u32,
    pub channels_per_frame: u32,
    pub bits_per_channel: u32,
}

} // verus!
