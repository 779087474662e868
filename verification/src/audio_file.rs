//! Audio File Services: handle bookkeeping and property decisions.
//!
//! The substrate resolves URLs, reads files and runs the audio decoder;
//! what it decodes arrives here as an [`AudioFileInfo`] of plain values.
//! This module owns the table from guest file handles to that state and
//! decides every property answer and read request.

use vstd::prelude::*;
use crate::carbon_core::OSStatus;
use crate::core_audio_types::{
    AudioStreamBasicDescription, kAudioFormatLinearPCM, kAudioFormatAppleIMA4,
    kAudioFormatMPEG4AAC, kAudioFormatFlagIsFloat, kAudioFormatFlagIsBigEndian,
    kAudioFormatFlagIsSignedInteger, kAudioFormatFlagIsPacked,
};

verus! {

pub const kAudioFileFileNotFoundError: OSStatus = -43;

pub const kAudioFileBadPropertySizeError: OSStatus = 0x2173697A;

pub const kAudioFileUnsupportedProperty: OSStatus = 0x7074793F;

pub const kAudioFilePropertyDataFormat: u32 = 0x64666D74;

pub const kAudioFilePropertyAudioDataByteCount: u32 = 0x62636E74;

pub const kAudioFilePropertyAudioDataPacketCount: u32 = 0x70636E74;

pub const kAudioFilePropertyPacketSizeUpperBound: u32 = 0x706B7562;

pub const kAudioFilePropertyMagicCookieData: u32 = 0x6D676963;

pub const kAudioFilePropertyChannelLayout: u32 = 0x636D6170;

/// Decoded sample format of an opened file.
#[derive(Clone, Copy, PartialEq, Eq, Structural, Debug)]
pub enum AudioFormat {
    LinearPcm { is_float: bool, is_little_endian: bool },
    AppleIma4,
    Mpeg4Aac,
}

/// What the decoder reports about an opened file, as plain values; the
/// sample rate is carried in whole Hertz.
#[derive(Clone, Copy, PartialEq, Eq, Structural, Debug)]
pub struct AudioDescription {
    pub sample_rate_hz: u32,
    pub format: AudioFormat,
    pub bytes_per_packet: u32,
    pub frames_per_packet: u32,
    pub channels_per_frame: u32,
    pub bits_per_channel: u32,
}

/// Host-side state of one opened audio file: its description, its audio
/// data, and the decoder's packet accounting.
pub struct AudioFileInfo {
    pub description: AudioDescription,
    pub data: Vec<u8>,
    pub packet_count: u64,
    pub packet_size_upper_bound: u32,
    pub packet_size_fixed: u32,
}

/// Table from guest audio-file handles to their host state.
#[derive(Default)]
pub struct State {
    pub audio_files: Vec<(u32, AudioFileInfo)>,
}

impl State {
    /// The audio-file state inside the framework state.
    pub fn get(framework_state: &mut crate::FrameworkState) -> (r: &mut State)
        ensures
            *r == old(framework_state).audio_file,
            final(framework_state).audio_file == *final(r),
            final(framework_state).dirent == old(framework_state).dirent,
            final(framework_state).ns_bundle == old(framework_state).ns_bundle,
            final(framework_state).ns_locale == old(framework_state).ns_locale,
    {
        &mut framework_state.audio_file
    }

    /// Fresh state: no files open.
    pub fn new() -> (r: State)
        ensures
            r.audio_files@.len() == 0,
    {
        State { audio_files: Vec::new() }
    }

    /// Index of a handle in the table, or `-1` when it is not open.
    pub open spec fn spec_find(self, handle: u32) -> int {
        Self::spec_find_from(self.audio_files@, handle, 0)
    }

    pub open spec fn spec_find_from(files: Seq<(u32, AudioFileInfo)>, handle: u32, i: int) -> int
        decreases files.len() - i,
    {
        if i < 0 || i >= files.len() {
            -1
        } else if files[i].0 == handle {
            i
        } else {
            Self::spec_find_from(files, handle, i + 1)
        }
    }

    /// The handle is open.
    pub open spec fn open_file(self, handle: u32) -> bool {
        self.spec_find(handle) != -1
    }

    /// The state of an open handle.
    pub open spec fn file_info(self, handle: u32) -> AudioFileInfo {
        self.audio_files@[self.spec_find(handle)].1
    }

    /// Index of a handle, or the table's length when it is not open.
    fn find(&self, handle: u32) -> (r: usize)
        ensures
            r <= self.audio_files@.len(),
            r == self.audio_files@.len() ==> self.spec_find(handle) == -1,
            r < self.audio_files@.len() ==> self.spec_find(handle) == r as int,
    {
        let n = self.audio_files.len();
        let mut i: usize = 0;
        while i < n
            invariant
                0 <= i <= n,
                n == self.audio_files@.len(),
                self.spec_find(handle) == Self::spec_find_from(
                    self.audio_files@,
                    handle,
                    i as int,
                ),
            decreases n - i,
        {
            if self.audio_files[i].0 == handle {
                return i;
            }
            i = i + 1;
        }
        n
    }
}

/// The guest-visible size of each supported property's value; zero for
/// properties this layer does not serve.
pub open spec fn spec_property_size(property_id: u32) -> u32 {
    if property_id == kAudioFilePropertyDataFormat {
        40
    } else if property_id == kAudioFilePropertyAudioDataByteCount {
        8
    } else if property_id == kAudioFilePropertyAudioDataPacketCount {
        8
    } else if property_id == kAudioFilePropertyPacketSizeUpperBound {
        4
    } else {
        0
    }
}

/// Size in bytes of a property's guest value.
pub fn property_size(property_id: u32) -> (r: u32)
    ensures
        r == spec_property_size(property_id),
{
    if property_id == kAudioFilePropertyDataFormat {
        40
    } else if property_id == kAudioFilePropertyAudioDataByteCount {
        8
    } else if property_id == kAudioFilePropertyAudioDataPacketCount {
        8
    } else if property_id == kAudioFilePropertyPacketSizeUpperBound {
        4
    } else {
        0
    }
}

/// The stream description derived from a decoded file's description: the
/// flag word is assembled for linear PCM, while the compressed formats
/// report no flags and no fixed frame size.
pub open spec fn spec_asbd_of(d: AudioDescription) -> AudioStreamBasicDescription {
    match d.format {
        AudioFormat::LinearPcm { is_float, is_little_endian } => {
            let is_packed = d.bits_per_channel * d.channels_per_frame * d.frames_per_packet
                == d.bytes_per_packet * 8;
            AudioStreamBasicDescription {
                sample_rate_hz: d.sample_rate_hz,
                format_id: kAudioFormatLinearPCM,
                format_flags: (((if is_float {
                    kAudioFormatFlagIsFloat
                } else {
                    0
                }) | (if !is_float {
                    kAudioFormatFlagIsSignedInteger
                } else {
                    0
                }) | (if is_packed {
                    kAudioFormatFlagIsPacked
                } else {
                    0
                }) | (if !is_little_endian {
                    kAudioFormatFlagIsBigEndian
                } else {
                    0
                })) as u32),
                bytes_per_packet: d.bytes_per_packet,
                frames_per_packet: d.frames_per_packet,
                bytes_per_frame: ((d.bytes_per_packet as int / d.frames_per_packet as int) as u32),
                channels_per_frame: d.channels_per_frame,
                bits_per_channel: d.bits_per_channel,
            }
        },
        AudioFormat::AppleIma4 => AudioStreamBasicDescription {
            sample_rate_hz: d.sample_rate_hz,
            format_id: kAudioFormatAppleIMA4,
            format_flags: 0,
            bytes_per_packet: d.bytes_per_packet,
            frames_per_packet: d.frames_per_packet,
            bytes_per_frame: 0,
            channels_per_frame: d.channels_per_frame,
            bits_per_channel: d.bits_per_channel,
        },
        AudioFormat::Mpeg4Aac => AudioStreamBasicDescription {
            sample_rate_hz: d.sample_rate_hz,
            format_id: kAudioFormatMPEG4AAC,
            format_flags: 0,
            bytes_per_packet: d.bytes_per_packet,
            frames_per_packet: d.frames_per_packet,
            bytes_per_frame: 0,
            channels_per_frame: d.channels_per_frame,
            bits_per_channel: d.bits_per_channel,
        },
    }
}

/// A property answer to be written back to the guest.
#[derive(Clone, Copy, PartialEq, Eq, Structural, Debug)]
pub enum PropertyData {
    DataFormat(AudioStreamBasicDescription),
    ByteCount(u64),
    PacketCount(u64),
    PacketSizeUpperBound(u32),
}

/// Register a file the substrate tried to open by URL: `file` is the
/// decoder's answer after reading the resolved path, or nothing when the
/// file could not be read, in which case the open reports file-not-found.
pub fn AudioFileOpenURL(state: &mut State, handle: u32, file: Option<AudioFileInfo>) -> (r:
    OSStatus)
    requires
        handle != 0,
        !old(state).open_file(handle),
    ensures
        file.is_none() ==> r == kAudioFileFileNotFoundError && *final(state) == *old(state),
        file.is_some() ==> r == 0 && final(state).audio_files@ == old(state).audio_files@.push(
            (handle, file.unwrap()),
        ),
{
    match file {
        None => kAudioFileFileNotFoundError,
        Some(info) => {
            state.audio_files.push((handle, info));
            0
        },
    }
}

/// Register a file whose bytes the substrate gathered through the guest's
/// own read callbacks and then decoded.  This entry point has always
/// answered `-1`, which its callers treat as success.
pub fn AudioFileOpenWithCallbacks(state: &mut State, handle: u32, file: AudioFileInfo) -> (r:
    OSStatus)
    requires
        handle != 0,
        !old(state).open_file(handle),
    ensures
        r == -1,
        final(state).audio_files@ == old(state).audio_files@.push((handle, file)),
{
    state.audio_files.push((handle, file));
    -1
}

/// Answer a property-info query: the magic cookie and channel layout are
/// not served (their size reads as zero), every other property reports its
/// value size; nothing is writable.  The two flags say which of the two
/// out-parameters the caller provided.
pub fn AudioFileGetPropertyInfo(
    handle: u32,
    property_id: u32,
    want_data_size: bool,
    want_writable: bool,
) -> (r: (OSStatus, Option<u32>, Option<u32>))
    requires
        handle != 0,
    ensures
        property_id == kAudioFilePropertyMagicCookieData || property_id
            == kAudioFilePropertyChannelLayout ==> r == (
            kAudioFileUnsupportedProperty,
            if want_data_size {
                Some(0u32)
            } else {
                None::<u32>
            },
            if want_writable {
                Some(0u32)
            } else {
                None::<u32>
            },
        ),
        property_id != kAudioFilePropertyMagicCookieData && property_id
            != kAudioFilePropertyChannelLayout ==> r == (
            0i32,
            if want_data_size {
                Some(spec_property_size(property_id))
            } else {
                None::<u32>
            },
            if want_writable {
                Some(0u32)
            } else {
                None::<u32>
            },
        ),
{
    if property_id == kAudioFilePropertyMagicCookieData || property_id
        == kAudioFilePropertyChannelLayout {
        return (
            kAudioFileUnsupportedProperty,
            if want_data_size {
                Some(0u32)
            } else {
                None
            },
            if want_writable {
                Some(0u32)
            } else {
                None
            },
        );
    }
    (
        0,
        if want_data_size {
            Some(property_size(property_id))
        } else {
            None
        },
        if want_writable {
            Some(0u32)
        } else {
            None
        },
    )
}

/// Answer a property read for an open file.  A caller passing the wrong
/// value size is turned away; otherwise the answer is derived from the
/// decoded file state.
pub fn AudioFileGetProperty(state: &State, handle: u32, property_id: u32, io_data_size: u32) -> (r:
    (OSStatus, Option<PropertyData>))
    requires
        handle != 0,
        state.open_file(handle),
        io_data_size == spec_property_size(property_id) ==> property_id
            == kAudioFilePropertyDataFormat || property_id == kAudioFilePropertyAudioDataByteCount
            || property_id == kAudioFilePropertyAudioDataPacketCount || property_id
            == kAudioFilePropertyPacketSizeUpperBound,
        property_id == kAudioFilePropertyDataFormat && io_data_size == 40 ==> (match state.file_info(
            handle,
        ).description.format {
            AudioFormat::LinearPcm { .. } => state.file_info(handle).description.frames_per_packet
                > 0 && state.file_info(handle).description.bits_per_channel * state.file_info(
                handle,
            ).description.channels_per_frame * state.file_info(handle).description.frames_per_packet
                <= u32::MAX && state.file_info(handle).description.bytes_per_packet * 8
                <= u32::MAX,
            _ => true,
        }),
    ensures
        io_data_size != spec_property_size(property_id) ==> r == (
            kAudioFileBadPropertySizeError,
            None::<PropertyData>,
        ),
        io_data_size == spec_property_size(property_id) ==> r.0 == 0 && r.1 == Some(
            if property_id == kAudioFilePropertyDataFormat {
                PropertyData::DataFormat(spec_asbd_of(state.file_info(handle).description))
            } else if property_id == kAudioFilePropertyAudioDataByteCount {
                PropertyData::ByteCount(state.file_info(handle).data@.len() as u64)
            } else if property_id == kAudioFilePropertyAudioDataPacketCount {
                PropertyData::PacketCount(state.file_info(handle).packet_count)
            } else {
                PropertyData::PacketSizeUpperBound(state.file_info(handle).packet_size_upper_bound)
            },
        ),
{
    let required_size = property_size(property_id);
    if io_data_size != required_size {
        return (kAudioFileBadPropertySizeError, None);
    }
    let idx = state.find(handle);
    let info = &state.audio_files[idx].1;
    proof {
        assert(state.file_info(handle) == state.audio_files@[idx as int].1);
    }
    if property_id == kAudioFilePropertyDataFormat {
        let d = info.description;
        let desc = match d.format {
            AudioFormat::LinearPcm { is_float, is_little_endian } => {
                proof {
                    assert(d.bits_per_channel * d.channels_per_frame <= d.bits_per_channel
                        * d.channels_per_frame * d.frames_per_packet) by (nonlinear_arith)
                        requires
                            d.frames_per_packet >= 1,
                            d.bits_per_channel >= 0,
                            d.channels_per_frame >= 0,
                    ;
                }
                let is_packed = d.bits_per_channel * d.channels_per_frame * d.frames_per_packet
                    == d.bytes_per_packet * 8;
                let format_flags = (if is_float {
                    kAudioFormatFlagIsFloat
                } else {
                    0
                }) | (if !is_float {
                    kAudioFormatFlagIsSignedInteger
                } else {
                    0
                }) | (if is_packed {
                    kAudioFormatFlagIsPacked
                } else {
                    0
                }) | (if !is_little_endian {
                    kAudioFormatFlagIsBigEndian
                } else {
                    0
                });
                AudioStreamBasicDescription {
                    sample_rate_hz: d.sample_rate_hz,
                    format_id: kAudioFormatLinearPCM,
                    format_flags,
                    bytes_per_packet: d.bytes_per_packet,
                    frames_per_packet: d.frames_per_packet,
                    bytes_per_frame: d.bytes_per_packet / d.frames_per_packet,
                    channels_per_frame: d.channels_per_frame,
                    bits_per_channel: d.bits_per_channel,
                }
            },
            AudioFormat::AppleIma4 => AudioStreamBasicDescription {
                sample_rate_hz: d.sample_rate_hz,
                format_id: kAudioFormatAppleIMA4,
                format_flags: 0,
                bytes_per_packet: d.bytes_per_packet,
                frames_per_packet: d.frames_per_packet,
                bytes_per_frame: 0,
                channels_per_frame: d.channels_per_frame,
                bits_per_channel: d.bits_per_channel,
            },
            AudioFormat::Mpeg4Aac => AudioStreamBasicDescription {
                sample_rate_hz: d.sample_rate_hz,
                format_id: kAudioFormatMPEG4AAC,
                format_flags: 0,
                bytes_per_packet: d.bytes_per_packet,
                frames_per_packet: d.frames_per_packet,
                bytes_per_frame: 0,
                channels_per_frame: d.channels_per_frame,
                bits_per_channel: d.bits_per_channel,
            },
        };
        (0, Some(PropertyData::DataFormat(desc)))
    } else if property_id == kAudioFilePropertyAudioDataByteCount {
        (0, Some(PropertyData::ByteCount(info.data.len() as u64)))
    } else if property_id == kAudioFilePropertyAudioDataPacketCount {
        (0, Some(PropertyData::PacketCount(info.packet_count)))
    } else {
        (0, Some(PropertyData::PacketSizeUpperBound(info.packet_size_upper_bound)))
    }
}

/// Read up to `num_bytes` bytes of audio data from the given offset; short
/// reads happen at the end of the data, and the bytes read are returned
/// with the success status.
pub fn AudioFileReadBytes(state: &State, handle: u32, starting_byte: i64, num_bytes: u32) -> (r: (
    OSStatus,
    Vec<u8>,
))
    requires
        handle != 0,
        state.open_file(handle),
        0 <= starting_byte <= state.file_info(handle).data@.len(),
    ensures
        r.0 == 0,
        r.1@ == state.file_info(handle).data@.subrange(
            starting_byte as int,
            starting_byte as int + (if num_bytes as int <= state.file_info(handle).data@.len()
                - starting_byte as int {
                num_bytes as int
            } else {
                state.file_info(handle).data@.len() - starting_byte as int
            }),
        ),
{
    let idx = state.find(handle);
    let info = &state.audio_files[idx].1;
    let total = info.data.len();
    let start = starting_byte as usize;
    let room = total - start;
    let takes = if num_bytes as usize <= room {
        num_bytes as usize
    } else {
        room
    };
    let mut out: Vec<u8> = Vec::new();
    let mut t: usize = 0;
    while t < takes
        invariant
            0 <= t <= takes,
            start + takes <= total,
            total == info.data@.len(),
            info.data@ == state.file_info(handle).data@,
            out@ =~= state.file_info(handle).data@.subrange(start as int, start as int + t as int),
        decreases takes - t,
    {
        out.push(info.data[start + t]);
        proof {
            assert(state.file_info(handle).data@.subrange(
                start as int,
                start as int + t as int + 1,
            ) =~= state.file_info(handle).data@.subrange(start as int, start as int + t as int).push(
                state.file_info(handle).data@[start as int + t as int],
            ));
        }
        t = t + 1;
    }
    (0, out)
}

/// Read whole fixed-size packets: the byte range is derived from the packet
/// size, the read is delegated to [`AudioFileReadBytes`], and the packet
/// count actually read is reported back.
pub fn AudioFileReadPackets(
    state: &State,
    handle: u32,
    starting_packet: i64,
    num_packets: u32,
) -> (r: (OSStatus, Vec<u8>, u32))
    requires
        handle != 0,
        state.open_file(handle),
        state.file_info(handle).packet_size_fixed > 0,
        starting_packet >= 0,
        starting_packet * state.file_info(handle).packet_size_fixed <= state.file_info(
            handle,
        ).data@.len(),
        state.file_info(handle).data@.len() <= i64::MAX,
        num_packets * state.file_info(handle).packet_size_fixed <= u32::MAX,
    ensures
        r.0 == 0,
        r.1@ == state.file_info(handle).data@.subrange(
            starting_packet * state.file_info(handle).packet_size_fixed,
            starting_packet * state.file_info(handle).packet_size_fixed + (if num_packets
                * state.file_info(handle).packet_size_fixed <= state.file_info(handle).data@.len()
                - starting_packet * state.file_info(handle).packet_size_fixed {
                num_packets * state.file_info(handle).packet_size_fixed
            } else {
                state.file_info(handle).data@.len() - starting_packet * state.file_info(
                    handle,
                ).packet_size_fixed
            }),
        ),
        r.2 == r.1@.len() as int / state.file_info(handle).packet_size_fixed as int,
{
    let idx = state.find(handle);
    let packet_size = state.audio_files[idx].1.packet_size_fixed;
    proof {
        assert(state.file_info(handle) == state.audio_files@[idx as int].1);
        assert(packet_size == state.file_info(handle).packet_size_fixed);
        assert(starting_packet * packet_size >= 0) by (nonlinear_arith)
            requires
                starting_packet >= 0,
                packet_size > 0,
        ;
        assert(starting_packet * (packet_size as i64) == starting_packet * packet_size);
    }
    let starting_byte: i64 = starting_packet * (packet_size as i64);
    let bytes_to_read: u32 = num_packets * packet_size;
    let (status, data) = AudioFileReadBytes(state, handle, starting_byte, bytes_to_read);
    let bytes_read = data.len();
    let packets_read = (bytes_read as u32) / packet_size;
    (status, data, packets_read)
}

/// As [`AudioFileReadPackets`]; the packet-description output it would add
/// is not implemented by this layer.
pub fn AudioFileReadPacketData(
    state: &State,
    handle: u32,
    starting_packet: i64,
    num_packets: u32,
) -> (r: (OSStatus, Vec<u8>, u32))
    requires
        handle != 0,
        state.open_file(handle),
        state.file_info(handle).packet_size_fixed > 0,
        starting_packet >= 0,
        starting_packet * state.file_info(handle).packet_size_fixed <= state.file_info(
            handle,
        ).data@.len(),
        state.file_info(handle).data@.len() <= i64::MAX,
        num_packets * state.file_info(handle).packet_size_fixed <= u32::MAX,
    ensures
        r.0 == 0,
        r.1@ == state.file_info(handle).data@.subrange(
            starting_packet * state.file_info(handle).packet_size_fixed,
            starting_packet * state.file_info(handle).packet_size_fixed + (if num_packets
                * state.file_info(handle).packet_size_fixed <= state.file_info(handle).data@.len()
                - starting_packet * state.file_info(handle).packet_size_fixed {
                num_packets * state.file_info(handle).packet_size_fixed
            } else {
                state.file_info(handle).data@.len() - starting_packet * state.file_info(
                    handle,
                ).packet_size_fixed
            }),
        ),
        r.2 == r.1@.len() as int / state.file_info(handle).packet_size_fixed as int,
{
    AudioFileReadPackets(state, handle, starting_packet, num_packets)
}

/// Close an open file: its state leaves the table and the substrate frees
/// the guest handle.
pub fn AudioFileClose(state: &mut State, handle: u32) -> (r: OSStatus)
    requires
        handle != 0,
        old(state).open_file(handle),
    ensures
        r == 0,
        final(state).audio_files@ == old(state).audio_files@.remove(old(state).spec_find(handle)),
{
    let idx = state.find(handle);
    state.audio_files.remove(idx);
    0
}

} // verus!
