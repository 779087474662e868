//! Behaviour of the framework and libc shim logic.

use hle_kit::audio_file;
use hle_kit::audio_session;
use hle_kit::cf_bundle;
use hle_kit::cf_dictionary;
use hle_kit::cf_string;
use hle_kit::cg_color_space;
use hle_kit::core_audio_types;
use hle_kit::dirent;
use hle_kit::ns_string;
use hle_kit::objc::{Objects, CLASS_CG_COLOR_SPACE, CLASS_OBJECT, CLASS_STRING, NIL};
use hle_kit::unistd;
use hle_kit::FrameworkState;

#[test]
fn fourcc_packs_big_endian() {
    assert_eq!(core_audio_types::fourcc(b"lpcm"), core_audio_types::kAudioFormatLinearPCM);
    assert_eq!(core_audio_types::fourcc(b"ima4"), core_audio_types::kAudioFormatAppleIMA4);
    assert_eq!(core_audio_types::fourcc(b"aac "), core_audio_types::kAudioFormatMPEG4AAC);
    assert_eq!(
        core_audio_types::fourcc(b"dfmt"),
        audio_file::kAudioFilePropertyDataFormat
    );
    assert_eq!(
        core_audio_types::fourcc(b"bcnt"),
        audio_file::kAudioFilePropertyAudioDataByteCount
    );
    assert_eq!(
        core_audio_types::fourcc(b"pcnt"),
        audio_file::kAudioFilePropertyAudioDataPacketCount
    );
    assert_eq!(
        core_audio_types::fourcc(b"pkub"),
        audio_file::kAudioFilePropertyPacketSizeUpperBound
    );
    assert_eq!(
        core_audio_types::fourcc(b"mgic"),
        audio_file::kAudioFilePropertyMagicCookieData
    );
    assert_eq!(
        core_audio_types::fourcc(b"cmap"),
        audio_file::kAudioFilePropertyChannelLayout
    );
    assert_eq!(
        core_audio_types::fourcc(b"!siz") as i32,
        audio_file::kAudioFileBadPropertySizeError
    );
    assert_eq!(
        core_audio_types::fourcc(b"pty?") as i32,
        audio_file::kAudioFileUnsupportedProperty
    );
    assert_eq!(
        core_audio_types::fourcc(b"othr"),
        audio_session::kAudioSessionProperty_OtherAudioIsPlaying
    );
    assert_eq!(
        core_audio_types::fourcc(b"acat"),
        audio_session::kAudioSessionProperty_AudioCategory
    );
    assert_eq!(
        core_audio_types::fourcc(b"chsr"),
        audio_session::kAudioSessionProperty_CurrentHardwareSampleRate
    );
    assert_eq!(
        core_audio_types::fourcc(b"solo"),
        audio_session::kAudioSessionCategory_SoloAmbientSound
    );
}

#[test]
fn encoding_round_trip() {
    let cf = [
        cf_string::kCFStringEncodingASCII,
        cf_string::kCFStringEncodingUTF8,
        cf_string::kCFStringEncodingUTF16,
        cf_string::kCFStringEncodingUTF16BE,
        cf_string::kCFStringEncodingUTF16LE,
    ];
    for &e in &cf {
        let ns = cf_string::CFStringConvertEncodingToNSStringEncoding(e);
        assert_eq!(cf_string::CFStringConvertNSStringEncodingToEncoding(ns), e);
    }
    assert_eq!(
        cf_string::CFStringConvertEncodingToNSStringEncoding(0),
        ns_string::NSASCIIStringEncoding
    );
    assert_eq!(
        cf_string::CFStringGetSystemEncoding(),
        cf_string::kCFStringEncodingASCII
    );
}

#[test]
fn version_number_packing() {
    assert_eq!(
        cf_bundle::CFBundleGetVersionNumber(&b"1.2.3".to_vec()),
        0x0123_8000
    );
    assert_eq!(cf_bundle::CFBundleGetVersionNumber(&b"1".to_vec()), 0x0100_8000);
    assert_eq!(cf_bundle::CFBundleGetVersionNumber(&b"10.5".to_vec()), 0x1050_8000);
    assert_eq!(cf_bundle::CFBundleGetVersionNumber(&b"99.9.9".to_vec()), 0x9999_8000);
    assert_eq!(cf_bundle::CFBundleGetVersionNumber(&b"0".to_vec()), 0x0000_8000);
}

#[test]
fn session_properties() {
    assert_eq!(audio_session::AudioSessionInitialize(), 0);
    assert_eq!(audio_session::AudioSessionSetActive(true), 0);
    let (st, v) = audio_session::AudioSessionGetProperty(
        audio_session::kAudioSessionProperty_OtherAudioIsPlaying,
        4,
    );
    assert_eq!(st, 0);
    assert_eq!(v, Some(audio_session::SessionPropertyValue::OtherAudioIsPlaying(0)));
    let (st, v) = audio_session::AudioSessionGetProperty(
        audio_session::kAudioSessionProperty_AudioCategory,
        4,
    );
    assert_eq!(st, 0);
    assert_eq!(
        v,
        Some(audio_session::SessionPropertyValue::AudioCategory(
            audio_session::kAudioSessionCategory_SoloAmbientSound
        ))
    );
    let (st, v) = audio_session::AudioSessionGetProperty(
        audio_session::kAudioSessionProperty_CurrentHardwareSampleRate,
        8,
    );
    assert_eq!(st, 0);
    assert_eq!(
        v,
        Some(audio_session::SessionPropertyValue::CurrentHardwareSampleRateHz(44100))
    );
    // a wrong value size is turned away
    let (st, v) = audio_session::AudioSessionGetProperty(
        audio_session::kAudioSessionProperty_AudioCategory,
        8,
    );
    assert_eq!(st, audio_session::kAudioSessionBadPropertySizeError);
    assert_eq!(v, None);
    assert_eq!(
        audio_session::AudioSessionSetProperty(
            audio_session::kAudioSessionProperty_AudioCategory,
            4
        ),
        0
    );
    assert_eq!(
        audio_session::AudioSessionSetProperty(
            audio_session::kAudioSessionProperty_AudioCategory,
            2
        ),
        audio_session::kAudioSessionBadPropertySizeError
    );
}

#[test]
fn graph_family_reports_failure() {
    assert_eq!(audio_session::NewAUGraph(), -1);
    assert_eq!(audio_session::DisposeAUGraph(), -1);
    assert_eq!(audio_session::AUGraphAddNode(), -1);
    assert_eq!(audio_session::AUGraphConnectNodeInput(0, 0, 1, 0), -1);
    assert_eq!(audio_session::AUGraphOpen(), -1);
    assert_eq!(audio_session::AUGraphStart(), -1);
    assert_eq!(audio_session::AUGraphIsRunning(), -1);
    assert_eq!(audio_session::AUGraphIsInitialized(), -1);
    assert_eq!(audio_session::AUGraphNodeInfo(0), -1);
    assert_eq!(audio_session::AUGraphSetNodeInputCallback(0, 0), -1);
    assert_eq!(audio_session::AUGraphInitialize(), -1);
    assert_eq!(audio_session::AudioUnitSetProperty(0, 0, 0, 0), -1);
}

fn sample_file() -> audio_file::AudioFileInfo {
    audio_file::AudioFileInfo {
        description: audio_file::AudioDescription {
            sample_rate_hz: 44100,
            format: audio_file::AudioFormat::LinearPcm {
                is_float: false,
                is_little_endian: true,
            },
            bytes_per_packet: 4,
            frames_per_packet: 1,
            channels_per_frame: 2,
            bits_per_channel: 16,
        },
        data: (0u8..32).collect(),
        packet_count: 8,
        packet_size_upper_bound: 4,
        packet_size_fixed: 4,
    }
}

#[test]
fn audio_file_open_and_properties() {
    let mut st = audio_file::State::new();
    assert_eq!(
        audio_file::AudioFileOpenURL(&mut st, 7, None),
        audio_file::kAudioFileFileNotFoundError
    );
    assert_eq!(audio_file::AudioFileOpenURL(&mut st, 7, Some(sample_file())), 0);

    assert_eq!(audio_file::property_size(audio_file::kAudioFilePropertyDataFormat), 40);
    assert_eq!(
        audio_file::property_size(audio_file::kAudioFilePropertyAudioDataByteCount),
        8
    );
    assert_eq!(
        audio_file::property_size(audio_file::kAudioFilePropertyPacketSizeUpperBound),
        4
    );
    assert_eq!(audio_file::property_size(audio_file::kAudioFilePropertyMagicCookieData), 0);

    let (status, size, writable) = audio_file::AudioFileGetPropertyInfo(
        7,
        audio_file::kAudioFilePropertyDataFormat,
        true,
        true,
    );
    assert_eq!(status, 0);
    assert_eq!(size, Some(40));
    assert_eq!(writable, Some(0));
    let (status, size, _) = audio_file::AudioFileGetPropertyInfo(
        7,
        audio_file::kAudioFilePropertyMagicCookieData,
        true,
        false,
    );
    assert_eq!(status, audio_file::kAudioFileUnsupportedProperty);
    assert_eq!(size, Some(0));

    // the data format: signed integer, packed, little endian
    let (status, data) = audio_file::AudioFileGetProperty(
        &st,
        7,
        audio_file::kAudioFilePropertyDataFormat,
        40,
    );
    assert_eq!(status, 0);
    match data {
        Some(audio_file::PropertyData::DataFormat(desc)) => {
            assert_eq!(desc.format_id, core_audio_types::kAudioFormatLinearPCM);
            assert_eq!(
                desc.format_flags,
                core_audio_types::kAudioFormatFlagIsSignedInteger
                    | core_audio_types::kAudioFormatFlagIsPacked
            );
            assert_eq!(desc.bytes_per_frame, 4);
            assert_eq!(desc.sample_rate_hz, 44100);
        }
        other => panic!("unexpected property answer: {:?}", other),
    }
    // a wrong size is turned away
    let (status, data) = audio_file::AudioFileGetProperty(
        &st,
        7,
        audio_file::kAudioFilePropertyDataFormat,
        39,
    );
    assert_eq!(status, audio_file::kAudioFileBadPropertySizeError);
    assert!(data.is_none());
    let (status, data) = audio_file::AudioFileGetProperty(
        &st,
        7,
        audio_file::kAudioFilePropertyAudioDataByteCount,
        8,
    );
    assert_eq!(status, 0);
    assert_eq!(data, Some(audio_file::PropertyData::ByteCount(32)));

    assert_eq!(audio_file::AudioFileClose(&mut st, 7), 0);
    assert_eq!(st.audio_files.len(), 0);
}

#[test]
fn audio_file_reads() {
    let mut st = audio_file::State::new();
    audio_file::AudioFileOpenURL(&mut st, 3, Some(sample_file()));
    let (status, bytes) = audio_file::AudioFileReadBytes(&st, 3, 4, 8);
    assert_eq!(status, 0);
    assert_eq!(bytes, (4u8..12).collect::<Vec<u8>>());
    // a read past the end is cut short
    let (status, bytes) = audio_file::AudioFileReadBytes(&st, 3, 28, 100);
    assert_eq!(status, 0);
    assert_eq!(bytes, (28u8..32).collect::<Vec<u8>>());
    // packet reads translate to byte ranges of whole packets
    let (status, bytes, packets) = audio_file::AudioFileReadPackets(&st, 3, 1, 3);
    assert_eq!(status, 0);
    assert_eq!(packets, 3);
    assert_eq!(bytes, (4u8..16).collect::<Vec<u8>>());
    let (status, bytes, packets) = audio_file::AudioFileReadPacketData(&st, 3, 7, 5);
    assert_eq!(status, 0);
    assert_eq!(packets, 1);
    assert_eq!(bytes, (28u8..32).collect::<Vec<u8>>());
}

#[test]
fn unistd_decisions() {
    assert_eq!(unistd::sleep(5), 0);
    assert_eq!(unistd::usleep(100), 0);
    assert_eq!(unistd::getpid(), 1);
    assert_eq!(unistd::getppid(), 0);
    assert_eq!(unistd::isatty(0), 1);
    assert_eq!(unistd::isatty(1), 1);
    assert_eq!(unistd::isatty(2), 1);
    assert_eq!(unistd::isatty(3), 0);
    assert_eq!(unistd::access(true, false, unistd::F_OK), 0);
    assert_eq!(unistd::access(false, true, unistd::F_OK), -1);
    assert_eq!(unistd::access(true, true, unistd::R_OK), 0);
    assert_eq!(unistd::access(true, false, unistd::R_OK), -1);
    assert_eq!(unistd::uname(), -1);
}

#[test]
fn directory_stream_walk() {
    let mut st = dirent::State::new();
    // a path that is not a directory opens nothing
    assert_eq!(dirent::opendir(&mut st, 5, false, vec![b"x".to_vec()]), 0);
    let names = vec![b"notes.txt".to_vec(), b"music".to_vec()];
    assert_eq!(dirent::opendir(&mut st, 5, true, names), 5);
    let first = dirent::readdir(&mut st, 5).expect("first entry");
    assert_eq!(first.d_namlen, 9);
    assert_eq!(&first.d_name[..9], b"notes.txt");
    assert_eq!(first.d_name.len(), dirent::MAXPATHLEN);
    assert!(first.d_name[9..].iter().all(|&b| b == 0));
    let second = dirent::readdir(&mut st, 5).expect("second entry");
    assert_eq!(&second.d_name[..5], b"music");
    assert_eq!(second.d_namlen, 5);
    assert!(dirent::readdir(&mut st, 5).is_none());
    assert_eq!(dirent::closedir(&mut st, 5), 0);
    assert_eq!(st.open_dirs.len(), 0);
}

#[test]
fn colour_space_lifecycle() {
    let mut o = Objects::new();
    // the interned generic-RGB name and an equal guest string
    let generic_rgb = o.alloc_with(CLASS_STRING, 77, 7001);
    let name = o.alloc_with(CLASS_STRING, 77, 7001);
    let cs = cg_color_space::CGColorSpaceCreateWithName(&mut o, name, generic_rgb);
    assert_ne!(cs, NIL);
    assert_eq!(o.class_of(cs), CLASS_CG_COLOR_SPACE);
    assert_eq!(o.refcount(cs), 1);
    assert_eq!(cg_color_space::CGColorSpaceRetain(&mut o, cs), cs);
    assert_eq!(o.refcount(cs), 2);
    cg_color_space::CGColorSpaceRelease(&mut o, cs);
    assert_eq!(o.refcount(cs), 1);
    cg_color_space::CGColorSpaceRelease(&mut o, cs);
    assert!(!o.is_live(cs));
    // nil is tolerated
    cg_color_space::CGColorSpaceRelease(&mut o, NIL);
    assert_eq!(cg_color_space::CGColorSpaceRetain(&mut o, NIL), NIL);
    let dev = cg_color_space::CGColorSpaceCreateDeviceRGB(&mut o);
    let grey = cg_color_space::CGColorSpaceCreateDeviceGray(&mut o);
    assert!(o.is_live(dev) && o.is_live(grey));
    assert_eq!(cg_color_space::CGColorSpaceGetModel(), 1);
    assert_eq!(cg_color_space::CGImageGetBitsPerPixel(dev), 32);
    let colour = o.alloc_plain(CLASS_OBJECT);
    let cs2 = cg_color_space::CGColorGetColorSpace(&mut o, colour, generic_rgb);
    assert!(o.is_live(cs2));
}

#[test]
fn cf_dictionary_bridging() {
    let mut o = Objects::new();
    let mut d = cf_dictionary::CFDictionaryCreateMutable(true, 0, true, true);
    assert_eq!(cf_dictionary::CFDictionaryGetCount(&d), 0);
    let k = o.alloc_with(CLASS_STRING, 1, 8001);
    let v = o.alloc_plain(CLASS_OBJECT);
    cf_dictionary::CFDictionarySetValue(&mut d, &mut o, k, v);
    assert_eq!(cf_dictionary::CFDictionaryGetCount(&d), 1);
    assert_eq!(d.lookup(&o, k), v);
    let keys = cf_dictionary::CFDictionaryGetKeysAndValues(&d, false);
    assert_eq!(keys, vec![k]);
    assert_eq!(cf_dictionary::CFPropertyListCreateXMLData(v), NIL);
    let err = o.alloc_with(CLASS_STRING, 9, 8002);
    assert_eq!(cf_dictionary::CFPropertyListCreateFromXMLData(v, err), (NIL, err));
}

#[test]
fn framework_state_accessors() {
    let mut fs = FrameworkState::new();
    assert!(fs.ns_bundle.main_bundle.is_none());
    {
        let audio = audio_file::State::get(&mut fs);
        audio_file::AudioFileOpenURL(audio, 9, Some(sample_file()));
    }
    assert_eq!(fs.audio_file.audio_files.len(), 1);
    {
        let dirs = dirent::State::get_mut(&mut fs);
        dirent::opendir(dirs, 4, true, vec![b"a".to_vec()]);
    }
    assert_eq!(dirent::State::get(&fs).open_dirs.len(), 1);
    {
        let locale = hle_kit::ns_locale::State::get(&mut fs);
        assert!(locale.current_locale.is_none());
        assert!(locale.preferred_languages.is_none());
    }
    // the other components were left alone
    assert_eq!(fs.audio_file.audio_files.len(), 1);
}
