//! Encoding translation of the Core Foundation string entry points.
//!
//! The creation and comparison calls of this family are dynamic-dispatch
//! glue into the string class; what is verifiable here is the mapping
//! between the Core Foundation and Foundation encoding tags that all of
//! them share.

use vstd::prelude::*;
use crate::ns_string::{
    NSStringEncoding, NSASCIIStringEncoding, NSUTF8StringEncoding, NSUTF16StringEncoding,
    NSUTF16BigEndianStringEncoding, NSUTF16LittleEndianStringEncoding,
};

verus! {

/// A Core Foundation string encoding tag.
pub type CFStringEncoding = u32;

pub const kCFStringEncodingASCII: CFStringEncoding = 0x600;

pub const kCFStringEncodingUTF8: CFStringEncoding = 0x8000100;

pub const kCFStringEncodingUnicode: CFStringEncoding = 0x100;

pub const kCFStringEncodingUTF16: CFStringEncoding = kCFStringEncodingUnicode;

pub const kCFStringEncodingUTF16BE: CFStringEncoding = 0x10000100;

pub const kCFStringEncodingUTF16LE: CFStringEncoding = 0x14000100;

/// Translate a Core Foundation encoding tag to the Foundation one.  The
/// zero tag is the legacy default and is read as ASCII.
pub fn CFStringConvertEncodingToNSStringEncoding(encoding: CFStringEncoding) -> (r:
    NSStringEncoding)
    requires
        encoding == 0 || encoding == kCFStringEncodingASCII || encoding == kCFStringEncodingUTF8
            || encoding == kCFStringEncodingUTF16 || encoding == kCFStringEncodingUTF16BE
            || encoding == kCFStringEncodingUTF16LE,
    ensures
        encoding == 0 || encoding == kCFStringEncodingASCII ==> r == NSASCIIStringEncoding,
        encoding == kCFStringEncodingUTF8 ==> r == NSUTF8StringEncoding,
        encoding == kCFStringEncodingUTF16 ==> r == NSUTF16StringEncoding,
        encoding == kCFStringEncodingUTF16BE ==> r == NSUTF16BigEndianStringEncoding,
        encoding == kCFStringEncodingUTF16LE ==> r == NSUTF16LittleEndianStringEncoding,
{
    if encoding == 0 {
        NSASCIIStringEncoding
    } else if encoding == kCFStringEncodingASCII {
        NSASCIIStringEncoding
    } else if encoding == kCFStringEncodingUTF8 {
        NSUTF8StringEncoding
    } else if encoding == kCFStringEncodingUTF16 {
        NSUTF16StringEncoding
    } else if encoding == kCFStringEncodingUTF16BE {
        NSUTF16BigEndianStringEncoding
    } else {
        NSUTF16LittleEndianStringEncoding
    }
}

/// Translate a Foundation encoding tag back to the Core Foundation one.
pub fn CFStringConvertNSStringEncodingToEncoding(encoding: NSStringEncoding) -> (r:
    CFStringEncoding)
    requires
        encoding == NSASCIIStringEncoding || encoding == NSUTF8StringEncoding || encoding
            == NSUTF16StringEncoding || encoding == NSUTF16BigEndianStringEncoding || encoding
            == NSUTF16LittleEndianStringEncoding,
    ensures
        encoding == NSASCIIStringEncoding ==> r == kCFStringEncodingASCII,
        encoding == NSUTF8StringEncoding ==> r == kCFStringEncodingUTF8,
        encoding == NSUTF16StringEncoding ==> r == kCFStringEncodingUTF16,
        encoding == NSUTF16BigEndianStringEncoding ==> r == kCFStringEncodingUTF16BE,
        encoding == NSUTF16LittleEndianStringEncoding ==> r == kCFStringEncodingUTF16LE,
{
    if encoding == NSASCIIStringEncoding {
        kCFStringEncodingASCII
    } else if encoding == NSUTF8StringEncoding {
        kCFStringEncodingUTF8
    } else if encoding == NSUTF16StringEncoding {
        kCFStringEncodingUTF16
    } else if encoding == NSUTF16BigEndianStringEncoding {
        kCFStringEncodingUTF16BE
    } else {
        kCFStringEncodingUTF16LE
    }
}

/// The system encoding never changes.
pub fn CFStringGetSystemEncoding() -> (r: CFStringEncoding)
    ensures
        r == kCFStringEncodingASCII,
{
    kCFStringEncodingASCII
}

} // verus!
