//! String-encoding constants of the Foundation string class.

use vstd::prelude::*;

verus! {

/// A Foundation string encoding tag.
pub type NSStringEncoding = u32;

pub const NSASCIIStringEncoding: NSStringEncoding = 1;

pub const NSUTF8StringEncoding: NSStringEncoding = 4;

pub const NSUTF16StringEncoding: NSStringEncoding = 10;

pub const NSUTF16BigEndianStringEncoding: NSStringEncoding = 0x90000100;

pub const NSUTF16LittleEndianStringEncoding: NSStringEncoding = 0x94000100;

} // verus!
