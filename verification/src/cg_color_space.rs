//! Colour-space entry points over the object registry.
//!
//! Colour spaces are plain retained objects here; only the generic RGB
//! space is supported, so creation checks the requested name against the
//! interned generic-RGB string and every colour reports that space.

use vstd::prelude::*;
use crate::objc::{ObjId, ObjectInfo, Objects, NIL, CLASS_CG_COLOR_SPACE};

verus! {

pub const kCGColorSpaceGenericRGB: &'static str = "kCGColorSpaceGenericRGB";

/// Create the named colour space.  Only the generic RGB name is accepted:
/// `name` must equal the interned generic-RGB string object.
pub fn CGColorSpaceCreateWithName(o: &mut Objects, name: ObjId, generic_rgb: ObjId) -> (r: ObjId)
    requires
        old(o).live(name),
        old(o).live(generic_rgb),
        old(o).eq_at(name, generic_rgb),
        old(o).len() < usize::MAX,
    ensures
        r != NIL,
        !old(o).live(r),
        final(o).live(r),
        final(o).info(r) == (ObjectInfo {
            refcount: 1,
            class: CLASS_CG_COLOR_SPACE,
            hash: r as u64,
            eq_token: r as u64,
        }),
        final(o).len() == old(o).len() + 1,
        Objects::unchanged_except(*old(o), *final(o), set![r]),
        old(o).wf() ==> final(o).wf(),
{
    o.alloc_plain(CLASS_CG_COLOR_SPACE)
}

/// Create the device RGB colour space, which this layer treats as the
/// generic RGB space.
pub fn CGColorSpaceCreateDeviceRGB(o: &mut Objects) -> (r: ObjId)
    requires
        old(o).len() < usize::MAX,
    ensures
        r != NIL,
        !old(o).live(r),
        final(o).live(r),
        final(o).info(r) == (ObjectInfo {
            refcount: 1,
            class: CLASS_CG_COLOR_SPACE,
            hash: r as u64,
            eq_token: r as u64,
        }),
        final(o).len() == old(o).len() + 1,
        Objects::unchanged_except(*old(o), *final(o), set![r]),
        old(o).wf() ==> final(o).wf(),
{
    o.alloc_plain(CLASS_CG_COLOR_SPACE)
}

/// The device grey space is served as the device RGB space.
pub fn CGColorSpaceCreateDeviceGray(o: &mut Objects) -> (r: ObjId)
    requires
        old(o).len() < usize::MAX,
    ensures
        r != NIL,
        !old(o).live(r),
        final(o).live(r),
        final(o).info(r) == (ObjectInfo {
            refcount: 1,
            class: CLASS_CG_COLOR_SPACE,
            hash: r as u64,
            eq_token: r as u64,
        }),
        final(o).len() == old(o).len() + 1,
        Objects::unchanged_except(*old(o), *final(o), set![r]),
        old(o).wf() ==> final(o).wf(),
{
    CGColorSpaceCreateDeviceRGB(o)
}

/// Release a colour space; the nil handle is tolerated and ignored.
pub fn CGColorSpaceRelease(o: &mut Objects, cs: ObjId)
    requires
        cs != NIL ==> old(o).live(cs),
    ensures
        cs == NIL ==> *final(o) == *old(o),
        cs != NIL && old(o).info(cs).refcount > 1 ==> final(o).live(cs) && final(o).info(cs)
            == (ObjectInfo { refcount: (old(o).info(cs).refcount - 1) as u32, ..old(o).info(cs) }),
        cs != NIL && old(o).info(cs).refcount <= 1 ==> !final(o).live(cs),
        cs != NIL ==> Objects::unchanged_except(*old(o), *final(o), set![cs]),
        final(o).len() == old(o).len(),
        old(o).wf() ==> final(o).wf(),
{
    if cs != NIL {
        o.release(cs);
    }
}

/// Retain a colour space and hand it back; the nil handle is passed
/// through untouched.
pub fn CGColorSpaceRetain(o: &mut Objects, cs: ObjId) -> (r: ObjId)
    requires
        cs != NIL ==> old(o).live(cs) && old(o).info(cs).refcount < u32::MAX,
    ensures
        r == cs,
        cs == NIL ==> *final(o) == *old(o),
        cs != NIL ==> final(o).live(cs) && final(o).info(cs) == (ObjectInfo {
            refcount: (old(o).info(cs).refcount + 1) as u32,
            ..old(o).info(cs)
        }) && Objects::unchanged_except(*old(o), *final(o), set![cs]),
        final(o).len() == old(o).len(),
        old(o).wf() ==> final(o).wf(),
{
    if cs != NIL {
        o.retain(cs)
    } else {
        cs
    }
}

/// Every colour space here is an RGB-model space.
pub fn CGColorSpaceGetModel() -> (r: i32)
    ensures
        r == 1,
{
    1
}

/// Every image is served at 32 bits per pixel.
pub fn CGImageGetBitsPerPixel(_image: ObjId) -> (r: i32)
    ensures
        r == 32,
{
    4 * 8
}

/// Every colour reports the generic RGB space: a fresh colour-space object
/// is created for the caller to own.
pub fn CGColorGetColorSpace(o: &mut Objects, _color: ObjId, generic_rgb: ObjId) -> (r: ObjId)
    requires
        old(o).live(generic_rgb),
        old(o).len() < usize::MAX,
    ensures
        r != NIL,
        !old(o).live(r),
        final(o).live(r),
        final(o).info(r) == (ObjectInfo {
            refcount: 1,
            class: CLASS_CG_COLOR_SPACE,
            hash: r as u64,
            eq_token: r as u64,
        }),
        final(o).len() == old(o).len() + 1,
        Objects::unchanged_except(*old(o), *final(o), set![r]),
        old(o).wf() ==> final(o).wf(),
{
    CGColorSpaceCreateWithName(o, generic_rgb, generic_rgb)
}

} // verus!
