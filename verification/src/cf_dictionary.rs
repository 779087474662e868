//! Core Foundation dictionary entry points, bridged onto the collection
//! table of [`crate::ns_dictionary`].

use vstd::prelude::*;
use crate::ns_dictionary::DictionaryHostObject;
use crate::objc::{ObjId, Objects, NIL};

verus! {

/// Create a mutable dictionary.  Only the default allocator, no fixed
/// capacity and the null key and value callbacks are supported, which is
/// what the targeted guests pass.
pub fn CFDictionaryCreateMutable(
    allocator_is_default: bool,
    capacity: i32,
    key_callbacks_null: bool,
    value_callbacks_null: bool,
) -> (r: DictionaryHostObject)
    requires
        allocator_is_default,
        capacity == 0,
        key_callbacks_null,
        value_callbacks_null,
    ensures
        r.count == 0,
        r.num_buckets() == 0,
        forall|o: Objects, key: ObjId| r.spec_lookup(o, key) == NIL,
        forall|o: Objects| r.wf(o),
        r.ref_multiset() =~= vstd::multiset::Multiset::<ObjId>::empty(),
{
    DictionaryHostObject::new()
}

/// Store a value under a key, without copying the key, as the non-retaining
/// dictionary flavour behind this entry point does.
pub fn CFDictionarySetValue(
    dict: &mut DictionaryHostObject,
    o: &mut Objects,
    key: ObjId,
    value: ObjId,
)
    requires
        old(dict).wf(*old(o)),
        old(o).wf(),
        old(o).live(key),
        old(o).live(value),
        old(o).refcount_of(key) > old(dict).ref_multiset().count(key),
        old(dict).count < u32::MAX,
        old(o).len() < usize::MAX,
        old(o).info(value).refcount + 2 <= u32::MAX,
        old(o).info(key).refcount + 2 <= u32::MAX,
    ensures
        DictionaryHostObject::insert_post(
            *old(dict),
            *final(dict),
            *old(o),
            *final(o),
            key,
            value,
            false,
        ),
{
    dict.insert(o, key, value, false)
}

/// Number of entries, as the signed index type of this API family.
pub fn CFDictionaryGetCount(dict: &DictionaryHostObject) -> (r: i32)
    requires
        dict.count <= i32::MAX,
    ensures
        r == dict.count,
{
    dict.count as i32
}

/// Fill the caller's key buffer with every stored key in enumeration
/// order; the value buffer of this entry point is not served and must not
/// be requested.
pub fn CFDictionaryGetKeysAndValues(dict: &DictionaryHostObject, values_requested: bool) -> (r: Vec<
    ObjId,
>)
    requires
        !values_requested,
    ensures
        r@ == dict.keys_seq(),
{
    dict.iter_keys()
}

/// Serialising a property list to XML data is not implemented: the guest
/// receives the nil handle.
pub fn CFPropertyListCreateXMLData(_property_list: ObjId) -> (r: ObjId)
    ensures
        r == NIL,
{
    NIL
}

/// Parsing XML property-list data is not implemented: the interned error
/// string is reported and the guest receives the nil handle.
pub fn CFPropertyListCreateFromXMLData(_xml_data: ObjId, error_str: ObjId) -> (r: (ObjId, ObjId))
    ensures
        r.0 == NIL,
        r.1 == error_str,
{
    (NIL, error_str)
}

} // verus!
