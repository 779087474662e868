//! Object registry: the side table that maps opaque handles to host-side
//! object state.
//!
//! A handle ([`ObjId`]) is a lightweight token; the registry owns one record
//! per live object, holding its reference count, its class tag, and the two
//! results of the object's dynamic behaviour that the collection code needs:
//! the object's hash code and its equality token.  Two live objects are equal
//! exactly when they are the same handle or carry the same equality token,
//! which models equality defined by the objects' own (possibly overridden)
//! behaviour rather than by the container.

use vstd::prelude::*;

verus! {

/// Handle to a registered object; [`NIL`] is the "no object" sentinel.
pub type ObjId = usize;

/// The nil handle: never live, never equal to any live object.
pub const NIL: ObjId = 0;

/// Class tag of a plain object (identity hash and equality).
pub const CLASS_OBJECT: u32 = 1;

/// Class tag of a string-like object (hash and equality from its contents).
pub const CLASS_STRING: u32 = 2;

/// Class tag of a colour-space object.
pub const CLASS_CG_COLOR_SPACE: u32 = 3;

/// Per-object record kept by the registry.
#[derive(Clone, Copy)]
pub struct ObjectInfo {
    /// Number of live references; a live object always holds at least one.
    pub refcount: u32,
    /// Class tag of the object.
    pub class: u32,
    /// Result of the object's dynamic `hash` behaviour.
    pub hash: u64,
    /// Equality token: two live objects are equal when their tokens agree.
    pub eq_token: u64,
}

/// The registry itself.  Slots are never reused: a freed slot stays empty,
/// so a dead handle can never be mistaken for a younger object.
pub struct Objects {
    pub slots: Vec<Option<ObjectInfo>>,
}

impl Objects {
    /// Number of slots ever allocated.
    pub open spec fn len(self) -> nat {
        self.slots@.len()
    }

    /// True when `id` names a live object.
    pub open spec fn live(self, id: ObjId) -> bool {
        1 <= id <= self.slots@.len() && self.slots@[id - 1].is_some()
    }

    /// The record of a live object.
    pub open spec fn info(self, id: ObjId) -> ObjectInfo
        recommends
            self.live(id),
    {
        self.slots@[id - 1].unwrap()
    }

    /// Dynamic hash of a handle; the nil handle hashes to zero, as a message
    /// to nil answers zero.
    pub open spec fn hash_of(self, id: ObjId) -> u64 {
        if self.live(id) {
            self.info(id).hash
        } else {
            0
        }
    }

    /// Reference count of a handle, zero when dead.
    pub open spec fn refcount_of(self, id: ObjId) -> nat {
        if self.live(id) {
            self.info(id).refcount as nat
        } else {
            0
        }
    }

    /// Dynamic equality: same handle, or two live objects with the same
    /// equality token.
    pub open spec fn eq_at(self, a: ObjId, b: ObjId) -> bool {
        a == b || (self.live(a) && self.live(b) && self.info(a).eq_token == self.info(b).eq_token)
    }

    /// Equal objects hash alike.  The hash and equality behaviours are
    /// guest-supplied, so the registry cannot force this; operations that
    /// rely on it take it as a hypothesis.
    pub open spec fn hash_coherent(self) -> bool {
        forall|a: ObjId, b: ObjId| self.eq_at(a, b) ==> self.hash_of(a) == self.hash_of(b)
    }

    /// A live object always holds at least one reference.
    pub open spec fn wf(self) -> bool {
        forall|id: ObjId| self.live(id) ==> (#[trigger] self.refcount_of(id)) >= 1
    }

    /// `post` agrees with `pre` at handle `o`.
    pub open spec fn same_at(pre: Objects, post: Objects, o: ObjId) -> bool {
        post.live(o) == pre.live(o) && (pre.live(o) ==> post.info(o) == pre.info(o))
    }

    /// Every handle outside `except` is untouched.
    pub open spec fn unchanged_except(pre: Objects, post: Objects, except: Set<ObjId>) -> bool {
        forall|o: ObjId| !except.contains(o) ==> #[trigger] Objects::same_at(pre, post, o)
    }

    /// `post` agrees with `pre` on `o`'s liveness and dynamic behaviour; the
    /// reference count may differ.
    pub open spec fn beh_same_at(pre: Objects, post: Objects, o: ObjId) -> bool {
        post.live(o) == pre.live(o) && (pre.live(o) ==> post.info(o).hash == pre.info(o).hash
            && post.info(o).eq_token == pre.info(o).eq_token && post.info(o).class == pre.info(
            o,
        ).class)
    }

    /// Touching one handle keeps every live object's reference count positive.
    proof fn lemma_wf_preserved(pre: Objects, post: Objects, id: ObjId)
        requires
            pre.wf(),
            Objects::unchanged_except(pre, post, set![id]),
            post.live(id) ==> post.refcount_of(id) >= 1,
        ensures
            post.wf(),
    {
        assert forall|o: ObjId| post.live(o) implies (#[trigger] post.refcount_of(o)) >= 1 by {
            if o != id {
                assert(Objects::same_at(pre, post, o));
                assert(pre.refcount_of(o) >= 1);
            }
        }
    }

    /// Fresh, empty registry.
    pub fn new() -> (r: Objects)
        ensures
            r.len() == 0,
            forall|id: ObjId| !r.live(id),
            r.wf(),
    {
        Objects { slots: Vec::new() }
    }

    /// Register a new object with explicit dynamic behaviour results, with
    /// one reference held by the caller.
    pub fn alloc_with(&mut self, class: u32, hash: u64, eq_token: u64) -> (id: ObjId)
        requires
            old(self).len() < usize::MAX,
        ensures
            id != NIL,
            !old(self).live(id),
            final(self).live(id),
            final(self).info(id) == (ObjectInfo { refcount: 1, class, hash, eq_token }),
            final(self).len() == old(self).len() + 1,
            Objects::unchanged_except(*old(self), *final(self), set![id]),
            old(self).wf() ==> final(self).wf(),
    {
        let info = ObjectInfo { refcount: 1, class, hash, eq_token };
        self.slots.push(Some(info));
        let id = self.slots.len();
        assert forall|o: ObjId| !set![id].contains(o) implies #[trigger] Objects::same_at(
            *old(self),
            *self,
            o,
        ) by {};
        proof {
            if old(self).wf() {
                Objects::lemma_wf_preserved(*old(self), *self, id);
            }
        }
        id
    }

    /// Register a plain object: its identity is its own hash and equality
    /// token, so it equals no other object, as a default object does.
    pub fn alloc_plain(&mut self, class: u32) -> (id: ObjId)
        requires
            old(self).len() < usize::MAX,
        ensures
            id != NIL,
            !old(self).live(id),
            final(self).live(id),
            final(self).info(id) == (ObjectInfo {
                refcount: 1,
                class,
                hash: id as u64,
                eq_token: id as u64,
            }),
            final(self).len() == old(self).len() + 1,
            Objects::unchanged_except(*old(self), *final(self), set![id]),
            old(self).wf() ==> final(self).wf(),
    {
        let id = self.slots.len() + 1;
        let info = ObjectInfo { refcount: 1, class, hash: id as u64, eq_token: id as u64 };
        self.slots.push(Some(info));
        assert forall|o: ObjId| !set![id].contains(o) implies #[trigger] Objects::same_at(
            *old(self),
            *self,
            o,
        ) by {};
        proof {
            if old(self).wf() {
                Objects::lemma_wf_preserved(*old(self), *self, id);
            }
        }
        id
    }

    /// Take one more reference to a live object and hand the handle back.
    pub fn retain(&mut self, id: ObjId) -> (r: ObjId)
        requires
            old(self).live(id),
            old(self).info(id).refcount < u32::MAX,
        ensures
            r == id,
            final(self).live(id),
            final(self).info(id) == (ObjectInfo {
                refcount: (old(self).info(id).refcount + 1) as u32,
                ..old(self).info(id)
            }),
            final(self).len() == old(self).len(),
            Objects::unchanged_except(*old(self), *final(self), set![id]),
            old(self).wf() ==> final(self).wf(),
    {
        let slot = &mut self.slots[id - 1];
        match slot {
            Some(info) => {
                info.refcount = info.refcount + 1;
            },
            None => {
                proof {
                    assert(false);
                }
            },
        }
        assert forall|o: ObjId| !set![id].contains(o) implies #[trigger] Objects::same_at(
            *old(self),
            *self,
            o,
        ) by {};
        proof {
            if old(self).wf() {
                Objects::lemma_wf_preserved(*old(self), *self, id);
            }
        }
        id
    }

    /// Give up one reference to a live object; the object is destroyed when
    /// its last reference goes.
    pub fn release(&mut self, id: ObjId)
        requires
            old(self).live(id),
        ensures
            old(self).info(id).refcount > 1 ==> final(self).live(id) && final(self).info(id)
                == (ObjectInfo {
                refcount: (old(self).info(id).refcount - 1) as u32,
                ..old(self).info(id)
            }),
            old(self).info(id).refcount <= 1 ==> !final(self).live(id),
            final(self).len() == old(self).len(),
            Objects::unchanged_except(*old(self), *final(self), set![id]),
            old(self).wf() ==> final(self).wf(),
    {
        let slot = &mut self.slots[id - 1];
        match slot {
            Some(info) => {
                if info.refcount > 1 {
                    info.refcount = info.refcount - 1;
                } else {
                    *slot = None;
                }
            },
            None => {
                proof {
                    assert(false);
                }
            },
        }
        assert forall|o: ObjId| !set![id].contains(o) implies #[trigger] Objects::same_at(
            *old(self),
            *self,
            o,
        ) by {};
        proof {
            if old(self).wf() {
                Objects::lemma_wf_preserved(*old(self), *self, id);
            }
        }
    }

    /// Produce an independent copy of a live object: a fresh handle, one
    /// reference, the same class and the same dynamic behaviour results.
    pub fn copy_object(&mut self, id: ObjId) -> (c: ObjId)
        requires
            old(self).live(id),
            old(self).len() < usize::MAX,
        ensures
            c != NIL,
            c != id,
            !old(self).live(c),
            final(self).live(c),
            final(self).info(c) == (ObjectInfo { refcount: 1, ..old(self).info(id) }),
            final(self).len() == old(self).len() + 1,
            Objects::unchanged_except(*old(self), *final(self), set![c]),
            old(self).wf() ==> final(self).wf(),
    {
        let info = match &self.slots[id - 1] {
            Some(info) => ObjectInfo { refcount: 1, ..*info },
            None => ObjectInfo { refcount: 1, class: 0, hash: 0, eq_token: 0 },
        };
        self.slots.push(Some(info));
        let c = self.slots.len();
        assert forall|o: ObjId| !set![c].contains(o) implies #[trigger] Objects::same_at(
            *old(self),
            *self,
            o,
        ) by {};
        proof {
            if old(self).wf() {
                Objects::lemma_wf_preserved(*old(self), *self, c);
            }
        }
        c
    }

    /// Overwrite a live object's dynamic behaviour results: the model of
    /// guest code mutating a mutable object in place.
    pub fn set_behaviour(&mut self, id: ObjId, hash: u64, eq_token: u64)
        requires
            old(self).live(id),
        ensures
            final(self).live(id),
            final(self).info(id) == (ObjectInfo { hash, eq_token, ..old(self).info(id) }),
            final(self).len() == old(self).len(),
            Objects::unchanged_except(*old(self), *final(self), set![id]),
            old(self).wf() ==> final(self).wf(),
    {
        let slot = &mut self.slots[id - 1];
        match slot {
            Some(info) => {
                info.hash = hash;
                info.eq_token = eq_token;
            },
            None => {
                proof {
                    assert(false);
                }
            },
        }
        assert forall|o: ObjId| !set![id].contains(o) implies #[trigger] Objects::same_at(
            *old(self),
            *self,
            o,
        ) by {};
        proof {
            if old(self).wf() {
                assert(old(self).refcount_of(id) >= 1);
                Objects::lemma_wf_preserved(*old(self), *self, id);
            }
        }
    }

    /// Dynamic hash of a handle; total, a message to nil answers zero.
    pub fn dynamic_hash(&self, id: ObjId) -> (r: u64)
        ensures
            r == self.hash_of(id),
    {
        if 1 <= id && id <= self.slots.len() {
            match &self.slots[id - 1] {
                Some(info) => info.hash,
                None => 0,
            }
        } else {
            0
        }
    }

    /// Dynamic equality check; total.
    pub fn dynamic_equals(&self, a: ObjId, b: ObjId) -> (r: bool)
        ensures
            r == self.eq_at(a, b),
    {
        if a == b {
            return true;
        }
        if 1 <= a && a <= self.slots.len() && 1 <= b && b <= self.slots.len() {
            match (&self.slots[a - 1], &self.slots[b - 1]) {
                (Some(ia), Some(ib)) => ia.eq_token == ib.eq_token,
                _ => false,
            }
        } else {
            false
        }
    }

    /// True when the handle names a live object.
    pub fn is_live(&self, id: ObjId) -> (r: bool)
        ensures
            r == self.live(id),
    {
        1 <= id && id <= self.slots.len() && self.slots[id - 1].is_some()
    }

    /// Observed reference count of a handle, zero when dead.
    pub fn refcount(&self, id: ObjId) -> (r: u64)
        ensures
            r == self.refcount_of(id),
    {
        if 1 <= id && id <= self.slots.len() {
            match &self.slots[id - 1] {
                Some(info) => info.refcount as u64,
                None => 0,
            }
        } else {
            0
        }
    }

    /// Class tag of a handle, zero when dead.
    pub fn class_of(&self, id: ObjId) -> (r: u32)
        ensures
            self.live(id) ==> r == self.info(id).class,
            !self.live(id) ==> r == 0,
    {
        if 1 <= id && id <= self.slots.len() {
            match &self.slots[id - 1] {
                Some(info) => info.class,
                None => 0,
            }
        } else {
            0
        }
    }
}

} // verus!
