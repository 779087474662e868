//! The collision-bucket map backing the dictionary and set collection
//! classes.
//!
//! Keys and values are opaque reference-counted handles whose hash and
//! equality are computed by dynamic dispatch (see [`crate::objc`]), so the
//! container cannot use the host language's native hashing.  The table maps
//! each hash code to the ordered list of entries whose keys share that code;
//! two distinct keys may share a hash code, but no bucket ever holds two
//! entries with equal keys.  The container owns one reference to every stored
//! key and every stored value.

use vstd::prelude::*;
use crate::objc::{ObjId, ObjectInfo, Objects, NIL};
use vstd::multiset::Multiset;

verus! {

/// Unsigned integer of the guest's word size.
pub type NSUInteger = u32;

/// The bucket table of a dictionary (or set) instance.
pub struct DictionaryHostObject {
    /// One slot per hash code in use: the code and its entries, each entry an
    /// owned `(key, value)` pair in insertion order.
    pub map: Vec<(u64, Vec<(ObjId, ObjId)>)>,
    /// Number of live entries across all buckets.
    pub count: NSUInteger,
}

impl DictionaryHostObject {
    /// Number of buckets.
    pub open spec fn num_buckets(self) -> nat {
        self.map@.len()
    }

    /// Hash code of bucket `i`.
    pub open spec fn bucket_hash(self, i: int) -> u64 {
        self.map@[i].0
    }

    /// Entries of bucket `i`.
    pub open spec fn bucket(self, i: int) -> Seq<(ObjId, ObjId)> {
        self.map@[i].1@
    }

    /// Index of the first bucket carrying hash `h`, scanning from `i`;
    /// `-1` when there is none.
    pub open spec fn find_bucket_from(self, h: u64, i: int) -> int
        decreases self.num_buckets() - i,
    {
        if i < 0 || i >= self.num_buckets() {
            -1
        } else if self.bucket_hash(i) == h {
            i
        } else {
            self.find_bucket_from(h, i + 1)
        }
    }

    /// Index of the bucket carrying hash `h`, `-1` when there is none.
    pub open spec fn find_bucket(self, h: u64) -> int {
        self.find_bucket_from(h, 0)
    }

    /// First value among `entries` whose key equals `key` under `o`;
    /// [`NIL`] when no key matches.
    pub open spec fn bucket_lookup(o: Objects, entries: Seq<(ObjId, ObjId)>, key: ObjId) -> ObjId
        decreases entries.len(),
    {
        if entries.len() == 0 {
            NIL
        } else if o.eq_at(entries[0].0, key) {
            entries[0].1
        } else {
            Self::bucket_lookup(o, entries.drop_first(), key)
        }
    }

    /// Some key among `entries` equals `key` under `o`.
    pub open spec fn bucket_has(o: Objects, entries: Seq<(ObjId, ObjId)>, key: ObjId) -> bool {
        exists|j: int| 0 <= j < entries.len() && o.eq_at(entries[j].0, key)
    }

    /// The value stored under `key`, [`NIL`] when the key is absent: hash the
    /// key, find its bucket, take the first entry with an equal key.
    pub open spec fn spec_lookup(self, o: Objects, key: ObjId) -> ObjId {
        let i = self.find_bucket(o.hash_of(key));
        if i >= 0 {
            Self::bucket_lookup(o, self.bucket(i), key)
        } else {
            NIL
        }
    }

    /// Keys of the buckets from index `i` on, bucket-major, in within-bucket
    /// insertion order.
    pub open spec fn keys_from(self, i: int) -> Seq<ObjId>
        decreases self.num_buckets() - i,
    {
        if i < 0 || i >= self.num_buckets() {
            Seq::empty()
        } else {
            self.bucket(i).map_values(|e: (ObjId, ObjId)| e.0) + self.keys_from(i + 1)
        }
    }

    /// All stored keys in enumeration order.
    pub open spec fn keys_seq(self) -> Seq<ObjId> {
        self.keys_from(0)
    }

    /// The handles referenced by a run of entries, with multiplicity: one per
    /// stored key and one per stored value.
    pub open spec fn refs_of_entries(entries: Seq<(ObjId, ObjId)>) -> Multiset<ObjId>
        decreases entries.len(),
    {
        if entries.len() == 0 {
            Multiset::empty()
        } else {
            Self::refs_of_entries(entries.drop_last()).insert(entries.last().0).insert(
                entries.last().1,
            )
        }
    }

    /// References held by the buckets from index `i` on.
    pub open spec fn refs_from(self, i: int) -> Multiset<ObjId>
        decreases self.num_buckets() - i,
    {
        if i < 0 || i >= self.num_buckets() {
            Multiset::empty()
        } else {
            Self::refs_of_entries(self.bucket(i)).add(self.refs_from(i + 1))
        }
    }

    /// Every reference the container holds: one per stored key and one per
    /// stored value.
    pub open spec fn ref_multiset(self) -> Multiset<ObjId> {
        self.refs_from(0)
    }

    /// Entry `j` of bucket `i` is sound: key and value live, and the key
    /// hashes to its bucket's code.
    pub open spec fn entry_ok(self, o: Objects, i: int, j: int) -> bool {
        let e = self.bucket(i)[j];
        o.live(e.0) && o.live(e.1) && o.hash_of(e.0) == self.bucket_hash(i)
    }

    /// Structural soundness of the bucket table under registry `o`.
    pub open spec fn wf_buckets(self, o: Objects) -> bool {
        &&& forall|i: int, j: int|
            0 <= i < self.num_buckets() && 0 <= j < self.bucket(i).len()
                ==> #[trigger] self.entry_ok(o, i, j)
        &&& forall|i: int, j1: int, j2: int|
            0 <= i < self.num_buckets() && 0 <= j1 < j2 < self.bucket(i).len() ==> !(
            #[trigger] o.eq_at(self.bucket(i)[j1].0, self.bucket(i)[j2].0))
        &&& forall|i1: int, i2: int|
            0 <= i1 < i2 < self.num_buckets() ==> #[trigger] self.bucket_hash(i1)
                != #[trigger] self.bucket_hash(i2)
    }

    /// Full well-formedness under registry `o`: the table is structurally
    /// sound, the running count matches the number of entries, and every
    /// handle's reference count covers the references the container holds.
    pub open spec fn wf(self, o: Objects) -> bool {
        &&& self.wf_buckets(o)
        &&& self.count == self.keys_seq().len()
        &&& forall|x: ObjId| (#[trigger] self.ref_multiset().count(x)) <= o.refcount_of(x)
    }

    /// Index of the first match of `key` among `entries` under `o`; `-1`
    /// when no key matches.
    pub open spec fn first_match_idx(o: Objects, entries: Seq<(ObjId, ObjId)>, key: ObjId) -> int
        decreases entries.len(),
    {
        if entries.len() == 0 {
            -1
        } else if o.eq_at(entries[0].0, key) {
            0
        } else {
            let r = Self::first_match_idx(o, entries.drop_first(), key);
            if r == -1 {
                -1
            } else {
                r + 1
            }
        }
    }

    /// What `find_bucket_from` finds: the first bucket from `i` on carrying
    /// hash `h`, or nothing when no such bucket exists.
    proof fn lemma_find_bucket_from(self, h: u64, i: int)
        requires
            0 <= i,
        ensures
            self.find_bucket_from(h, i) == -1 ==> (forall|k: int|
                i <= k < self.num_buckets() ==> #[trigger] self.bucket_hash(k) != h),
            self.find_bucket_from(h, i) != -1 ==> i <= self.find_bucket_from(h, i)
                < self.num_buckets() && self.bucket_hash(self.find_bucket_from(h, i)) == h && (
            forall|k: int|
                i <= k < self.find_bucket_from(h, i) ==> #[trigger] self.bucket_hash(k) != h),
        decreases self.num_buckets() - i,
    {
        if i < self.num_buckets() && self.bucket_hash(i) != h {
            self.lemma_find_bucket_from(h, i + 1);
        }
    }

    /// What `bucket_lookup` answers, in terms of the first matching index.
    proof fn lemma_bucket_lookup_chars(o: Objects, entries: Seq<(ObjId, ObjId)>, key: ObjId)
        ensures
            Self::first_match_idx(o, entries, key) == -1 ==> !Self::bucket_has(o, entries, key)
                && Self::bucket_lookup(o, entries, key) == NIL,
            Self::first_match_idx(o, entries, key) != -1 ==> 0 <= Self::first_match_idx(
                o,
                entries,
                key,
            ) < entries.len() && o.eq_at(entries[Self::first_match_idx(o, entries, key)].0, key)
                && (forall|j: int|
                0 <= j < Self::first_match_idx(o, entries, key) ==> !o.eq_at(
                    (#[trigger] entries[j]).0,
                    key,
                )) && Self::bucket_lookup(o, entries, key) == entries[Self::first_match_idx(
                o,
                entries,
                key,
            )].1 && Self::bucket_has(o, entries, key),
        decreases entries.len(),
    {
        if entries.len() == 0 {
        } else if o.eq_at(entries[0].0, key) {
        } else {
            let tail = entries.drop_first();
            Self::lemma_bucket_lookup_chars(o, tail, key);
            assert forall|j: int| 0 <= j < entries.len() implies (#[trigger] entries[j])
                == if j == 0 {
                entries[0]
            } else {
                tail[j - 1]
            } by {}
            let r = Self::first_match_idx(o, tail, key);
            if r == -1 {
                assert(!Self::bucket_has(o, entries, key)) by {
                    if Self::bucket_has(o, entries, key) {
                        let j = choose|j: int|
                            0 <= j < entries.len() && o.eq_at(entries[j].0, key);
                        assert(j > 0);
                        assert(o.eq_at(tail[j - 1].0, key));
                        assert(Self::bucket_has(o, tail, key));
                    }
                }
            } else {
                assert(o.eq_at(entries[r + 1].0, key));
                assert(Self::bucket_has(o, entries, key));
            }
        }
    }

    /// When every stored value is live, a nil answer means no key matched.
    proof fn lemma_bucket_lookup_nil(o: Objects, entries: Seq<(ObjId, ObjId)>, key: ObjId)
        requires
            forall|j: int| 0 <= j < entries.len() ==> o.live((#[trigger] entries[j]).1),
        ensures
            (Self::bucket_lookup(o, entries, key) == NIL) == (Self::first_match_idx(
                o,
                entries,
                key,
            ) == -1),
    {
        Self::lemma_bucket_lookup_chars(o, entries, key);
        let r = Self::first_match_idx(o, entries, key);
        if r != -1 {
            assert(o.live(entries[r].1));
        }
    }

    /// A bucket scan answers the same under two registries that agree on the
    /// stored keys' and the probe's liveness and behaviour.
    proof fn lemma_bucket_lookup_stable(
        pre: Objects,
        post: Objects,
        entries: Seq<(ObjId, ObjId)>,
        key: ObjId,
    )
        requires
            forall|j: int|
                0 <= j < entries.len() ==> Objects::beh_same_at(
                    pre,
                    post,
                    (#[trigger] entries[j]).0,
                ),
            Objects::beh_same_at(pre, post, key) || (!pre.live(key) && !post.live(key)),
        ensures
            Self::bucket_lookup(post, entries, key) == Self::bucket_lookup(pre, entries, key),
            Self::first_match_idx(post, entries, key) == Self::first_match_idx(pre, entries, key),
        decreases entries.len(),
    {
        if entries.len() > 0 {
            assert(Objects::beh_same_at(pre, post, entries[0].0));
            assert(post.eq_at(entries[0].0, key) == pre.eq_at(entries[0].0, key));
            let tail = entries.drop_first();
            assert forall|j: int| 0 <= j < tail.len() implies Objects::beh_same_at(
                pre,
                post,
                (#[trigger] tail[j]).0,
            ) by {
                assert(tail[j] == entries[j + 1]);
            }
            Self::lemma_bucket_lookup_stable(pre, post, tail, key);
        }
    }

    /// Appending an entry changes a bucket scan only for probes that nothing
    /// in the bucket matched before.
    proof fn lemma_bucket_lookup_push(
        o: Objects,
        entries: Seq<(ObjId, ObjId)>,
        e: (ObjId, ObjId),
        key: ObjId,
    )
        ensures
            Self::first_match_idx(o, entries, key) != -1 ==> Self::bucket_lookup(
                o,
                entries.push(e),
                key,
            ) == Self::bucket_lookup(o, entries, key),
            Self::first_match_idx(o, entries, key) == -1 && o.eq_at(e.0, key)
                ==> Self::bucket_lookup(o, entries.push(e), key) == e.1,
            Self::first_match_idx(o, entries, key) == -1 && !o.eq_at(e.0, key)
                ==> Self::bucket_lookup(o, entries.push(e), key) == NIL,
        decreases entries.len(),
    {
        reveal_with_fuel(DictionaryHostObject::bucket_lookup, 3);
        reveal_with_fuel(DictionaryHostObject::first_match_idx, 3);
        if entries.len() == 0 {
            assert(entries.push(e)[0] == e);
            assert(entries.push(e).drop_first() =~= Seq::<(ObjId, ObjId)>::empty());
            if o.eq_at(e.0, key) {
                assert(Self::bucket_lookup(o, entries.push(e), key) == e.1);
            } else {
                assert(Self::bucket_lookup(o, entries.push(e), key) == Self::bucket_lookup(
                    o,
                    entries.push(e).drop_first(),
                    key,
                ));
            }
            assert(Self::first_match_idx(o, entries, key) == -1 && o.eq_at(e.0, key)
                ==> Self::bucket_lookup(o, entries.push(e), key) == e.1);
            assert(Self::first_match_idx(o, entries, key) == -1 && !o.eq_at(e.0, key)
                ==> Self::bucket_lookup(o, entries.push(e), key) == NIL);
        } else {
            assert(entries.push(e)[0] == entries[0]);
            assert(entries.push(e).drop_first() =~= entries.drop_first().push(e));
            Self::lemma_bucket_lookup_push(o, entries.drop_first(), e, key);
            Self::lemma_bucket_lookup_chars(o, entries.drop_first(), key);
            if !o.eq_at(entries[0].0, key) {
                assert(Self::bucket_lookup(o, entries.push(e), key) == Self::bucket_lookup(
                    o,
                    entries.drop_first().push(e),
                    key,
                ));
            }
        }
    }

    /// Replacing the value at position `j`, keeping its key, redirects a
    /// bucket scan exactly when `j` is the first match.
    proof fn lemma_bucket_lookup_update(
        o: Objects,
        entries: Seq<(ObjId, ObjId)>,
        j: int,
        v: ObjId,
        key: ObjId,
    )
        requires
            0 <= j < entries.len(),
        ensures
            Self::first_match_idx(o, entries.update(j, (entries[j].0, v)), key)
                == Self::first_match_idx(o, entries, key),
            Self::bucket_lookup(o, entries.update(j, (entries[j].0, v)), key) == (
            if Self::first_match_idx(o, entries, key) == j {
                v
            } else {
                Self::bucket_lookup(o, entries, key)
            }),
        decreases entries.len(),
    {
        let upd = entries.update(j, (entries[j].0, v));
        if j == 0 {
            assert(upd[0] == (entries[0].0, v));
            if !o.eq_at(entries[0].0, key) {
                assert(upd.drop_first() =~= entries.drop_first());
            }
        } else {
            assert(upd[0] == entries[0]);
            if !o.eq_at(entries[0].0, key) {
                assert(upd.drop_first() =~= entries.drop_first().update(
                    j - 1,
                    (entries.drop_first()[j - 1].0, v),
                ));
                Self::lemma_bucket_lookup_update(o, entries.drop_first(), j - 1, v, key);
            }
        }
    }

    /// References of an extended run: the new key and value join once each.
    proof fn lemma_refs_of_entries_push(entries: Seq<(ObjId, ObjId)>, e: (ObjId, ObjId))
        ensures
            Self::refs_of_entries(entries.push(e)) =~= Self::refs_of_entries(entries).insert(
                e.0,
            ).insert(e.1),
    {
        assert(entries.push(e).drop_last() =~= entries);
        assert(entries.push(e).last() == e);
    }

    /// References after a value replacement: one occurrence of the old value
    /// leaves, one of the new value joins.
    proof fn lemma_refs_of_entries_update(entries: Seq<(ObjId, ObjId)>, j: int, v: ObjId)
        requires
            0 <= j < entries.len(),
        ensures
            Self::refs_of_entries(entries).count(entries[j].1) >= 1,
            Self::refs_of_entries(entries.update(j, (entries[j].0, v)))
                =~= Self::refs_of_entries(entries).remove(entries[j].1).insert(v),
        decreases entries.len(),
    {
        let upd = entries.update(j, (entries[j].0, v));
        if j == entries.len() - 1 {
            assert(upd.drop_last() =~= entries.drop_last());
            assert(upd.last() == (entries[j].0, v));
        } else {
            assert(entries.drop_last()[j] == entries[j]);
            Self::lemma_refs_of_entries_update(entries.drop_last(), j, v);
            assert(upd.drop_last() =~= entries.drop_last().update(j, (entries[j].0, v)));
            assert(upd.last() == entries.last());
        }
    }

    /// Every stored key and value occurs among the run's references.
    proof fn lemma_refs_of_entries_mem(entries: Seq<(ObjId, ObjId)>, j: int)
        requires
            0 <= j < entries.len(),
        ensures
            Self::refs_of_entries(entries).count(entries[j].0) >= 1,
            Self::refs_of_entries(entries).count(entries[j].1) >= 1,
            entries[j].0 == entries[j].1 ==> Self::refs_of_entries(entries).count(entries[j].0)
                >= 2,
        decreases entries.len(),
    {
        if j < entries.len() - 1 {
            assert(entries.drop_last()[j] == entries[j]);
            Self::lemma_refs_of_entries_mem(entries.drop_last(), j);
        }
    }

    /// `d2` has the same buckets as `d0` but for the entry list of bucket
    /// `bi`.
    pub open spec fn same_but_bucket(d0: Self, d2: Self, bi: int) -> bool {
        &&& d2.num_buckets() == d0.num_buckets()
        &&& 0 <= bi < d0.num_buckets()
        &&& forall|i: int|
            0 <= i < d0.num_buckets() ==> #[trigger] d2.bucket_hash(i) == d0.bucket_hash(i)
        &&& forall|i: int|
            0 <= i < d0.num_buckets() && i != bi ==> #[trigger] d2.bucket(i) == d0.bucket(i)
    }

    /// Two tables with the same hashes find the same buckets.
    proof fn lemma_find_bucket_same(d0: Self, d2: Self, h: u64, i: int)
        requires
            0 <= i,
            d2.num_buckets() == d0.num_buckets(),
            forall|k: int|
                0 <= k < d0.num_buckets() ==> #[trigger] d2.bucket_hash(k) == d0.bucket_hash(k),
        ensures
            d2.find_bucket_from(h, i) == d0.find_bucket_from(h, i),
        decreases d0.num_buckets() - i,
    {
        if i < d0.num_buckets() && d0.bucket_hash(i) != h {
            Self::lemma_find_bucket_same(d0, d2, h, i + 1);
        }
    }

    /// Effect of appending one entry to bucket `bi` on the key count and the
    /// held references, for every suffix of the table.
    proof fn lemma_push_entry_from(d0: Self, d2: Self, bi: int, e: (ObjId, ObjId), i: int)
        requires
            Self::same_but_bucket(d0, d2, bi),
            d2.bucket(bi) == d0.bucket(bi).push(e),
            0 <= i <= d0.num_buckets(),
        ensures
            d2.refs_from(i) =~= (if i <= bi {
                d0.refs_from(i).insert(e.0).insert(e.1)
            } else {
                d0.refs_from(i)
            }),
            d2.keys_from(i).len() == d0.keys_from(i).len() + (if i <= bi {
                1int
            } else {
                0
            }),
        decreases d0.num_buckets() - i,
    {
        if i < d0.num_buckets() {
            Self::lemma_push_entry_from(d0, d2, bi, e, i + 1);
            if i == bi {
                Self::lemma_refs_of_entries_push(d0.bucket(bi), e);
            }
        }
    }

    /// Effect of replacing the value at `(bi, j)` on the keys and the held
    /// references, for every suffix of the table.
    proof fn lemma_update_entry_from(d0: Self, d2: Self, bi: int, j: int, v: ObjId, i: int)
        requires
            Self::same_but_bucket(d0, d2, bi),
            0 <= j < d0.bucket(bi).len(),
            d2.bucket(bi) == d0.bucket(bi).update(j, (d0.bucket(bi)[j].0, v)),
            0 <= i <= d0.num_buckets(),
        ensures
            i <= bi ==> d0.refs_from(i).count(d0.bucket(bi)[j].1) >= 1,
            d2.refs_from(i) =~= (if i <= bi {
                d0.refs_from(i).remove(d0.bucket(bi)[j].1).insert(v)
            } else {
                d0.refs_from(i)
            }),
            d2.keys_from(i) =~= d0.keys_from(i),
        decreases d0.num_buckets() - i,
    {
        if i < d0.num_buckets() {
            Self::lemma_update_entry_from(d0, d2, bi, j, v, i + 1);
            if i == bi {
                Self::lemma_refs_of_entries_update(d0.bucket(bi), j, v);
                assert(d2.bucket(bi).map_values(|en: (ObjId, ObjId)| en.0) =~= d0.bucket(
                    bi,
                ).map_values(|en: (ObjId, ObjId)| en.0));
            }
        }
    }

    /// Effect of appending a fresh bucket on the key count and the held
    /// references, for every suffix of the old table.
    proof fn lemma_append_bucket_from(d0: Self, d2: Self, i: int)
        requires
            d2.num_buckets() == d0.num_buckets() + 1,
            forall|k: int|
                0 <= k < d0.num_buckets() ==> #[trigger] d2.bucket_hash(k) == d0.bucket_hash(k),
            forall|k: int| 0 <= k < d0.num_buckets() ==> #[trigger] d2.bucket(k) == d0.bucket(k),
            0 <= i <= d0.num_buckets(),
        ensures
            d2.refs_from(i) =~= d0.refs_from(i).add(
                Self::refs_of_entries(d2.bucket(d0.num_buckets() as int)),
            ),
            d2.keys_from(i) =~= d0.keys_from(i) + d2.bucket(d0.num_buckets() as int).map_values(
                |en: (ObjId, ObjId)| en.0,
            ),
        decreases d0.num_buckets() - i,
    {
        if i < d0.num_buckets() {
            Self::lemma_append_bucket_from(d0, d2, i + 1);
        } else {
            assert(d2.refs_from(i + 1) =~= Multiset::<ObjId>::empty());
            assert(d2.keys_from(i + 1) =~= Seq::<ObjId>::empty());
            assert(d0.refs_from(i) =~= Multiset::<ObjId>::empty());
            assert(d0.keys_from(i) =~= Seq::<ObjId>::empty());
        }
    }

    /// The stored keys' liveness and behaviour agree between `pre` and
    /// `post`.
    pub open spec fn entries_beh_stable(self, pre: Objects, post: Objects) -> bool {
        forall|i: int, j: int|
            0 <= i < self.num_buckets() && 0 <= j < self.bucket(i).len() ==> Objects::beh_same_at(
                pre,
                post,
                (#[trigger] self.bucket(i)[j]).0,
            )
    }

    /// A lookup answers the same under two registries that agree on the
    /// behaviour of the stored keys and of the probe.
    proof fn lemma_spec_lookup_stable(self, pre: Objects, post: Objects, key: ObjId)
        requires
            self.entries_beh_stable(pre, post),
            Objects::beh_same_at(pre, post, key) || (!pre.live(key) && !post.live(key)),
        ensures
            self.spec_lookup(post, key) == self.spec_lookup(pre, key),
    {
        assert(post.hash_of(key) == pre.hash_of(key));
        let h = pre.hash_of(key);
        self.lemma_find_bucket_from(h, 0);
        let i = self.find_bucket(h);
        if i >= 0 {
            assert forall|j: int| 0 <= j < self.bucket(i).len() implies Objects::beh_same_at(
                pre,
                post,
                (#[trigger] self.bucket(i)[j]).0,
            ) by {}
            Self::lemma_bucket_lookup_stable(pre, post, self.bucket(i), key);
        }
    }

    /// Every stored key's position also appears in the key sequence.
    proof fn lemma_keys_from_mem(self, k: int, i: int, j: int)
        requires
            0 <= k <= i < self.num_buckets(),
            0 <= j < self.bucket(i).len(),
        ensures
            self.keys_from(k).contains(self.bucket(i)[j].0),
        decreases i - k,
    {
        if k == i {
            assert(self.keys_from(k)[j] == self.bucket(i)[j].0);
        } else {
            self.lemma_keys_from_mem(k + 1, i, j);
            let x = self.bucket(i)[j].0;
            let tail = self.keys_from(k + 1);
            let t = choose|t: int| 0 <= t < tail.len() && tail[t] == x;
            assert(self.keys_from(k)[self.bucket(k).len() + t] == x);
        }
    }

    /// Every member of the key sequence is a stored key at some position.
    proof fn lemma_keys_from_mem_inv(self, k: int, x: ObjId)
        requires
            0 <= k,
            self.keys_from(k).contains(x),
        ensures
            exists|i: int, j: int|
                k <= i < self.num_buckets() && 0 <= j < self.bucket(i).len() && (
                #[trigger] self.bucket(i)[j]).0 == x,
        decreases self.num_buckets() - k,
    {
        let s = self.keys_from(k);
        let t = choose|t: int| 0 <= t < s.len() && s[t] == x;
        let head = self.bucket(k).map_values(|en: (ObjId, ObjId)| en.0);
        if t < head.len() {
            assert(self.bucket(k)[t].0 == x);
        } else {
            assert(self.keys_from(k + 1)[t - head.len()] == x);
            assert(self.keys_from(k + 1).contains(x));
            self.lemma_keys_from_mem_inv(k + 1, x);
        }
    }

    /// Where a table extended by one bucket finds its hashes.
    proof fn lemma_find_bucket_append(d0: Self, d2: Self, i: int, h: u64)
        requires
            d2.num_buckets() == d0.num_buckets() + 1,
            forall|k: int|
                0 <= k < d0.num_buckets() ==> #[trigger] d2.bucket_hash(k) == d0.bucket_hash(k),
            0 <= i <= d0.num_buckets(),
        ensures
            d0.find_bucket_from(h, i) != -1 ==> d2.find_bucket_from(h, i) == d0.find_bucket_from(
                h,
                i,
            ),
            d0.find_bucket_from(h, i) == -1 && d2.bucket_hash(d0.num_buckets() as int) == h
                ==> d2.find_bucket_from(h, i) == d0.num_buckets(),
            d0.find_bucket_from(h, i) == -1 && d2.bucket_hash(d0.num_buckets() as int) != h
                ==> d2.find_bucket_from(h, i) == -1,
        decreases d0.num_buckets() - i,
    {
        reveal_with_fuel(DictionaryHostObject::find_bucket_from, 3);
        if i < d0.num_buckets() && d0.bucket_hash(i) != h {
            Self::lemma_find_bucket_append(d0, d2, i + 1, h);
        } else if i == d0.num_buckets() {
            assert(d2.find_bucket_from(h, i + 1) == -1);
        }
    }

    /// The answers a table gives: `key` maps to `value`, for any equal probe
    /// that hashes like the key.
    pub open spec fn maps_to(self, o: Objects, key: ObjId, value: ObjId) -> bool {
        forall|p: ObjId|
            o.eq_at(p, key) && o.hash_of(p) == o.hash_of(key) ==> #[trigger] self.spec_lookup(o, p)
                == value
    }

    /// Reference-count change of one handle under an insertion: the stored
    /// value gains one reference; a retained (not copied) key gains one even
    /// when an equal key was already stored; the overwritten value, if any,
    /// loses its one reference from this table.
    pub open spec fn insert_rc_at(
        o0: Objects,
        o2: Objects,
        d0: Self,
        key: ObjId,
        value: ObjId,
        copy_key: bool,
        x: ObjId,
    ) -> bool {
        let vold = d0.spec_lookup(o0, key);
        let plus = (if !copy_key && x == key {
            1int
        } else {
            0int
        }) + (if x == value {
            1int
        } else {
            0int
        });
        let minus: int = if vold != NIL && x == vold {
            1
        } else {
            0
        };
        let net = o0.info(x).refcount + plus - minus;
        if net >= 1 {
            o2.live(x) && o2.info(x) == (ObjectInfo { refcount: net as u32, ..o0.info(x) })
        } else {
            !o2.live(x)
        }
    }

    /// Reference-count bookkeeping of one insertion over the whole registry.
    pub open spec fn insert_rc_effect(
        o0: Objects,
        o2: Objects,
        d0: Self,
        key: ObjId,
        value: ObjId,
        copy_key: bool,
    ) -> bool {
        forall|x: ObjId|
            o0.live(x) ==> #[trigger] Self::insert_rc_at(o0, o2, d0, key, value, copy_key, x)
    }

    /// Everything `insert` promises, relating the table and registry before
    /// (`d0`, `o0`) and after (`d2`, `o2`) the call.
    pub open spec fn insert_post(
        d0: Self,
        d2: Self,
        o0: Objects,
        o2: Objects,
        key: ObjId,
        value: ObjId,
        copy_key: bool,
    ) -> bool {
        &&& d2.wf(o2)
        &&& o2.wf()
        &&& d2.maps_to(o2, key, value)
        &&& forall|p: ObjId|
            o0.live(p) && o2.live(p) && !(o0.eq_at(p, key) && o0.hash_of(p) == o0.hash_of(key))
                ==> #[trigger] d2.spec_lookup(o2, p) == d0.spec_lookup(o0, p)
        &&& d2.count == d0.count + (if d0.spec_lookup(o0, key) == NIL {
            1int
        } else {
            0int
        })
        &&& Self::insert_rc_effect(o0, o2, d0, key, value, copy_key)
        &&& o2.len() == o0.len() + (if copy_key {
            1int
        } else {
            0int
        })
        &&& (!copy_key ==> forall|x: ObjId| #[trigger] o2.live(x) ==> o0.live(x))
        &&& (d0.spec_lookup(o0, key) == NIL && copy_key ==> !d2.keys_seq().contains(key))
        &&& forall|x: ObjId|
            o0.live(x) ==> #[trigger] d2.ref_multiset().count(x) == d0.ref_multiset().count(x) + (
            if x == value {
                1int
            } else {
                0int
            }) + (if !copy_key && x == key && d0.spec_lookup(o0, key) == NIL {
                1int
            } else {
                0int
            }) - (if d0.spec_lookup(o0, key) != NIL && x == d0.spec_lookup(o0, key) {
                1int
            } else {
                0int
            })
    }

    /// The registry after the key was copied or retained, its hash taken,
    /// and the value retained, before the table itself is touched.
    pub open spec fn prepared_at(
        o0: Objects,
        ob: Objects,
        key: ObjId,
        value: ObjId,
        copy_key: bool,
        x: ObjId,
    ) -> bool {
        ob.live(x) && ob.info(x) == (ObjectInfo {
            refcount: ((o0.info(x).refcount + (if !copy_key && x == key {
                1int
            } else {
                0int
            }) + (if x == value {
                1int
            } else {
                0int
            })) as u32),
            ..o0.info(x)
        })
    }

    pub open spec fn prepared(
        o0: Objects,
        ob: Objects,
        key: ObjId,
        value: ObjId,
        copy_key: bool,
        new_key: ObjId,
        hash: u64,
    ) -> bool {
        &&& forall|x: ObjId|
            o0.live(x) ==> #[trigger] Self::prepared_at(o0, ob, key, value, copy_key, x)
        &&& copy_key ==> !o0.live(new_key) && ob.live(new_key) && ob.info(new_key) == (ObjectInfo {
            refcount: 1,
            ..o0.info(key)
        }) && ob.len() == o0.len() + 1 && (forall|x: ObjId|
            !o0.live(x) && x != new_key ==> !(#[trigger] ob.live(x)))
        &&& (!copy_key ==> new_key == key && ob.len() == o0.len() && (forall|x: ObjId|
            !o0.live(x) ==> !(#[trigger] ob.live(x))))
        &&& hash == o0.hash_of(key)
        &&& ob.hash_of(new_key) == hash
        &&& ob.live(new_key)
        &&& ob.info(new_key).eq_token == o0.info(key).eq_token
    }

    /// Append an entry to the bucket at `i`, leaving the rest of the table
    /// alone.
    fn table_push(map: &mut Vec<(u64, Vec<(ObjId, ObjId)>)>, i: usize, e: (ObjId, ObjId))
        requires
            i < old(map)@.len(),
        ensures
            final(map)@.len() == old(map)@.len(),
            forall|k: int|
                0 <= k < old(map)@.len() && k != i ==> #[trigger] final(map)@[k] == old(map)@[k],
            final(map)@[i as int].0 == old(map)@[i as int].0,
            final(map)@[i as int].1@ == old(map)@[i as int].1@.push(e),
    {
        let slot = &mut map[i];
        slot.1.push(e);
    }

    /// Replace the value of entry `j` in the bucket at `i`, keeping its key.
    fn table_set_value(map: &mut Vec<(u64, Vec<(ObjId, ObjId)>)>, i: usize, j: usize, v: ObjId)
        requires
            i < old(map)@.len(),
            j < old(map)@[i as int].1@.len(),
        ensures
            final(map)@.len() == old(map)@.len(),
            forall|k: int|
                0 <= k < old(map)@.len() && k != i ==> #[trigger] final(map)@[k] == old(map)@[k],
            final(map)@[i as int].0 == old(map)@[i as int].0,
            final(map)@[i as int].1@ == old(map)@[i as int].1@.update(
                j as int,
                (old(map)@[i as int].1@[j as int].0, v),
            ),
    {
        let slot = &mut map[i];
        let k = slot.1[j].0;
        slot.1.set(j, (k, v));
    }

    /// Index of the bucket carrying `hash`, or the bucket count when none
    /// does.
    fn bucket_index(&self, hash: u64) -> (r: usize)
        ensures
            r <= self.num_buckets(),
            r == self.num_buckets() ==> self.find_bucket(hash) == -1,
            r < self.num_buckets() ==> self.find_bucket(hash) == r as int,
    {
        let n = self.map.len();
        let mut i: usize = 0;
        while i < n
            invariant
                0 <= i <= n,
                n == self.num_buckets(),
                self.find_bucket(hash) == self.find_bucket_from(hash, i as int),
            decreases n - i,
        {
            if self.map[i].0 == hash {
                return i;
            }
            i = i + 1;
        }
        n
    }

    /// Index of the first entry whose key equals `key` under `o`, or the
    /// entry count when none matches.
    fn match_index(entries: &Vec<(ObjId, ObjId)>, o: &Objects, key: ObjId) -> (r: usize)
        ensures
            r <= entries@.len(),
            r == entries@.len() ==> Self::first_match_idx(*o, entries@, key) == -1,
            r < entries@.len() ==> Self::first_match_idx(*o, entries@, key) == r as int,
    {
        let m = entries.len();
        let mut j: usize = 0;
        while j < m
            invariant
                0 <= j <= m,
                m == entries@.len(),
                forall|jj: int| 0 <= jj < j ==> !o.eq_at((#[trigger] entries@[jj]).0, key),
            decreases m - j,
        {
            if o.dynamic_equals(entries[j].0, key) {
                proof {
                    Self::lemma_bucket_lookup_chars(*o, entries@, key);
                }
                return j;
            }
            j = j + 1;
        }
        proof {
            Self::lemma_bucket_lookup_chars(*o, entries@, key);
        }
        m
    }

    /// `insert`, on the path where no bucket carried the key's hash: a new
    /// bucket holding the single new entry was appended and the count grew.
    proof fn lemma_insert_new_bucket(
        d0: Self,
        d2: Self,
        o0: Objects,
        ob: Objects,
        key: ObjId,
        value: ObjId,
        copy_key: bool,
        new_key: ObjId,
        hash: u64,
    )
        requires
            d0.wf(o0),
            o0.wf(),
            o0.live(key),
            o0.live(value),
            Self::prepared(o0, ob, key, value, copy_key, new_key, hash),
            o0.info(value).refcount + 2 <= u32::MAX,
            !copy_key ==> o0.info(key).refcount + 2 <= u32::MAX,
            d0.find_bucket(hash) == -1,
            d2.num_buckets() == d0.num_buckets() + 1,
            forall|k: int|
                0 <= k < d0.num_buckets() ==> #[trigger] d2.bucket_hash(k) == d0.bucket_hash(k),
            forall|k: int| 0 <= k < d0.num_buckets() ==> #[trigger] d2.bucket(k) == d0.bucket(k),
            d2.bucket_hash(d0.num_buckets() as int) == hash,
            d2.bucket(d0.num_buckets() as int) =~= seq![(new_key, value)],
            d2.count == d0.count + 1,
            d0.count < u32::MAX,
        ensures
            Self::insert_post(d0, d2, o0, ob, key, value, copy_key),
    {
        let nb0 = d0.num_buckets() as int;
        let e = (new_key, value);
        d0.lemma_find_bucket_from(hash, 0);
        assert(o0.hash_of(key) == hash);
        assert(d0.spec_lookup(o0, key) == NIL);

        // pre-existing objects keep their behaviour
        assert forall|x: ObjId| o0.live(x) implies Objects::beh_same_at(o0, ob, x) by {
            assert(Self::prepared_at(o0, ob, key, value, copy_key, x));
        }
        assert(Objects::beh_same_at(o0, ob, key));
        assert(Objects::beh_same_at(o0, ob, value));

        // the old entries are intact and still behave alike
        assert(d0.entries_beh_stable(o0, ob)) by {
            assert forall|i: int, j: int|
                0 <= i < d0.num_buckets() && 0 <= j < d0.bucket(i).len() implies Objects::beh_same_at(
                o0,
                ob,
                (#[trigger] d0.bucket(i)[j]).0,
            ) by {
                assert(d0.entry_ok(o0, i, j));
            }
        }

        // structural soundness of the new table
        assert forall|i: int, j: int|
            0 <= i < d2.num_buckets() && 0 <= j < d2.bucket(i).len() implies #[trigger] d2.entry_ok(
            ob,
            i,
            j,
        ) by {
            if i < nb0 {
                assert(d0.entry_ok(o0, i, j));
                assert(Objects::beh_same_at(o0, ob, d0.bucket(i)[j].0));
                assert(Objects::beh_same_at(o0, ob, d0.bucket(i)[j].1));
            } else {
                assert(d2.bucket(i)[j] == e);
            }
        }
        assert forall|i: int, j1: int, j2: int|
            0 <= i < d2.num_buckets() && 0 <= j1 < j2 < d2.bucket(i).len() implies !(
        #[trigger] ob.eq_at(d2.bucket(i)[j1].0, d2.bucket(i)[j2].0)) by {
            assert(i < nb0);
            assert(d0.entry_ok(o0, i, j1));
            assert(d0.entry_ok(o0, i, j2));
            assert(!o0.eq_at(d0.bucket(i)[j1].0, d0.bucket(i)[j2].0));
            assert(Objects::beh_same_at(o0, ob, d0.bucket(i)[j1].0));
            assert(Objects::beh_same_at(o0, ob, d0.bucket(i)[j2].0));
        }
        assert forall|i1: int, i2: int|
            0 <= i1 < i2 < d2.num_buckets() implies #[trigger] d2.bucket_hash(i1)
            != #[trigger] d2.bucket_hash(i2) by {
            if i2 < nb0 {
            } else {
                assert(d2.bucket_hash(i1) == d0.bucket_hash(i1));
                assert(d0.bucket_hash(i1) != hash);
            }
        }

        // keys and held references of the new table
        Self::lemma_append_bucket_from(d0, d2, 0);
        assert(d2.bucket(nb0).map_values(|en: (ObjId, ObjId)| en.0) =~= seq![new_key]);
        assert(d2.keys_seq().len() == d0.keys_seq().len() + 1);
        assert(seq![e].drop_last() =~= Seq::<(ObjId, ObjId)>::empty());
        assert(Self::refs_of_entries(seq![e]) =~= Multiset::<ObjId>::empty().insert(
            new_key,
        ).insert(value)) by {
            reveal_with_fuel(DictionaryHostObject::refs_of_entries, 2);
        }
        assert(d2.ref_multiset() =~= d0.ref_multiset().insert(new_key).insert(value));

        // reference counts still cover the held references
        assert forall|x: ObjId| (#[trigger] d2.ref_multiset().count(x)) <= ob.refcount_of(x) by {
            assert(d0.ref_multiset().count(x) <= o0.refcount_of(x));
            if o0.live(x) {
                assert(Self::prepared_at(o0, ob, key, value, copy_key, x));
            } else {
                assert(o0.refcount_of(x) == 0);
            }
        }

        // the registry itself stays well-formed
        assert forall|x: ObjId| ob.live(x) implies (#[trigger] ob.refcount_of(x)) >= 1 by {
            if o0.live(x) {
                assert(o0.refcount_of(x) >= 1);
                assert(Self::prepared_at(o0, ob, key, value, copy_key, x));
            } else {
                assert(copy_key && x == new_key);
            }
        }

        // the key, and everything equal to it with its hash, now finds value
        Self::lemma_find_bucket_append(d0, d2, 0, hash);
        assert(d2.find_bucket(hash) == nb0);
        assert forall|p: ObjId|
            ob.eq_at(p, key) && ob.hash_of(p) == ob.hash_of(key) implies #[trigger] d2.spec_lookup(
            ob,
            p,
        ) == value by {
            assert(ob.hash_of(key) == hash);
            assert(ob.eq_at(new_key, p));
            assert(d2.bucket(nb0)[0] == e);
            assert(d2.spec_lookup(ob, p) == Self::bucket_lookup(ob, d2.bucket(nb0), p));
        }

        // other keys find what they found before
        assert forall|p: ObjId|
            o0.live(p) && ob.live(p) && !(o0.eq_at(p, key) && o0.hash_of(p) == o0.hash_of(key))
            implies #[trigger] d2.spec_lookup(ob, p) == d0.spec_lookup(o0, p) by {
            d0.lemma_spec_lookup_stable(o0, ob, p);
            let hp = ob.hash_of(p);
            assert(hp == o0.hash_of(p));
            Self::lemma_find_bucket_append(d0, d2, 0, hp);
            d0.lemma_find_bucket_from(hp, 0);
            if d0.find_bucket(hp) != -1 {
                assert(d2.bucket(d0.find_bucket(hp)) == d0.bucket(d0.find_bucket(hp)));
            } else if hp == hash {
                assert(!o0.eq_at(p, key));
                assert(d2.find_bucket(hp) == nb0);
                assert(!ob.eq_at(new_key, p)) by {
                    if ob.eq_at(new_key, p) {
                        assert(o0.eq_at(p, key));
                    }
                }
                assert(d2.bucket(nb0)[0] == e);
                assert(Self::bucket_lookup(ob, d2.bucket(nb0), p) == Self::bucket_lookup(
                    ob,
                    d2.bucket(nb0).drop_first(),
                    p,
                ));
                assert(d2.bucket(nb0).drop_first() =~= Seq::<(ObjId, ObjId)>::empty());
            }
        }

        // reference-count bookkeeping
        assert forall|x: ObjId| o0.live(x) implies #[trigger] Self::insert_rc_at(
            o0,
            ob,
            d0,
            key,
            value,
            copy_key,
            x,
        ) by {
            assert(o0.refcount_of(x) >= 1);
            assert(Self::prepared_at(o0, ob, key, value, copy_key, x));
        }

        // a copied key is itself no stored key
        if copy_key {
            if d2.keys_seq().contains(key) {
                d2.lemma_keys_from_mem_inv(0, key);
                let (i, j) = choose|i: int, j: int|
                    0 <= i < d2.num_buckets() && 0 <= j < d2.bucket(i).len() && (
                    #[trigger] d2.bucket(i)[j]).0 == key;
                if i < nb0 {
                    assert(d0.entry_ok(o0, i, j));
                    assert(d0.bucket_hash(i) != hash);
                } else {
                    assert(d2.bucket(i)[j] == e);
                    assert(!o0.live(new_key));
                }
                assert(false);
            }
        }

        // how many references the table holds on each old handle
        assert forall|x: ObjId| o0.live(x) implies #[trigger] d2.ref_multiset().count(x)
            == d0.ref_multiset().count(x) + (if x == value {
            1int
        } else {
            0int
        }) + (if !copy_key && x == key && d0.spec_lookup(o0, key) == NIL {
            1int
        } else {
            0int
        }) - (if d0.spec_lookup(o0, key) != NIL && x == d0.spec_lookup(o0, key) {
            1int
        } else {
            0int
        }) by {
            if copy_key {
                assert(!o0.live(new_key));
            }
        }
    }

    /// A bucket's references are among the table's, from any earlier start.
    proof fn lemma_refs_from_count(self, k: int, i: int, x: ObjId)
        requires
            0 <= k <= i < self.num_buckets(),
        ensures
            self.refs_from(k).count(x) >= Self::refs_of_entries(self.bucket(i)).count(x),
        decreases i - k,
    {
        if k < i {
            self.lemma_refs_from_count(k + 1, i, x);
        }
    }

    /// `insert`, on the path where the key's bucket exists but holds no
    /// equal key: the new entry was appended to it and the count grew.
    proof fn lemma_insert_append(
        d0: Self,
        d2: Self,
        o0: Objects,
        ob: Objects,
        key: ObjId,
        value: ObjId,
        copy_key: bool,
        new_key: ObjId,
        hash: u64,
        bi: int,
    )
        requires
            d0.wf(o0),
            o0.wf(),
            o0.live(key),
            o0.live(value),
            Self::prepared(o0, ob, key, value, copy_key, new_key, hash),
            o0.info(value).refcount + 2 <= u32::MAX,
            !copy_key ==> o0.info(key).refcount + 2 <= u32::MAX,
            d0.find_bucket(hash) == bi,
            0 <= bi < d0.num_buckets(),
            Self::first_match_idx(ob, d0.bucket(bi), key) == -1,
            Self::same_but_bucket(d0, d2, bi),
            d2.bucket(bi) == d0.bucket(bi).push((new_key, value)),
            d2.count == d0.count + 1,
            d0.count < u32::MAX,
        ensures
            Self::insert_post(d0, d2, o0, ob, key, value, copy_key),
    {
        let e = (new_key, value);
        let b0 = d0.bucket(bi);
        d0.lemma_find_bucket_from(hash, 0);
        assert(o0.hash_of(key) == hash);

        // pre-existing objects keep their behaviour
        assert forall|x: ObjId| o0.live(x) implies Objects::beh_same_at(o0, ob, x) by {
            assert(Self::prepared_at(o0, ob, key, value, copy_key, x));
        }
        assert(Objects::beh_same_at(o0, ob, key));

        // the old entries still behave alike
        assert forall|i: int, j: int|
            0 <= i < d0.num_buckets() && 0 <= j < d0.bucket(i).len() implies Objects::beh_same_at(
            o0,
            ob,
            (#[trigger] d0.bucket(i)[j]).0,
        ) by {
            assert(d0.entry_ok(o0, i, j));
        }

        // nothing in the bucket matched the key, under either registry
        Self::lemma_bucket_lookup_chars(ob, b0, key);
        Self::lemma_bucket_lookup_stable(o0, ob, b0, key);
        Self::lemma_bucket_lookup_chars(o0, b0, key);
        assert forall|j: int| 0 <= j < b0.len() implies o0.live((#[trigger] b0[j]).1) by {
            assert(d0.entry_ok(o0, bi, j));
        }
        Self::lemma_bucket_lookup_nil(o0, b0, key);
        assert(d0.spec_lookup(o0, key) == NIL);
        assert(!Self::bucket_has(ob, b0, key));

        // structural soundness of the grown table
        assert forall|i: int, j: int|
            0 <= i < d2.num_buckets() && 0 <= j < d2.bucket(i).len() implies #[trigger] d2.entry_ok(
            ob,
            i,
            j,
        ) by {
            if i != bi || j < b0.len() {
                assert(d0.bucket(i)[j] == d2.bucket(i)[j]);
                assert(d0.entry_ok(o0, i, j));
                assert(Objects::beh_same_at(o0, ob, d0.bucket(i)[j].0));
                assert(Objects::beh_same_at(o0, ob, d0.bucket(i)[j].1));
            } else {
                assert(d2.bucket(i)[j] == e);
                assert(Self::prepared_at(o0, ob, key, value, copy_key, value));
            }
        }
        assert forall|i: int, j1: int, j2: int|
            0 <= i < d2.num_buckets() && 0 <= j1 < j2 < d2.bucket(i).len() implies !(
        #[trigger] ob.eq_at(d2.bucket(i)[j1].0, d2.bucket(i)[j2].0)) by {
            if i != bi || j2 < b0.len() {
                assert(d0.entry_ok(o0, i, j1));
                assert(d0.entry_ok(o0, i, j2));
                assert(!o0.eq_at(d0.bucket(i)[j1].0, d0.bucket(i)[j2].0));
                assert(Objects::beh_same_at(o0, ob, d0.bucket(i)[j1].0));
                assert(Objects::beh_same_at(o0, ob, d0.bucket(i)[j2].0));
            } else {
                // the appended key equals no key already in the bucket
                assert(d2.bucket(i)[j1] == b0[j1]);
                assert(d2.bucket(i)[j2] == e);
                assert(d0.entry_ok(o0, i, j1));
                if ob.eq_at(b0[j1].0, new_key) {
                    assert(ob.eq_at(b0[j1].0, key));
                    assert(Self::bucket_has(ob, b0, key));
                }
            }
        }
        assert forall|i1: int, i2: int|
            0 <= i1 < i2 < d2.num_buckets() implies #[trigger] d2.bucket_hash(i1)
            != #[trigger] d2.bucket_hash(i2) by {
            assert(d2.bucket_hash(i1) == d0.bucket_hash(i1));
            assert(d2.bucket_hash(i2) == d0.bucket_hash(i2));
        }

        // keys and held references of the grown table
        Self::lemma_push_entry_from(d0, d2, bi, e, 0);
        assert(d2.keys_seq().len() == d0.keys_seq().len() + 1);
        assert(d2.ref_multiset() =~= d0.ref_multiset().insert(new_key).insert(value));

        // reference counts still cover the held references
        assert forall|x: ObjId| (#[trigger] d2.ref_multiset().count(x)) <= ob.refcount_of(x) by {
            assert(d0.ref_multiset().count(x) <= o0.refcount_of(x));
            if o0.live(x) {
                assert(Self::prepared_at(o0, ob, key, value, copy_key, x));
            } else {
                assert(o0.refcount_of(x) == 0);
            }
        }

        // the registry itself stays well-formed
        assert forall|x: ObjId| ob.live(x) implies (#[trigger] ob.refcount_of(x)) >= 1 by {
            if o0.live(x) {
                assert(o0.refcount_of(x) >= 1);
                assert(Self::prepared_at(o0, ob, key, value, copy_key, x));
            } else {
                assert(copy_key && x == new_key);
            }
        }

        // the key, and everything equal to it with its hash, now finds value
        Self::lemma_find_bucket_same(d0, d2, hash, 0);
        assert(d2.find_bucket(hash) == bi);
        assert forall|p: ObjId|
            ob.eq_at(p, key) && ob.hash_of(p) == ob.hash_of(key) implies #[trigger] d2.spec_lookup(
            ob,
            p,
        ) == value by {
            assert(ob.hash_of(key) == hash);
            assert(!Self::bucket_has(ob, b0, p)) by {
                if Self::bucket_has(ob, b0, p) {
                    let j = choose|j: int| 0 <= j < b0.len() && ob.eq_at(b0[j].0, p);
                    assert(ob.eq_at(b0[j].0, key));
                    assert(Self::bucket_has(ob, b0, key));
                }
            }
            Self::lemma_bucket_lookup_chars(ob, b0, p);
            Self::lemma_bucket_lookup_push(ob, b0, e, p);
            assert(ob.eq_at(new_key, p));
            assert(d2.spec_lookup(ob, p) == Self::bucket_lookup(ob, d2.bucket(bi), p));
        }

        // other keys find what they found before
        assert forall|p: ObjId|
            o0.live(p) && ob.live(p) && !(o0.eq_at(p, key) && o0.hash_of(p) == o0.hash_of(key))
            implies #[trigger] d2.spec_lookup(ob, p) == d0.spec_lookup(o0, p) by {
            d0.lemma_spec_lookup_stable(o0, ob, p);
            let hp = ob.hash_of(p);
            assert(hp == o0.hash_of(p));
            Self::lemma_find_bucket_same(d0, d2, hp, 0);
            d0.lemma_find_bucket_from(hp, 0);
            if d0.find_bucket(hp) == bi {
                assert(hp == hash);
                assert(!o0.eq_at(p, key));
                Self::lemma_bucket_lookup_chars(ob, b0, p);
                Self::lemma_bucket_lookup_push(ob, b0, e, p);
                if Self::first_match_idx(ob, b0, p) == -1 {
                    assert(!ob.eq_at(new_key, p)) by {
                        if ob.eq_at(new_key, p) {
                            assert(o0.eq_at(p, key));
                        }
                    }
                }
            } else if d0.find_bucket(hp) >= 0 {
                assert(d2.bucket(d0.find_bucket(hp)) == d0.bucket(d0.find_bucket(hp)));
            }
        }

        // reference-count bookkeeping
        assert forall|x: ObjId| o0.live(x) implies #[trigger] Self::insert_rc_at(
            o0,
            ob,
            d0,
            key,
            value,
            copy_key,
            x,
        ) by {
            assert(o0.refcount_of(x) >= 1);
            assert(Self::prepared_at(o0, ob, key, value, copy_key, x));
        }

        // a copied key is itself no stored key
        if copy_key {
            if d2.keys_seq().contains(key) {
                d2.lemma_keys_from_mem_inv(0, key);
                let (i, j) = choose|i: int, j: int|
                    0 <= i < d2.num_buckets() && 0 <= j < d2.bucket(i).len() && (
                    #[trigger] d2.bucket(i)[j]).0 == key;
                if i != bi || j < b0.len() {
                    assert(d2.bucket(i)[j] == d0.bucket(i)[j]);
                    assert(d0.entry_ok(o0, i, j));
                    if i != bi {
                        assert(d0.bucket_hash(i) != hash) by {
                            if i < bi {
                            } else {
                                assert(d0.bucket_hash(bi) != d0.bucket_hash(i));
                            }
                        }
                    } else {
                        assert(ob.eq_at(b0[j].0, key));
                        assert(Self::bucket_has(ob, b0, key));
                    }
                } else {
                    assert(d2.bucket(i)[j] == e);
                    assert(!o0.live(new_key));
                }
                assert(false);
            }
        }

        // how many references the table holds on each old handle
        assert forall|x: ObjId| o0.live(x) implies #[trigger] d2.ref_multiset().count(x)
            == d0.ref_multiset().count(x) + (if x == value {
            1int
        } else {
            0int
        }) + (if !copy_key && x == key && d0.spec_lookup(o0, key) == NIL {
            1int
        } else {
            0int
        }) - (if d0.spec_lookup(o0, key) != NIL && x == d0.spec_lookup(o0, key) {
            1int
        } else {
            0int
        }) by {
            if copy_key {
                assert(!o0.live(new_key));
            }
        }
    }

    /// `insert`, on the path where the bucket already held an equal key: the
    /// entry's value was replaced, the old key kept, the old value released,
    /// and the count left alone.
    proof fn lemma_insert_overwrite(
        d0: Self,
        d2: Self,
        o0: Objects,
        ob: Objects,
        o2: Objects,
        key: ObjId,
        value: ObjId,
        copy_key: bool,
        new_key: ObjId,
        hash: u64,
        bi: int,
        mj: int,
        vold: ObjId,
    )
        requires
            d0.wf(o0),
            o0.wf(),
            o0.live(key),
            o0.live(value),
            Self::prepared(o0, ob, key, value, copy_key, new_key, hash),
            o0.info(value).refcount + 2 <= u32::MAX,
            !copy_key ==> o0.info(key).refcount + 2 <= u32::MAX,
            o0.refcount_of(key) > d0.ref_multiset().count(key),
            d0.find_bucket(hash) == bi,
            0 <= bi < d0.num_buckets(),
            Self::first_match_idx(ob, d0.bucket(bi), key) == mj,
            0 <= mj < d0.bucket(bi).len(),
            vold == d0.bucket(bi)[mj].1,
            Self::same_but_bucket(d0, d2, bi),
            d2.bucket(bi) == d0.bucket(bi).update(mj, (d0.bucket(bi)[mj].0, value)),
            d2.count == d0.count,
            ob.live(vold),
            ob.info(vold).refcount > 1 ==> o2.live(vold) && o2.info(vold) == (ObjectInfo {
                refcount: (ob.info(vold).refcount - 1) as u32,
                ..ob.info(vold)
            }),
            ob.info(vold).refcount <= 1 ==> !o2.live(vold),
            o2.len() == ob.len(),
            Objects::unchanged_except(ob, o2, set![vold]),
        ensures
            Self::insert_post(d0, d2, o0, o2, key, value, copy_key),
    {
        let b0 = d0.bucket(bi);
        let b2 = d2.bucket(bi);
        d0.lemma_find_bucket_from(hash, 0);
        assert(o0.hash_of(key) == hash);

        // pre-existing objects keep their behaviour up to the release
        assert forall|x: ObjId| o0.live(x) implies Objects::beh_same_at(o0, ob, x) by {
            assert(Self::prepared_at(o0, ob, key, value, copy_key, x));
        }
        assert forall|i: int, j: int|
            0 <= i < d0.num_buckets() && 0 <= j < d0.bucket(i).len() implies Objects::beh_same_at(
            o0,
            ob,
            (#[trigger] d0.bucket(i)[j]).0,
        ) by {
            assert(d0.entry_ok(o0, i, j));
        }

        // the old lookup answered the value now being replaced
        Self::lemma_bucket_lookup_chars(ob, b0, key);
        Self::lemma_bucket_lookup_stable(o0, ob, b0, key);
        Self::lemma_bucket_lookup_chars(o0, b0, key);
        assert(d0.entry_ok(o0, bi, mj));
        assert(o0.live(vold));
        assert(d0.spec_lookup(o0, key) == vold);
        assert(vold != NIL);

        // keys and held references of the updated table
        Self::lemma_update_entry_from(d0, d2, bi, mj, value, 0);
        assert(d2.keys_seq() =~= d0.keys_seq());
        assert(d2.ref_multiset() =~= d0.ref_multiset().remove(vold).insert(value));
        assert(d0.ref_multiset().count(vold) >= 1);
        assert(Self::prepared_at(o0, ob, key, value, copy_key, vold));
        assert(Self::prepared_at(o0, ob, key, value, copy_key, value));
        assert(Self::prepared_at(o0, ob, key, value, copy_key, key));
        assert(o0.refcount_of(vold) >= d0.ref_multiset().count(vold));

        // the key survives the release even when it was the stored value
        assert(o2.live(key) && o2.info(key).eq_token == o0.info(key).eq_token && o2.hash_of(key)
            == hash) by {
            if key != vold {
                assert(Objects::same_at(ob, o2, key));
            } else {
                assert(o0.refcount_of(key) >= 2);
            }
        }
        assert(o2.live(value)) by {
            if value != vold {
                assert(Objects::same_at(ob, o2, value));
            } else {
                assert(ob.info(value).refcount >= 2);
            }
        }

        // reference counts still cover the held references
        assert forall|x: ObjId| (#[trigger] d2.ref_multiset().count(x)) <= o2.refcount_of(x) by {
            assert(d0.ref_multiset().count(x) <= o0.refcount_of(x));
            if o0.live(x) {
                assert(Self::prepared_at(o0, ob, key, value, copy_key, x));
                if x != vold {
                    assert(Objects::same_at(ob, o2, x));
                }
            } else {
                assert(o0.refcount_of(x) == 0);
                assert(d0.ref_multiset().count(x) == 0);
                assert(x != vold);
            }
        }

        // every stored key and value of the new table is live afterwards
        assert forall|i: int, j: int|
            0 <= i < d2.num_buckets() && 0 <= j < d2.bucket(i).len() implies #[trigger] d2.entry_ok(
            o2,
            i,
            j,
        ) && Objects::beh_same_at(o0, o2, d2.bucket(i)[j].0) by {
            let x = d2.bucket(i)[j].0;
            let y = d2.bucket(i)[j].1;
            assert(x == d0.bucket(i)[j].0) by {
                if i == bi {
                    assert(b2[j].0 == b0[j].0);
                }
            }
            assert(d0.entry_ok(o0, i, j));
            Self::lemma_refs_of_entries_mem(d2.bucket(i), j);
            d2.lemma_refs_from_count(0, i, x);
            d2.lemma_refs_from_count(0, i, y);
            assert(d2.ref_multiset().count(x) >= 1);
            assert(d2.ref_multiset().count(y) >= 1);
            assert(o2.refcount_of(x) >= 1);
            assert(o2.refcount_of(y) >= 1);
            assert(o2.live(x) && o2.live(y));
            if x != vold {
                assert(Objects::same_at(ob, o2, x));
            }
            assert(o2.hash_of(x) == o0.hash_of(x));
        }
        assert forall|i: int, j1: int, j2: int|
            0 <= i < d2.num_buckets() && 0 <= j1 < j2 < d2.bucket(i).len() implies !(
        #[trigger] o2.eq_at(d2.bucket(i)[j1].0, d2.bucket(i)[j2].0)) by {
            let x1 = d2.bucket(i)[j1].0;
            let x2 = d2.bucket(i)[j2].0;
            assert(x1 == d0.bucket(i)[j1].0 && x2 == d0.bucket(i)[j2].0) by {
                if i == bi {
                    assert(b2[j1].0 == b0[j1].0 && b2[j2].0 == b0[j2].0);
                }
            }
            assert(!o0.eq_at(x1, x2));
            assert(d2.entry_ok(o2, i, j1));
            assert(Objects::beh_same_at(o0, o2, d2.bucket(i)[j1].0));
            assert(d2.entry_ok(o2, i, j2));
            assert(Objects::beh_same_at(o0, o2, d2.bucket(i)[j2].0));
        }
        assert forall|i1: int, i2: int|
            0 <= i1 < i2 < d2.num_buckets() implies #[trigger] d2.bucket_hash(i1)
            != #[trigger] d2.bucket_hash(i2) by {
            assert(d2.bucket_hash(i1) == d0.bucket_hash(i1));
            assert(d2.bucket_hash(i2) == d0.bucket_hash(i2));
        }

        // the registry itself stays well-formed
        assert forall|x: ObjId| o2.live(x) implies (#[trigger] o2.refcount_of(x)) >= 1 by {
            if x != vold {
                assert(Objects::same_at(ob, o2, x));
                if o0.live(x) {
                    assert(o0.refcount_of(x) >= 1);
                    assert(Self::prepared_at(o0, ob, key, value, copy_key, x));
                } else {
                    assert(copy_key && x == new_key);
                }
            }
        }

        // the bucket scan still settles on the same entry afterwards
        assert forall|j: int| 0 <= j < b0.len() implies Objects::beh_same_at(
            ob,
            o2,
            (#[trigger] b0[j]).0,
        ) by {
            let x = b0[j].0;
            assert(b2[j].0 == x);
            assert(d2.entry_ok(o2, bi, j));
            if x != vold {
                assert(Objects::same_at(ob, o2, x));
            }
        }
        assert(Objects::beh_same_at(ob, o2, key)) by {
            if key != vold {
                assert(Objects::same_at(ob, o2, key));
            }
        }
        Self::lemma_bucket_lookup_stable(ob, o2, b0, key);
        Self::lemma_bucket_lookup_chars(o2, b0, key);

        // the key, and everything equal to it with its hash, now finds value
        Self::lemma_find_bucket_same(d0, d2, hash, 0);
        assert(d2.find_bucket(hash) == bi);
        assert forall|p: ObjId|
            o2.eq_at(p, key) && o2.hash_of(p) == o2.hash_of(key) implies #[trigger] d2.spec_lookup(
            o2,
            p,
        ) == value by {
            Self::lemma_bucket_lookup_chars(o2, b0, p);
            assert(o2.eq_at(b0[mj].0, p));
            assert(Self::first_match_idx(o2, b0, p) == mj) by {
                let fp = Self::first_match_idx(o2, b0, p);
                assert(Self::bucket_has(o2, b0, p));
                assert(fp != -1);
                if fp < mj {
                    assert(o2.eq_at(b0[fp].0, p));
                    assert(o2.eq_at(b0[fp].0, key));
                } else if fp > mj {
                    assert(!o2.eq_at(b0[mj].0, p));
                }
            }
            Self::lemma_bucket_lookup_update(o2, b0, mj, value, p);
            assert(d2.spec_lookup(o2, p) == Self::bucket_lookup(o2, b2, p));
        }

        // other keys find what they found before
        assert forall|p: ObjId|
            o0.live(p) && o2.live(p) && !(o0.eq_at(p, key) && o0.hash_of(p) == o0.hash_of(key))
            implies #[trigger] d2.spec_lookup(o2, p) == d0.spec_lookup(o0, p) by {
            assert(Objects::beh_same_at(o0, o2, p)) by {
                if p != vold {
                    assert(Self::prepared_at(o0, ob, key, value, copy_key, p));
                    assert(Objects::same_at(ob, o2, p));
                }
            }
            assert(d0.entries_beh_stable(o0, o2)) by {
                assert forall|i: int, j: int|
                    0 <= i < d0.num_buckets() && 0 <= j < d0.bucket(i).len() implies Objects::beh_same_at(
                    o0,
                    o2,
                    (#[trigger] d0.bucket(i)[j]).0,
                ) by {
                    assert(d2.bucket(i)[j].0 == d0.bucket(i)[j].0) by {
                        if i == bi {
                            assert(b2[j].0 == b0[j].0);
                        }
                    }
                    assert(d2.entry_ok(o2, i, j));
                    assert(Objects::beh_same_at(o0, o2, d2.bucket(i)[j].0));
                }
            }
            d0.lemma_spec_lookup_stable(o0, o2, p);
            let hp = o2.hash_of(p);
            Self::lemma_find_bucket_same(d0, d2, hp, 0);
            d0.lemma_find_bucket_from(hp, 0);
            if d0.find_bucket(hp) == bi {
                assert(hp == hash);
                assert(!o0.eq_at(p, key));
                Self::lemma_bucket_lookup_chars(o2, b0, p);
                Self::lemma_bucket_lookup_update(o2, b0, mj, value, p);
                assert(Self::first_match_idx(o2, b0, p) != mj) by {
                    if Self::first_match_idx(o2, b0, p) == mj {
                        assert(o2.eq_at(b0[mj].0, p));
                        assert(o2.eq_at(b0[mj].0, key));
                        assert(Objects::beh_same_at(o0, o2, b0[mj].0));
                        assert(Objects::beh_same_at(o0, o2, key)) by {
                            if key != vold {
                                assert(Self::prepared_at(o0, ob, key, value, copy_key, key));
                                assert(Objects::same_at(ob, o2, key));
                            }
                        }
                        assert(o0.eq_at(b0[mj].0, p));
                        assert(o0.eq_at(b0[mj].0, key));
                        assert(o0.eq_at(p, key));
                    }
                }
            } else if d0.find_bucket(hp) >= 0 {
                assert(d2.bucket(d0.find_bucket(hp)) == d0.bucket(d0.find_bucket(hp)));
            }
        }

        // reference-count bookkeeping
        assert forall|x: ObjId| o0.live(x) implies #[trigger] Self::insert_rc_at(
            o0,
            o2,
            d0,
            key,
            value,
            copy_key,
            x,
        ) by {
            assert(o0.refcount_of(x) >= 1);
            assert(Self::prepared_at(o0, ob, key, value, copy_key, x));
            if x != vold {
                assert(Objects::same_at(ob, o2, x));
            }
        }

        // registry sizes
        assert(o2.len() == o0.len() + (if copy_key { 1int } else { 0int }));
        if !copy_key {
            assert forall|x: ObjId| #[trigger] o2.live(x) implies o0.live(x) by {
                if x != vold {
                    assert(Objects::same_at(ob, o2, x));
                }
            }
        }

        // how many references the table holds on each old handle
        assert forall|x: ObjId| o0.live(x) implies #[trigger] d2.ref_multiset().count(x)
            == d0.ref_multiset().count(x) + (if x == value {
            1int
        } else {
            0int
        }) + (if !copy_key && x == key && d0.spec_lookup(o0, key) == NIL {
            1int
        } else {
            0int
        }) - (if d0.spec_lookup(o0, key) != NIL && x == d0.spec_lookup(o0, key) {
            1int
        } else {
            0int
        }) by {
            assert(d0.ref_multiset().count(vold) >= 1);
        }
    }

    /// Insert `(key, value)`: take ownership of the key (an independent copy
    /// when `copy_key` is set, one more reference otherwise) and a reference
    /// to the value; hash the owned key; then either start a bucket, append
    /// to the key's collision bucket, or — when an equal key is already
    /// stored — replace that entry's value, releasing the replaced value
    /// exactly once, keeping the previously stored key, and leaving the
    /// count alone.  The reference taken to the owned key is kept even on
    /// the overwrite path, as the surrounding collection classes expect.
    ///
    /// The caller must own its `key` handle beyond the references this table
    /// holds, which is the retain/release protocol of the surrounding layer.
    pub fn insert(&mut self, o: &mut Objects, key: ObjId, value: ObjId, copy_key: bool)
        requires
            old(self).wf(*old(o)),
            old(o).wf(),
            old(o).live(key),
            old(o).live(value),
            old(o).refcount_of(key) > old(self).ref_multiset().count(key),
            old(self).count < u32::MAX,
            old(o).len() < usize::MAX,
            old(o).info(value).refcount + 2 <= u32::MAX,
            !copy_key ==> old(o).info(key).refcount + 2 <= u32::MAX,
        ensures
            Self::insert_post(*old(self), *final(self), *old(o), *final(o), key, value, copy_key),
    {
        let ghost d0 = *old(self);
        let ghost o0 = *old(o);
        let new_key = if copy_key {
            o.copy_object(key)
        } else {
            o.retain(key)
        };
        let ghost oa = *o;
        let hash = o.dynamic_hash(new_key);
        proof {
            if copy_key {
                if value != new_key {
                    assert(Objects::same_at(o0, oa, value));
                }
            } else {
                if value != key {
                    assert(Objects::same_at(o0, oa, value));
                }
            }
        }
        let new_value = o.retain(value);
        let ghost ob = *o;
        proof {
            assert(Objects::same_at(oa, ob, new_key) || new_key == value);
            assert forall|x: ObjId| o0.live(x) implies #[trigger] Self::prepared_at(
                o0,
                ob,
                key,
                value,
                copy_key,
                x,
            ) by {
                if x != value {
                    assert(Objects::same_at(oa, ob, x));
                }
                if copy_key {
                    if x != new_key {
                        assert(Objects::same_at(o0, oa, x));
                    }
                } else {
                    if x != key {
                        assert(Objects::same_at(o0, oa, x));
                    }
                }
            }
            if copy_key {
                assert forall|x: ObjId| !o0.live(x) && x != new_key implies !(
                #[trigger] ob.live(x)) by {
                    assert(Objects::same_at(o0, oa, x));
                    assert(Objects::same_at(oa, ob, x));
                }
            } else {
                assert forall|x: ObjId| !o0.live(x) implies !(#[trigger] ob.live(x)) by {
                    assert(Objects::same_at(o0, oa, x));
                    assert(Objects::same_at(oa, ob, x));
                }
            }
            assert(Self::prepared(o0, ob, key, value, copy_key, new_key, hash));
        }
        let bi = self.bucket_index(hash);
        let n = self.map.len();
        if bi == n {
            // no bucket carries this hash yet: open one
            let mut entries: Vec<(ObjId, ObjId)> = Vec::new();
            entries.push((new_key, new_value));
            self.map.push((hash, entries));
            self.count = self.count + 1;
            proof {
                assert forall|k: int| 0 <= k < d0.num_buckets() implies #[trigger] self.bucket_hash(
                    k,
                ) == d0.bucket_hash(k) && #[trigger] self.bucket(k) == d0.bucket(k) by {
                    assert(self.map@[k] == d0.map@[k]);
                }
                assert(self.bucket(d0.num_buckets() as int) =~= seq![(new_key, value)]);
                Self::lemma_insert_new_bucket(
                    d0,
                    *self,
                    o0,
                    ob,
                    key,
                    value,
                    copy_key,
                    new_key,
                    hash,
                );
            }
        } else {
            let mj = Self::match_index(&self.map[bi].1, o, key);
            let blen = self.map[bi].1.len();
            if mj == blen {
                // the bucket exists but no key in it equals ours: append
                Self::table_push(&mut self.map, bi, (new_key, new_value));
                self.count = self.count + 1;
                proof {
                    assert forall|k: int|
                        0 <= k < d0.num_buckets() implies #[trigger] self.bucket_hash(k)
                        == d0.bucket_hash(k) by {
                        if k != bi {
                            assert(self.map@[k] == d0.map@[k]);
                        }
                    }
                    assert forall|k: int|
                        0 <= k < d0.num_buckets() && k != bi implies #[trigger] self.bucket(k)
                        == d0.bucket(k) by {
                        assert(self.map@[k] == d0.map@[k]);
                    }
                    assert(Self::same_but_bucket(d0, *self, bi as int));
                    Self::lemma_insert_append(
                        d0,
                        *self,
                        o0,
                        ob,
                        key,
                        value,
                        copy_key,
                        new_key,
                        hash,
                        bi as int,
                    );
                }
            } else {
                // an equal key is stored: swap the value in, release the old
                let vold = self.map[bi].1[mj].1;
                Self::table_set_value(&mut self.map, bi, mj, new_value);
                let ghost d2 = *self;
                proof {
                    assert(d0.entry_ok(o0, bi as int, mj as int));
                    assert(Self::prepared_at(o0, ob, key, value, copy_key, vold));
                    assert(ob.live(vold));
                    assert forall|k: int|
                        0 <= k < d0.num_buckets() implies #[trigger] d2.bucket_hash(k)
                        == d0.bucket_hash(k) by {
                        if k != bi {
                            assert(d2.map@[k] == d0.map@[k]);
                        }
                    }
                    assert forall|k: int|
                        0 <= k < d0.num_buckets() && k != bi implies #[trigger] d2.bucket(k)
                        == d0.bucket(k) by {
                        assert(d2.map@[k] == d0.map@[k]);
                    }
                    assert(Self::same_but_bucket(d0, d2, bi as int));
                }
                o.release(vold);
                proof {
                    Self::lemma_insert_overwrite(
                        d0,
                        d2,
                        o0,
                        ob,
                        *o,
                        key,
                        value,
                        copy_key,
                        new_key,
                        hash,
                        bi as int,
                        mj as int,
                        vold,
                    );
                }
            }
        }
    }

    /// References of two runs laid end to end.
    proof fn lemma_refs_concat(a: Seq<(ObjId, ObjId)>, b: Seq<(ObjId, ObjId)>)
        ensures
            Self::refs_of_entries(a + b) =~= Self::refs_of_entries(a).add(
                Self::refs_of_entries(b),
            ),
        decreases b.len(),
    {
        if b.len() == 0 {
            assert(a + b =~= a);
        } else {
            assert((a + b).drop_last() =~= a + b.drop_last());
            assert((a + b).last() == b.last());
            Self::lemma_refs_concat(a, b.drop_last());
        }
    }

    /// References held by the buckets before index `i`.
    pub open spec fn refs_upto(self, i: int) -> Multiset<ObjId>
        decreases i,
    {
        if i <= 0 {
            Multiset::empty()
        } else {
            self.refs_upto(i - 1).add(Self::refs_of_entries(self.bucket(i - 1)))
        }
    }

    /// The table's references split at bucket `i`.
    proof fn lemma_refs_split(self, i: int)
        requires
            0 <= i <= self.num_buckets(),
        ensures
            self.ref_multiset() =~= self.refs_upto(i).add(self.refs_from(i)),
        decreases i,
    {
        if i > 0 {
            self.lemma_refs_split(i - 1);
        }
    }

    /// One more entry of a run taken into the processed prefix.
    proof fn lemma_refs_take_step(entries: Seq<(ObjId, ObjId)>, j: int)
        requires
            0 <= j < entries.len(),
        ensures
            Self::refs_of_entries(entries.take(j + 1)) =~= Self::refs_of_entries(
                entries.take(j),
            ).insert(entries[j].0).insert(entries[j].1),
    {
        assert(entries.take(j + 1).drop_last() =~= entries.take(j));
        assert(entries.take(j + 1).last() == entries[j]);
    }

    /// `post` is `pre` after exactly `n` releases of handle `x`: the
    /// reference count dropped by `n`, destroying the object when it reached
    /// zero.
    pub open spec fn released_at(pre: Objects, post: Objects, x: ObjId, n: nat) -> bool {
        if pre.live(x) {
            if n < pre.info(x).refcount {
                post.live(x) && post.info(x) == (ObjectInfo {
                    refcount: (pre.info(x).refcount - n) as u32,
                    ..pre.info(x)
                })
            } else if n == pre.info(x).refcount {
                !post.live(x)
            } else {
                false
            }
        } else {
            n == 0 && !post.live(x)
        }
    }

    /// `post` is `pre` after exactly `m.count(x)` releases of every `x` and
    /// nothing else.
    pub open spec fn released_from(pre: Objects, post: Objects, m: Multiset<ObjId>) -> bool {
        forall|x: ObjId| #[trigger] Self::released_at(pre, post, x, m.count(x))
    }

    /// One further single release extends the bookkeeping.
    proof fn lemma_released_step(
        pre: Objects,
        mid: Objects,
        post: Objects,
        m: Multiset<ObjId>,
        x: ObjId,
    )
        requires
            Self::released_from(pre, mid, m),
            mid.live(x),
            mid.info(x).refcount > 1 ==> post.live(x) && post.info(x) == (ObjectInfo {
                refcount: (mid.info(x).refcount - 1) as u32,
                ..mid.info(x)
            }),
            mid.info(x).refcount <= 1 ==> !post.live(x),
            Objects::unchanged_except(mid, post, set![x]),
        ensures
            Self::released_from(pre, post, m.insert(x)),
    {
        assert(Self::released_at(pre, mid, x, m.count(x)));
        assert forall|y: ObjId| #[trigger] Self::released_at(
            pre,
            post,
            y,
            m.insert(x).count(y),
        ) by {
            assert(Self::released_at(pre, mid, y, m.count(y)));
            if y != x {
                assert(Objects::same_at(mid, post, y));
                assert(m.insert(x).count(y) == m.count(y));
            } else {
                assert(m.insert(x).count(x) == m.count(x) + 1);
            }
        }
    }

    /// The bookkeeping only reads the multiset through its counts.
    proof fn lemma_released_congr(
        pre: Objects,
        post: Objects,
        m1: Multiset<ObjId>,
        m2: Multiset<ObjId>,
    )
        requires
            Self::released_from(pre, post, m1),
            m1 =~= m2,
        ensures
            Self::released_from(pre, post, m2),
    {
        assert forall|x: ObjId| #[trigger] Self::released_at(pre, post, x, m2.count(x)) by {
            assert(Self::released_at(pre, post, x, m1.count(x)));
        }
    }

    /// Walk every bucket and give up the table's reference to every stored
    /// key and every stored value — exactly one release each, whatever the
    /// collision layout.  The entries are left in place: the caller is
    /// expected to discard or refill the table, and a second call would
    /// release everything twice.
    pub fn release(&mut self, o: &mut Objects)
        requires
            old(self).wf(*old(o)),
            old(o).wf(),
        ensures
            *final(self) == *old(self),
            Self::released_from(*old(o), *final(o), old(self).ref_multiset()),
            final(o).len() == old(o).len(),
    {
        let ghost o0 = *old(o);
        let ghost dd = *old(self);
        proof {
            assert forall|x: ObjId| #[trigger] Self::released_at(
                o0,
                *o,
                x,
                dd.refs_upto(0).count(x),
            ) by {
                assert(dd.refs_upto(0).count(x) == 0);
                if o0.live(x) {
                    assert(o0.refcount_of(x) >= 1);
                }
            }
        }
        let n = self.map.len();
        let mut i: usize = 0;
        while i < n
            invariant
                0 <= i <= n,
                *self == dd,
                n == dd.num_buckets(),
                dd.wf(o0),
                Self::released_from(o0, *o, dd.refs_upto(i as int)),
                o.len() == o0.len(),
            decreases n - i,
        {
            let ghost gi = i as int;
            let bucket_len = self.map[i].1.len();
            let mut j: usize = 0;
            while j < bucket_len
                invariant
                    0 <= j <= bucket_len,
                    0 <= i < n,
                    *self == dd,
                    n == dd.num_buckets(),
                    dd.wf(o0),
                    bucket_len == dd.bucket(i as int).len(),
                    Self::released_from(
                        o0,
                        *o,
                        dd.refs_upto(i as int).add(
                            Self::refs_of_entries(dd.bucket(i as int).take(j as int)),
                        ),
                    ),
                    o.len() == o0.len(),
                decreases bucket_len - j,
            {
                let e = self.map[i].1[j];
                let ghost b = dd.bucket(i as int);
                let ghost processed = dd.refs_upto(i as int).add(
                    Self::refs_of_entries(b.take(j as int)),
                );
                proof {
                    // the processed prefix never exhausts an entry's count
                    dd.lemma_refs_split(i as int);
                    assert(b.take(j as int) + b.skip(j as int) =~= b);
                    Self::lemma_refs_concat(b.take(j as int), b.skip(j as int));
                    Self::lemma_refs_of_entries_mem(b.skip(j as int), 0);
                    assert(b.skip(j as int)[0] == e);
                    assert(dd.entry_ok(o0, i as int, j as int));
                    assert(dd.ref_multiset().count(e.0) <= o0.refcount_of(e.0));
                    assert(dd.ref_multiset().count(e.1) <= o0.refcount_of(e.1));
                    assert(processed.count(e.0) < o0.refcount_of(e.0));
                    assert(Self::released_at(o0, *o, e.0, processed.count(e.0)));
                    assert(o.live(e.0));
                }
                let ghost om = *o;
                o.release(e.0);
                proof {
                    Self::lemma_released_step(o0, om, *o, processed, e.0);
                    let processed1 = processed.insert(e.0);
                    assert(processed1.count(e.1) < o0.refcount_of(e.1)) by {
                        if e.1 == e.0 {
                            assert(Self::refs_of_entries(b.skip(j as int)).count(e.1) >= 2);
                        }
                    }
                    assert(Self::released_at(o0, *o, e.1, processed1.count(e.1)));
                    assert(o.live(e.1));
                }
                let ghost om1 = *o;
                o.release(e.1);
                proof {
                    Self::lemma_released_step(o0, om1, *o, processed.insert(e.0), e.1);
                    Self::lemma_refs_take_step(b, j as int);
                    Self::lemma_released_congr(
                        o0,
                        *o,
                        processed.insert(e.0).insert(e.1),
                        dd.refs_upto(i as int).add(
                            Self::refs_of_entries(b.take(j as int + 1)),
                        ),
                    );
                }
                j = j + 1;
            }
            proof {
                assert(dd.bucket(i as int).take(bucket_len as int) =~= dd.bucket(i as int));
                Self::lemma_released_congr(
                    o0,
                    *o,
                    dd.refs_upto(i as int).add(
                        Self::refs_of_entries(dd.bucket(i as int).take(bucket_len as int)),
                    ),
                    dd.refs_upto(i as int + 1),
                );
            }
            i = i + 1;
        }
        proof {
            dd.lemma_refs_split(n as int);
            assert(dd.refs_from(n as int) =~= Multiset::<ObjId>::empty());
            Self::lemma_released_congr(o0, *o, dd.refs_upto(n as int), dd.ref_multiset());
        }
    }

    /// All stored keys, bucket-major, in within-bucket insertion order: the
    /// table's enumeration order, stable while the table is not mutated.
    pub fn iter_keys(&self) -> (r: Vec<ObjId>)
        ensures
            r@ == self.keys_seq(),
    {
        let mut r: Vec<ObjId> = Vec::new();
        let n = self.map.len();
        let mut i: usize = 0;
        proof {
            assert(r@ + self.keys_from(0) =~= self.keys_seq());
        }
        while i < n
            invariant
                0 <= i <= n,
                n == self.num_buckets(),
                r@ + self.keys_from(i as int) =~= self.keys_seq(),
            decreases n - i,
        {
            let ghost r0 = r@;
            let bucket_len = self.map[i].1.len();
            let mut j: usize = 0;
            while j < bucket_len
                invariant
                    0 <= j <= bucket_len,
                    0 <= i < n,
                    n == self.num_buckets(),
                    bucket_len == self.bucket(i as int).len(),
                    r@ =~= r0 + self.bucket(i as int).take(j as int).map_values(
                        |en: (ObjId, ObjId)| en.0,
                    ),
                    r0 + self.keys_from(i as int) =~= self.keys_seq(),
                decreases bucket_len - j,
            {
                let e = self.map[i].1[j];
                r.push(e.0);
                proof {
                    assert(self.bucket(i as int).take(j as int + 1).map_values(
                        |en: (ObjId, ObjId)| en.0,
                    ) =~= self.bucket(i as int).take(j as int).map_values(
                        |en: (ObjId, ObjId)| en.0,
                    ).push(e.0));
                }
                j = j + 1;
            }
            proof {
                assert(self.bucket(i as int).take(bucket_len as int) =~= self.bucket(i as int));
                assert(r@ =~= r0 + self.bucket(i as int).map_values(|en: (ObjId, ObjId)| en.0));
                assert(r@ + self.keys_from(i as int + 1) =~= self.keys_seq());
            }
            i = i + 1;
        }
        proof {
            assert(self.keys_from(n as int) =~= Seq::<ObjId>::empty());
            assert(r@ =~= self.keys_seq());
        }
        r
    }

    /// One step of the batched key enumeration: starting at the linear
    /// offset held in `state`, hand out up to `capacity` keys in enumeration
    /// order and advance the offset by as many.  An empty batch signals
    /// exhaustion.  The offset is only meaningful so long as the table is
    /// not mutated between steps; resetting it to zero restarts.
    pub fn count_by_enumerating_with_state(&self, state: &mut u32, capacity: u32) -> (batch: Vec<
        ObjId,
    >)
        requires
            self.keys_seq().len() <= u32::MAX,
        ensures
            (*old(state) as int) >= self.keys_seq().len() ==> batch@ =~= Seq::<ObjId>::empty()
                && *final(state) == *old(state),
            (*old(state) as int) < self.keys_seq().len() ==> batch@ =~= self.keys_seq().subrange(
                *old(state) as int,
                *old(state) as int + (if capacity as int <= self.keys_seq().len() - (*old(
                    state,
                ) as int) {
                    capacity as int
                } else {
                    self.keys_seq().len() - (*old(state) as int)
                }),
            ) && *final(state) as int == *old(state) as int + batch@.len(),
    {
        let keys = self.iter_keys();
        let total = keys.len();
        let start = *state as usize;
        let mut batch: Vec<ObjId> = Vec::new();
        if start >= total {
            return batch;
        }
        let room = total - start;
        let takes = if capacity as usize <= room {
            capacity as usize
        } else {
            room
        };
        let mut t: usize = 0;
        while t < takes
            invariant
                0 <= t <= takes,
                start + takes <= total,
                total == keys@.len(),
                keys@ == self.keys_seq(),
                batch@ =~= self.keys_seq().subrange(start as int, start as int + t as int),
            decreases takes - t,
        {
            batch.push(keys[start + t]);
            proof {
                assert(self.keys_seq().subrange(start as int, start as int + t as int + 1)
                    =~= self.keys_seq().subrange(start as int, start as int + t as int).push(
                    self.keys_seq()[start as int + t as int],
                ));
            }
            t = t + 1;
        }
        *state = *state + (takes as u32);
        batch
    }

    /// Lookup after insert: once a table `maps_to(key, value)` — what
    /// `insert` establishes — looking up any probe equal to the key answers
    /// that value, provided equal objects hash alike.
    pub proof fn lemma_lookup_after_insert(
        d: Self,
        o: Objects,
        key: ObjId,
        value: ObjId,
        probe: ObjId,
    )
        requires
            d.maps_to(o, key, value),
            o.hash_coherent(),
            o.eq_at(probe, key),
        ensures
            d.spec_lookup(o, probe) == value,
    {
        assert(o.hash_of(probe) == o.hash_of(key));
        assert(d.spec_lookup(o, probe) == value);
    }

    /// Overwrite: inserting under the same key twice leaves the count
    /// alone, redirects lookups to the second value, and releases the first
    /// value exactly once.
    pub proof fn lemma_overwrite(
        d0: Self,
        d1: Self,
        d2: Self,
        o0: Objects,
        o1: Objects,
        o2: Objects,
        key: ObjId,
        v1: ObjId,
        v2: ObjId,
        copy1: bool,
        copy2: bool,
    )
        requires
            o0.wf(),
            o0.live(key),
            o0.live(v1),
            Self::insert_post(d0, d1, o0, o1, key, v1, copy1),
            Self::insert_post(d1, d2, o1, o2, key, v2, copy2),
            v1 != v2,
            v1 != key,
        ensures
            d2.count == d1.count,
            d2.maps_to(o2, key, v2),
            o2.refcount_of(v1) == o1.refcount_of(v1) - 1,
    {
        assert(Self::insert_rc_at(o0, o1, d0, key, v1, copy1, v1));
        assert(o0.refcount_of(v1) >= 1);
        assert(o1.live(v1));
        assert(d1.spec_lookup(o1, key) == v1);
        assert(v1 != NIL);
        assert(Self::insert_rc_at(o1, o2, d1, key, v2, copy2, v1));
    }

    /// Collision tolerance: two unequal keys sharing a hash code are stored
    /// and retrieved independently.
    pub proof fn lemma_collision_tolerance(
        d0: Self,
        d1: Self,
        d2: Self,
        o0: Objects,
        o1: Objects,
        o2: Objects,
        k1: ObjId,
        v1: ObjId,
        k2: ObjId,
        v2: ObjId,
        copy1: bool,
        copy2: bool,
    )
        requires
            o0.wf(),
            o0.live(k1),
            o0.live(v1),
            o0.live(k2),
            Self::insert_post(d0, d1, o0, o1, k1, v1, copy1),
            Self::insert_post(d1, d2, o1, o2, k2, v2, copy2),
            !o0.eq_at(k1, k2),
            o0.hash_of(k1) == o0.hash_of(k2),
            o1.live(k1),
            o2.live(k1),
        ensures
            d2.spec_lookup(o2, k1) == v1,
            d2.maps_to(o2, k2, v2),
    {
        assert(d1.spec_lookup(o1, k1) == v1);
        assert(Self::insert_rc_at(o0, o1, d0, k1, v1, copy1, k1));
        assert(Self::insert_rc_at(o0, o1, d0, k1, v1, copy1, k2));
        assert(o1.info(k1).eq_token == o0.info(k1).eq_token);
        assert(!o1.eq_at(k1, k2));
        assert(d2.spec_lookup(o2, k1) == d1.spec_lookup(o1, k1));
    }

    /// Count invariant: under a coherent registry the running count is the
    /// number of stored entries, and the stored keys are pairwise unequal,
    /// so it counts the distinct-by-equality keys present.
    pub proof fn lemma_count_distinct_keys(d: Self, o: Objects)
        requires
            d.wf(o),
            o.hash_coherent(),
        ensures
            d.count == d.keys_seq().len(),
            forall|i1: int, j1: int, i2: int, j2: int|
                0 <= i1 < d.num_buckets() && 0 <= j1 < d.bucket(i1).len() && 0 <= i2
                    < d.num_buckets() && 0 <= j2 < d.bucket(i2).len() && (i1 != i2 || j1 != j2)
                    ==> !o.eq_at((#[trigger] d.bucket(i1)[j1]).0, (#[trigger] d.bucket(i2)[j2]).0),
    {
        assert forall|i1: int, j1: int, i2: int, j2: int|
            0 <= i1 < d.num_buckets() && 0 <= j1 < d.bucket(i1).len() && 0 <= i2 < d.num_buckets()
                && 0 <= j2 < d.bucket(i2).len() && (i1 != i2 || j1 != j2) implies !o.eq_at(
            (#[trigger] d.bucket(i1)[j1]).0,
            (#[trigger] d.bucket(i2)[j2]).0,
        ) by {
            let x1 = d.bucket(i1)[j1].0;
            let x2 = d.bucket(i2)[j2].0;
            assert(d.entry_ok(o, i1, j1));
            assert(d.entry_ok(o, i2, j2));
            if i1 == i2 {
                if j1 < j2 {
                    assert(!o.eq_at(d.bucket(i1)[j1].0, d.bucket(i1)[j2].0));
                } else {
                    assert(!o.eq_at(d.bucket(i1)[j2].0, d.bucket(i1)[j1].0));
                }
            } else {
                if i1 < i2 {
                    assert(d.bucket_hash(i1) != d.bucket_hash(i2));
                } else {
                    assert(d.bucket_hash(i2) != d.bucket_hash(i1));
                }
                if o.eq_at(x1, x2) {
                    assert(o.hash_of(x1) == o.hash_of(x2));
                }
            }
        }
    }

    /// Copy-key semantics: after inserting a previously absent key with
    /// `copy_key` set, mutating the original key object in place does not
    /// disturb the stored entry — a probe carrying the key's original
    /// behaviour still finds the value.
    pub proof fn lemma_copy_key_insulation(
        d0: Self,
        d2: Self,
        o0: Objects,
        o2: Objects,
        o3: Objects,
        key: ObjId,
        value: ObjId,
        probe: ObjId,
    )
        requires
            Self::insert_post(d0, d2, o0, o2, key, value, true),
            d0.spec_lookup(o0, key) == NIL,
            o3.len() == o2.len(),
            Objects::unchanged_except(o2, o3, set![key]),
            probe != key,
            o2.live(probe),
            o2.eq_at(probe, key),
            o2.hash_of(probe) == o2.hash_of(key),
        ensures
            d2.spec_lookup(o3, probe) == value,
    {
        assert(d2.spec_lookup(o2, probe) == value);
        assert(!d2.keys_seq().contains(key));
        assert(d2.entries_beh_stable(o2, o3)) by {
            assert forall|i: int, j: int|
                0 <= i < d2.num_buckets() && 0 <= j < d2.bucket(i).len() implies Objects::beh_same_at(
                o2,
                o3,
                (#[trigger] d2.bucket(i)[j]).0,
            ) by {
                let x = d2.bucket(i)[j].0;
                if x == key {
                    d2.lemma_keys_from_mem(0, i, j);
                    assert(false);
                } else {
                    assert(Objects::same_at(o2, o3, x));
                }
            }
        }
        assert(Objects::beh_same_at(o2, o3, probe)) by {
            assert(Objects::same_at(o2, o3, probe));
        }
        d2.lemma_spec_lookup_stable(o2, o3, probe);
    }

    /// The stored keys are pairwise distinct handles, whatever the guest's
    /// hash behaviour: a bucket never holds two equal keys, and one handle
    /// cannot sit in two buckets of different hash codes.  The enumeration
    /// therefore never hands a key out twice.
    pub proof fn lemma_stored_keys_distinct(d: Self, o: Objects)
        requires
            d.wf(o),
        ensures
            forall|i1: int, j1: int, i2: int, j2: int|
                0 <= i1 < d.num_buckets() && 0 <= j1 < d.bucket(i1).len() && 0 <= i2
                    < d.num_buckets() && 0 <= j2 < d.bucket(i2).len() && (i1 != i2 || j1 != j2)
                    ==> (#[trigger] d.bucket(i1)[j1]).0 != (#[trigger] d.bucket(i2)[j2]).0,
    {
        assert forall|i1: int, j1: int, i2: int, j2: int|
            0 <= i1 < d.num_buckets() && 0 <= j1 < d.bucket(i1).len() && 0 <= i2 < d.num_buckets()
                && 0 <= j2 < d.bucket(i2).len() && (i1 != i2 || j1 != j2) implies (
        #[trigger] d.bucket(i1)[j1]).0 != (#[trigger] d.bucket(i2)[j2]).0 by {
            assert(d.entry_ok(o, i1, j1));
            assert(d.entry_ok(o, i2, j2));
            if i1 == i2 {
                if j1 < j2 {
                    assert(!o.eq_at(d.bucket(i1)[j1].0, d.bucket(i1)[j2].0));
                } else {
                    assert(!o.eq_at(d.bucket(i1)[j2].0, d.bucket(i1)[j1].0));
                }
            } else {
                if i1 < i2 {
                    assert(d.bucket_hash(i1) != d.bucket_hash(i2));
                } else {
                    assert(d.bucket_hash(i2) != d.bucket_hash(i1));
                }
            }
        }
    }

    /// Release exactness: what `release` records for one handle — its
    /// reference count drops by exactly the number of references the table
    /// held on it, one per stored key and one per stored value.
    pub proof fn lemma_release_exactness(
        pre: Objects,
        post: Objects,
        m: Multiset<ObjId>,
        x: ObjId,
    )
        requires
            Self::released_from(pre, post, m),
            pre.live(x),
        ensures
            post.refcount_of(x) == pre.refcount_of(x) - m.count(x),
    {
        assert(Self::released_at(pre, post, x, m.count(x)));
    }

    /// A value that a lookup finds is among the references the table holds.
    pub proof fn lemma_lookup_in_refs(d: Self, o: Objects, key: ObjId)
        requires
            d.spec_lookup(o, key) != NIL,
        ensures
            d.ref_multiset().count(d.spec_lookup(o, key)) >= 1,
    {
        let h = o.hash_of(key);
        d.lemma_find_bucket_from(h, 0);
        let i = d.find_bucket(h);
        assert(i >= 0);
        Self::lemma_bucket_lookup_chars(o, d.bucket(i), key);
        let r = Self::first_match_idx(o, d.bucket(i), key);
        assert(r != -1);
        Self::lemma_refs_of_entries_mem(d.bucket(i), r);
        d.lemma_refs_from_count(0, i, d.spec_lookup(o, key));
    }

    /// Created empty.
    pub fn new() -> (r: DictionaryHostObject)
        ensures
            r.num_buckets() == 0,
            r.count == 0,
            forall|o: Objects, key: ObjId| r.spec_lookup(o, key) == NIL,
            forall|o: Objects| r.wf(o),
            r.keys_seq() =~= Seq::<ObjId>::empty(),
            r.ref_multiset() =~= Multiset::<ObjId>::empty(),
    {
        let r = DictionaryHostObject { map: Vec::new(), count: 0 };
        proof {
            assert forall|o: Objects| r.wf(o) by {
                assert(r.keys_seq() =~= Seq::<ObjId>::empty());
                assert forall|x: ObjId| (#[trigger] r.ref_multiset().count(x))
                    <= o.refcount_of(x) by {
                    assert(r.ref_multiset() =~= Multiset::<ObjId>::empty());
                }
            }
        }
        r
    }

    /// Read-only lookup: hash the key with its own dynamic behaviour, then
    /// scan the bucket for the first identity- or equality-matching key.
    /// Returns [`NIL`] when the key is absent; never touches ownership.
    pub fn lookup(&self, o: &Objects, key: ObjId) -> (r: ObjId)
        ensures
            r == self.spec_lookup(*o, key),
    {
        let hash = o.dynamic_hash(key);
        let n = self.map.len();
        let mut i: usize = 0;
        while i < n
            invariant
                0 <= i <= n,
                n == self.num_buckets(),
                hash == o.hash_of(key),
                self.find_bucket(hash) == self.find_bucket_from(hash, i as int),
            decreases n - i,
        {
            if self.map[i].0 == hash {
                proof {
                    assert(self.find_bucket(hash) == i as int);
                    assert(self.bucket(i as int).skip(0) =~= self.bucket(i as int));
                }
                let bucket = &self.map[i].1;
                let m = bucket.len();
                let mut j: usize = 0;
                while j < m
                    invariant
                        0 <= j <= m,
                        0 <= i < self.num_buckets(),
                        m == self.bucket(i as int).len(),
                        bucket@ == self.bucket(i as int),
                        hash == o.hash_of(key),
                        self.find_bucket(hash) == i as int,
                        Self::bucket_lookup(*o, self.bucket(i as int), key) == Self::bucket_lookup(
                            *o,
                            self.bucket(i as int).skip(j as int),
                            key,
                        ),
                    decreases m - j,
                {
                    let e = bucket[j];
                    proof {
                        assert(self.bucket(i as int).skip(j as int)[0] == e);
                        assert(self.bucket(i as int).skip(j as int).drop_first() =~= self.bucket(
                            i as int,
                        ).skip(j as int + 1));
                    }
                    if o.dynamic_equals(e.0, key) {
                        return e.1;
                    }
                    j = j + 1;
                }
                proof {
                    assert(self.bucket(i as int).skip(m as int) =~= Seq::<(ObjId, ObjId)>::empty());
                }
                return NIL;
            }
            i = i + 1;
        }
        NIL
    }
}

/// The answer of looking `p` up after inserting `pairs` in order into an
/// empty table: the last pair whose key equals `p` and hashes like it wins.
pub open spec fn lookup_pairs(o: Objects, pairs: Seq<(ObjId, ObjId)>, p: ObjId) -> ObjId
    decreases pairs.len(),
{
    if pairs.len() == 0 {
        NIL
    } else if o.eq_at(p, pairs.last().0) && o.hash_of(p) == o.hash_of(pairs.last().0) {
        pairs.last().1
    } else {
        lookup_pairs(o, pairs.drop_last(), p)
    }
}

/// Some pair among `pairs` carries a key equal to `p` and hashing like it.
pub open spec fn has_key_in(o: Objects, pairs: Seq<(ObjId, ObjId)>, p: ObjId) -> bool {
    exists|j: int|
        0 <= j < pairs.len() && o.eq_at(p, (#[trigger] pairs[j]).0) && o.hash_of(p) == o.hash_of(
            pairs[j].0,
        )
}

/// Number of distinct keys among `pairs`: pairs whose key no earlier pair
/// already carried.
pub open spec fn distinct_key_count(o: Objects, pairs: Seq<(ObjId, ObjId)>) -> int
    decreases pairs.len(),
{
    if pairs.len() == 0 {
        0
    } else {
        distinct_key_count(o, pairs.drop_last()) + (if has_key_in(
            o,
            pairs.drop_last(),
            pairs.last().0,
        ) {
            0int
        } else {
            1int
        })
    }
}

/// When every paired value is live, the pair walk answers nil exactly for
/// probes no pair's key matches.
proof fn lemma_lookup_pairs_nil(o: Objects, pairs: Seq<(ObjId, ObjId)>, p: ObjId)
    requires
        forall|j: int| 0 <= j < pairs.len() ==> o.live((#[trigger] pairs[j]).1),
    ensures
        (lookup_pairs(o, pairs, p) == NIL) == !has_key_in(o, pairs, p),
    decreases pairs.len(),
{
    if pairs.len() > 0 {
        let head = pairs.drop_last();
        assert forall|j: int| 0 <= j < head.len() implies o.live((#[trigger] head[j]).1) by {
            assert(head[j] == pairs[j]);
        }
        lemma_lookup_pairs_nil(o, head, p);
        let lastk = pairs.last().0;
        if o.eq_at(p, lastk) && o.hash_of(p) == o.hash_of(lastk) {
            assert(o.live(pairs.last().1));
            assert(has_key_in(o, pairs, p));
        } else {
            if has_key_in(o, pairs, p) {
                let j = choose|j: int|
                    0 <= j < pairs.len() && o.eq_at(p, (#[trigger] pairs[j]).0) && o.hash_of(p)
                        == o.hash_of(pairs[j].0);
                assert(j < head.len() && head[j] == pairs[j]);
                assert(has_key_in(o, head, p));
            }
            if has_key_in(o, head, p) {
                let j = choose|j: int|
                    0 <= j < head.len() && o.eq_at(p, (#[trigger] head[j]).0) && o.hash_of(p)
                        == o.hash_of(head[j].0);
                assert(pairs[j] == head[j]);
                assert(has_key_in(o, pairs, p));
            }
        }
    }
}

/// Build a dictionary from `(key, object)` pairs.  Each pair is inserted
/// with `copy_key` set, so the table owns independent copies of the keys and
/// one reference to every stored object — unlike a plain array builder,
/// this retains.  Later pairs override earlier pairs with an equal key.
pub fn dict_from_keys_and_objects(o: &mut Objects, keys_and_objects: &Vec<(ObjId, ObjId)>) -> (dict:
    DictionaryHostObject)
    requires
        old(o).wf(),
        forall|i: int|
            0 <= i < keys_and_objects@.len() ==> old(o).live(
                (#[trigger] keys_and_objects@[i]).0,
            ) && old(o).live(keys_and_objects@[i].1),
        forall|i: int|
            0 <= i < keys_and_objects@.len() ==> old(o).refcount_of(
                (#[trigger] keys_and_objects@[i]).1,
            ) + keys_and_objects@.len() + 2 <= u32::MAX,
        old(o).len() + keys_and_objects@.len() <= usize::MAX,
        keys_and_objects@.len() <= u32::MAX,
    ensures
        dict.wf(*final(o)),
        final(o).wf(),
        forall|p: ObjId|
            old(o).live(p) ==> #[trigger] dict.spec_lookup(*final(o), p) == lookup_pairs(
                *old(o),
                keys_and_objects@,
                p,
            ),
        dict.count == distinct_key_count(*old(o), keys_and_objects@),
        final(o).len() == old(o).len() + keys_and_objects@.len(),
        forall|x: ObjId| old(o).live(x) ==> final(o).live(x),
{
    let ghost o0 = *old(o);
    let ghost pairs = keys_and_objects@;
    let mut dict = DictionaryHostObject::new();
    let n = keys_and_objects.len();
    proof {
        assert(pairs.take(0) =~= Seq::<(ObjId, ObjId)>::empty());
    }
    let mut i: usize = 0;
    while i < n
        invariant
            0 <= i <= n,
            n == pairs.len(),
            keys_and_objects@ == pairs,
            o0.wf(),
            o.wf(),
            dict.wf(*o),
            dict.count <= i,
            o.len() == o0.len() + i,
            pairs.len() <= u32::MAX,
            o0.len() + pairs.len() <= usize::MAX,
            forall|k: int|
                0 <= k < pairs.len() ==> o0.live((#[trigger] pairs[k]).0) && o0.live(pairs[k].1),
            forall|k: int|
                0 <= k < pairs.len() ==> o0.refcount_of((#[trigger] pairs[k]).1) + pairs.len() + 2
                    <= u32::MAX,
            forall|x: ObjId| o0.live(x) ==> #[trigger] dict.ref_multiset().count(x) <= i,
            forall|x: ObjId|
                o0.live(x) && #[trigger] dict.ref_multiset().count(x) > 0 ==> o0.refcount_of(x)
                    + dict.ref_multiset().count(x) + (n - i) + 2 <= u32::MAX,
            forall|x: ObjId|
                o0.live(x) ==> #[trigger] o.live(x) && o.info(x) == (ObjectInfo {
                    refcount: ((o0.info(x).refcount + dict.ref_multiset().count(x)) as u32),
                    ..o0.info(x)
                }),
            forall|p: ObjId|
                o0.live(p) ==> #[trigger] dict.spec_lookup(*o, p) == lookup_pairs(
                    o0,
                    pairs.take(i as int),
                    p,
                ),
            dict.count == distinct_key_count(o0, pairs.take(i as int)),
        decreases n - i,
    {
        let pair = keys_and_objects[i];
        let key = pair.0;
        let object = pair.1;
        let ghost o_pre = *o;
        let ghost d_pre = dict;
        proof {
            assert(o0.live(key) && o0.live(object));
            assert(o0.refcount_of(key) >= 1);
            assert(o.live(key) && o.live(object));
            assert(o.refcount_of(key) == o0.refcount_of(key) + dict.ref_multiset().count(key));
            assert(o.info(object).refcount + 2 <= u32::MAX) by {
                assert(o0.refcount_of(object) + pairs.len() + 2 <= u32::MAX);
                assert(dict.ref_multiset().count(object) <= i);
            }
        }
        dict.insert(o, key, object, true);
        proof {
            let o_new = *o;
            let vold = d_pre.spec_lookup(o_pre, key);
            assert(DictionaryHostObject::insert_rc_at(
                o_pre,
                o_new,
                d_pre,
                key,
                object,
                true,
                object,
            ));
            // bookkeeping equality carries over one insertion
            assert forall|x: ObjId| o0.live(x) implies #[trigger] o.live(x) && o.info(x)
                == (ObjectInfo {
                refcount: ((o0.info(x).refcount + dict.ref_multiset().count(x)) as u32),
                ..o0.info(x)
            }) by {
                assert(DictionaryHostObject::insert_rc_at(
                    o_pre,
                    o_new,
                    d_pre,
                    key,
                    object,
                    true,
                    x,
                ));
                if vold != NIL && x == vold {
                    DictionaryHostObject::lemma_lookup_in_refs(d_pre, o_pre, key);
                }
            }
            assert forall|x: ObjId| o0.live(x) implies #[trigger] dict.ref_multiset().count(x)
                <= i + 1 by {
                assert(d_pre.ref_multiset().count(x) <= i);
            }
            assert forall|x: ObjId|
                o0.live(x) && #[trigger] dict.ref_multiset().count(x) > 0 implies o0.refcount_of(
                x,
            ) + dict.ref_multiset().count(x) + (n - (i + 1)) + 2 <= u32::MAX by {
                assert(d_pre.ref_multiset().count(x) <= i);
                if x == object {
                    assert(o0.refcount_of(x) + pairs.len() + 2 <= u32::MAX);
                    assert(dict.ref_multiset().count(x) <= i + 1);
                } else {
                    assert(dict.ref_multiset().count(x) <= d_pre.ref_multiset().count(x));
                }
            }
            // the lookup answers extend by the pair just inserted
            assert(pairs.take(i as int + 1).drop_last() =~= pairs.take(i as int));
            assert(pairs.take(i as int + 1).last() == pair);
            // and the count grows exactly when no earlier pair carried it
            assert forall|j: int| 0 <= j < pairs.take(i as int).len() implies o0.live(
                (#[trigger] pairs.take(i as int)[j]).1,
            ) by {
                assert(pairs.take(i as int)[j] == pairs[j]);
            }
            lemma_lookup_pairs_nil(o0, pairs.take(i as int), key);
            assert(d_pre.spec_lookup(o_pre, key) == lookup_pairs(o0, pairs.take(i as int), key));
            assert(dict.count == distinct_key_count(o0, pairs.take(i as int + 1)));
            assert forall|p: ObjId| o0.live(p) implies #[trigger] dict.spec_lookup(o_new, p)
                == lookup_pairs(o0, pairs.take(i as int + 1), p) by {
                assert(DictionaryHostObject::insert_rc_at(
                    o_pre,
                    o_new,
                    d_pre,
                    key,
                    object,
                    true,
                    p,
                ));
                assert(o_new.live(p));
                let c_new = o_new.eq_at(p, key) && o_new.hash_of(p) == o_new.hash_of(key);
                let c_old = o0.eq_at(p, key) && o0.hash_of(p) == o0.hash_of(key);
                assert(c_new == c_old);
                if c_new {
                    assert(dict.spec_lookup(o_new, p) == object);
                } else {
                    assert(!(o_pre.eq_at(p, key) && o_pre.hash_of(p) == o_pre.hash_of(key)));
                    assert(dict.spec_lookup(o_new, p) == d_pre.spec_lookup(o_pre, p));
                }
            }
        }
        i = i + 1;
    }
    proof {
        assert(pairs.take(n as int) =~= pairs);
    }
    dict
}

/// Shared core of the `initWithObjectsAndKeys:`-style constructors, without
/// the variadic walk: the first object with its key, then the remaining
/// `(object, key)` pairs in argument order, all inserted with key copying.
pub fn init_with_objects_and_keys(
    o: &mut Objects,
    first_object: ObjId,
    first_key: ObjId,
    rest: &Vec<(ObjId, ObjId)>,
) -> (dict: DictionaryHostObject)
    requires
        old(o).wf(),
        old(o).live(first_key),
        old(o).live(first_object),
        forall|i: int|
            0 <= i < rest@.len() ==> old(o).live((#[trigger] rest@[i]).0) && old(o).live(
                rest@[i].1,
            ),
        old(o).refcount_of(first_object) + rest@.len() + 3 <= u32::MAX,
        forall|i: int|
            0 <= i < rest@.len() ==> old(o).refcount_of((#[trigger] rest@[i]).0) + rest@.len() + 3
                <= u32::MAX,
        old(o).len() + rest@.len() + 1 <= usize::MAX,
        rest@.len() + 1 <= u32::MAX,
    ensures
        dict.wf(*final(o)),
        final(o).wf(),
        forall|p: ObjId|
            old(o).live(p) ==> #[trigger] dict.spec_lookup(*final(o), p) == lookup_pairs(
                *old(o),
                seq![(first_key, first_object)] + rest@.map_values(
                    |e: (ObjId, ObjId)| (e.1, e.0),
                ),
                p,
            ),
        dict.count == distinct_key_count(
            *old(o),
            seq![(first_key, first_object)] + rest@.map_values(|e: (ObjId, ObjId)| (e.1, e.0)),
        ),
        final(o).len() == old(o).len() + rest@.len() + 1,
        forall|x: ObjId| old(o).live(x) ==> final(o).live(x),
{
    let ghost target = seq![(first_key, first_object)] + rest@.map_values(
        |e: (ObjId, ObjId)| (e.1, e.0),
    );
    let mut pairs: Vec<(ObjId, ObjId)> = Vec::new();
    pairs.push((first_key, first_object));
    let n = rest.len();
    let mut i: usize = 0;
    while i < n
        invariant
            0 <= i <= n,
            n == rest@.len(),
            pairs@ =~= target.take(i as int + 1),
            target.len() == n + 1,
            target[0] == (first_key, first_object),
            forall|k: int| 0 <= k < n ==> #[trigger] target[k + 1] == (rest@[k].1, rest@[k].0),
        decreases n - i,
    {
        let e = rest[i];
        pairs.push((e.1, e.0));
        proof {
            assert(target[i as int + 1] == (rest@[i as int].1, rest@[i as int].0));
            assert(pairs@ =~= target.take(i as int + 2));
        }
        i = i + 1;
    }
    proof {
        assert(pairs@ =~= target);
        assert forall|k: int| 0 <= k < pairs@.len() implies old(o).live(
            (#[trigger] pairs@[k]).0,
        ) && old(o).live(pairs@[k].1) by {
            if k > 0 {
                assert(target[k] == (rest@[k - 1].1, rest@[k - 1].0));
            }
        }
        assert forall|k: int| 0 <= k < pairs@.len() implies old(o).refcount_of(
            (#[trigger] pairs@[k]).1,
        ) + pairs@.len() + 2 <= u32::MAX by {
            if k > 0 {
                assert(target[k] == (rest@[k - 1].1, rest@[k - 1].0));
            }
        }
    }
    dict_from_keys_and_objects(o, &pairs)
}

impl Default for DictionaryHostObject {
    /// Created empty, as the collection classes' allocation paths expect.
    fn default() -> (r: DictionaryHostObject)
        ensures
            r.num_buckets() == 0,
            r.count == 0,
            forall|o: Objects, key: ObjId| r.spec_lookup(o, key) == NIL,
            forall|o: Objects| r.wf(o),
            r.keys_seq() =~= Seq::<ObjId>::empty(),
            r.ref_multiset() =~= Multiset::<ObjId>::empty(),
    {
        DictionaryHostObject::new()
    }
}

} // verus!
