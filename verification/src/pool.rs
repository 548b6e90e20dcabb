//! The interning pool and its handles.
//!
//! [`AtomPool`] owns the slot table and the weak hash index; [`Atom`] is the
//! caller-facing handle.  Every operation's contract equates the pool's new
//! model with a transition function from [`crate::model`], so the observable
//! behaviour is pinned down exactly.
//!
//! Handles follow an explicit acquire/release protocol: [`Atom::create`] and
//! [`Atom::clone_handle`] acquire a reference, [`Atom::release`] gives one
//! back.  The entry lives exactly as long as its counter is positive; the
//! weak index never keeps an entry alive.

use vstd::prelude::*;
use std::collections::HashMap;
use crate::hashing::{hash_of, str_hash};
use crate::model::{AtomModel, IndexRecord, PoolModel, SlotModel};
use crate::model::{lemma_find_hash_from, lemma_find_text, lemma_wf_bumped, lemma_wf_collected,
    lemma_wf_created, lemma_wf_released, lemma_wf_stored};

verus! {

/// The content that invalid input to [`Atom::from_utf8`] is reported with.
#[derive(Debug, PartialEq, Eq, Structural)]
pub enum AtomError {
    /// The given bytes are not valid UTF-8.
    InvalidUtf8,
}

/// The interning pool: each distinct text is held in one live slot, keyed for
/// fast lookup by its hash through `buckets`; `idx_hashes`/`idx_slots` form
/// the weak hash index.  Freed slots stay as tombstones (empty text, zero
/// hash, zero count) and are never reused, so a slot number identifies one
/// entry for the pool's whole lifetime.
pub struct AtomPool {
    texts: Vec<String>,
    hashes: Vec<u64>,
    counts: Vec<u64>,
    buckets: HashMap<u64, Vec<usize>>,
    idx_hashes: Vec<u64>,
    idx_slots: Vec<usize>,
}

/// A handle to one interned entry: the entry's slot and its precomputed
/// hash.  Two handles of one pool are equal exactly when they reference the
/// same entry, which by deduplication means equal text.
#[derive(Debug, PartialEq, Eq, Hash, Structural)]
pub struct Atom {
    slot: usize,
    hash: u64,
}

impl View for Atom {
    type V = AtomModel;

    closed spec fn view(&self) -> AtomModel {
        AtomModel { slot: self.slot as nat, hash: self.hash }
    }
}

impl View for AtomPool {
    type V = PoolModel;

    closed spec fn view(&self) -> PoolModel {
        PoolModel {
            slots: Seq::new(
                self.texts@.len(),
                |i: int| SlotModel {
                    text: self.texts@[i]@,
                    hash: self.hashes@[i],
                    count: self.counts@[i] as nat,
                },
            ),
            index: Seq::new(
                self.idx_hashes@.len(),
                |k: int| IndexRecord { hash: self.idx_hashes@[k], slot: self.idx_slots@[k] as nat },
            ),
        }
    }
}

impl AtomPool {
    /// The slot table's three columns and the index's two agree in length.
    spec fn sizes_ok(self) -> bool {
        &&& self.hashes@.len() == self.texts@.len()
        &&& self.counts@.len() == self.texts@.len()
        &&& self.idx_slots@.len() == self.idx_hashes@.len()
    }

    /// The bucket map is a sound and complete index of the slot table: every
    /// bucket entry is a slot number in range whose live entry carries the
    /// bucket's hash, and every live slot is listed in the bucket of its
    /// hash.
    spec fn bucket_ok(self) -> bool {
        &&& forall|h: u64, k: int|
            self.buckets@.contains_key(h) && 0 <= k < self.buckets@[h]@.len() ==> {
                let j = (#[trigger] self.buckets@[h]@[k]) as int;
                &&& j < self.texts@.len()
                &&& (self.counts@[j] > 0 ==> self.hashes@[j] == h)
            }
        &&& forall|i: int|
            0 <= i < self.texts@.len() && (#[trigger] self.counts@[i]) > 0 ==> {
                &&& self.buckets@.contains_key(self.hashes@[i])
                &&& exists|k: int|
                    0 <= k < self.buckets@[self.hashes@[i]]@.len()
                        && (#[trigger] self.buckets@[self.hashes@[i]]@[k]) as int == i
            }
    }

    /// The pool's invariant: the concrete columns line up, the bucket index
    /// mirrors the slot table, and the model is well-formed.
    pub closed spec fn wf(self) -> bool {
        &&& self.sizes_ok()
        &&& self.bucket_ok()
        &&& self@.wf()
    }

    /// The model of a well-formed pool is well-formed.
    pub proof fn lemma_wf_model(self)
        requires
            self.wf(),
        ensures
            self@.wf(),
    {
    }

    /// An empty pool: no entries, no weak records.
    pub fn new() -> (p: AtomPool)
        ensures
            p.wf(),
            p@ == PoolModel::empty(),
    {
        let p = AtomPool {
            texts: Vec::new(),
            hashes: Vec::new(),
            counts: Vec::new(),
            buckets: HashMap::new(),
            idx_hashes: Vec::new(),
            idx_slots: Vec::new(),
        };
        proof {
            assert(p@.slots =~= Seq::<SlotModel>::empty());
            assert(p@.index =~= Seq::<IndexRecord>::empty());
            assert(p@ =~= PoolModel::empty());
        }
        p
    }

    /// The number of live entries in the pool.
    pub fn live_count(&self) -> (n: usize)
        requires
            self.wf(),
        ensures
            n as nat == self@.live_slot_count(),
    {
        let len = self.counts.len();
        let mut n: usize = 0;
        let mut i: usize = 0;
        while i < len
            invariant
                self.wf(),
                len == self.counts@.len(),
                i <= len,
                n <= i,
                n as nat == self@.num_live(i as int),
            decreases len - i,
        {
            if self.counts[i] > 0 {
                n = n + 1;
            }
            i = i + 1;
        }
        n
    }
}

/// The slot of the live entry holding text `s`, found through the bucket of
/// its hash, or nothing when `s` is not interned.
fn find_live_slot(pool: &AtomPool, h: u64, s: &String) -> (found: Option<usize>)
    requires
        pool.wf(),
        h == hash_of(s@),
    ensures
        match found {
            Some(j) => pool@.has_text_at(j as int, s@),
            None => forall|j: int| !pool@.has_text_at(j, s@),
        },
{
    let bucket_opt = pool.buckets.get(&h);
    match bucket_opt {
        None => {
            proof {
                assert forall|j: int| !pool@.has_text_at(j, s@) by {
                    if pool@.live_at(j) && pool@.slots[j].text == s@ {
                        assert(pool@.slots[j].hash == hash_of(pool@.slots[j].text));
                        assert(pool.buckets@.contains_key(pool.hashes@[j]));
                    }
                }
            }
            None
        },
        Some(bucket) => {
            let n = bucket.len();
            let mut k: usize = 0;
            let mut found: Option<usize> = None;
            while k < n && found.is_none()
                invariant
                    pool.wf(),
                    h == hash_of(s@),
                    pool.buckets@.contains_key(h),
                    pool.buckets@[h] == *bucket,
                    n == bucket@.len(),
                    k <= n,
                    forall|k2: int| 0 <= k2 < k ==> !pool@.has_text_at(bucket@[k2] as int, s@),
                    found matches Some(j) ==> pool@.has_text_at(j as int, s@),
                decreases n - k + (if found is None { 1int } else { 0int }),
            {
                let j = bucket[k];
                proof {
                    assert(pool.buckets@[h]@[k as int] as int == j);
                    assert(j < pool.texts@.len());
                }
                if pool.counts[j] > 0 && pool.texts[j] == *s {
                    found = Some(j);
                } else {
                    k = k + 1;
                }
            }
            proof {
                if found is None {
                    assert forall|j: int| !pool@.has_text_at(j, s@) by {
                        if pool@.live_at(j) && pool@.slots[j].text == s@ {
                            assert(pool@.slots[j].hash == hash_of(pool@.slots[j].text));
                            assert(pool.counts@[j] > 0);
                            let k2 = choose|k2: int|
                                0 <= k2 < pool.buckets@[pool.hashes@[j]]@.len()
                                    && pool.buckets@[pool.hashes@[j]]@[k2] as int == j;
                            assert(!pool@.has_text_at(bucket@[k2] as int, s@));
                        }
                    }
                }
            }
            found
        },
    }
}

/// Increments the live-reference counter of a live slot in place.
fn bump_slot(pool: &mut AtomPool, j: usize)
    requires
        old(pool).wf(),
        old(pool)@.live_at(j as int),
        old(pool)@.slots[j as int].count < u64::MAX,
    ensures
        final(pool).wf(),
        final(pool)@ == old(pool)@.bumped(j as int),
{
    proof {
        lemma_wf_bumped(old(pool)@, j as int);
    }
    let c = pool.counts[j];
    pool.counts[j] = c + 1;
    proof {
        let m0 = old(pool)@;
        assert(pool@.slots =~= m0.slots.update(
            j as int,
            SlotModel { count: m0.slots[j as int].count + 1, ..m0.slots[j as int] },
        ));
        assert(pool@.index =~= m0.index);
        assert(pool@ =~= m0.bumped(j as int));
        assert forall|h2: u64, k: int|
            pool.buckets@.contains_key(h2) && 0 <= k < pool.buckets@[h2]@.len() implies {
            let j2 = (#[trigger] pool.buckets@[h2]@[k]) as int;
            &&& j2 < pool.texts@.len()
            &&& (pool.counts@[j2] > 0 ==> pool.hashes@[j2] == h2)
        } by {
            let j2 = pool.buckets@[h2]@[k] as int;
            assert(old(pool).buckets@[h2]@[k] as int == j2);
            if pool.counts@[j2] > 0 && j2 == j as int {
                assert(old(pool).counts@[j2] > 0);
            }
        }
        assert forall|i: int|
            0 <= i < pool.texts@.len() && (#[trigger] pool.counts@[i]) > 0 implies {
            &&& pool.buckets@.contains_key(pool.hashes@[i])
            &&& exists|k: int|
                0 <= k < pool.buckets@[pool.hashes@[i]]@.len()
                    && (#[trigger] pool.buckets@[pool.hashes@[i]]@[k]) as int == i
        } by {
            assert(old(pool).counts@[i] > 0);
        }
    }
}

/// The position of the weak index record for hash `h`, or nothing when no
/// record carries that hash.
fn find_index_pos(pool: &AtomPool, h: u64) -> (pos: Option<usize>)
    requires
        pool.wf(),
    ensures
        match pos {
            Some(k) => pool@.find_hash(h) == Some(k as int),
            None => pool@.find_hash(h) is None,
        },
{
    let n = pool.idx_hashes.len();
    let mut k: usize = 0;
    while k < n
        invariant
            pool.wf(),
            n == pool.idx_hashes@.len(),
            k <= n,
            pool@.find_hash(h) == pool@.find_hash_from(h, k as int),
        decreases n - k,
    {
        if pool.idx_hashes[k] == h {
            proof {
                assert(pool@.index[k as int].hash == h);
            }
            return Some(k);
        }
        proof {
            assert(pool@.index[k as int].hash != h);
        }
        k = k + 1;
    }
    None
}

/// The bucket index only reads the bucket map, the counters, the hashes and
/// the number of slots; it transfers between pools that agree on those.
proof fn lemma_bucket_ok_transfer(p1: AtomPool, p2: AtomPool)
    requires
        p1.bucket_ok(),
        p2.buckets@ == p1.buckets@,
        p2.texts@.len() == p1.texts@.len(),
        p2.counts@ == p1.counts@,
        p2.hashes@ == p1.hashes@,
    ensures
        p2.bucket_ok(),
{
    assert forall|h: u64, k: int|
        p2.buckets@.contains_key(h) && 0 <= k < p2.buckets@[h]@.len() implies {
        let j = (#[trigger] p2.buckets@[h]@[k]) as int;
        &&& j < p2.texts@.len()
        &&& (p2.counts@[j] > 0 ==> p2.hashes@[j] == h)
    } by {
        assert(p1.buckets@[h]@[k] as int == p2.buckets@[h]@[k] as int);
    }
    assert forall|i: int|
        0 <= i < p2.texts@.len() && (#[trigger] p2.counts@[i]) > 0 implies {
        &&& p2.buckets@.contains_key(p2.hashes@[i])
        &&& exists|k: int|
            0 <= k < p2.buckets@[p2.hashes@[i]]@.len()
                && (#[trigger] p2.buckets@[p2.hashes@[i]]@[k]) as int == i
    } by {
        assert(p1.counts@[i] > 0);
        let k2 = choose|k2: int|
            0 <= k2 < p1.buckets@[p1.hashes@[i]]@.len()
                && p1.buckets@[p1.hashes@[i]]@[k2] as int == i;
        assert(p2.buckets@[p2.hashes@[i]]@[k2] as int == i);
    }
}

impl Atom {
    /// Interns `s`: returns a handle to the live entry for `s`, incrementing
    /// its counter, after first adding an entry with counter 1 if none was
    /// live.  The weak index is untouched.
    pub fn create(pool: &mut AtomPool, s: String) -> (a: Atom)
        requires
            old(pool).wf(),
            old(pool)@.count_of(s@) < u64::MAX,
        ensures
            final(pool).wf(),
            final(pool)@ == old(pool)@.created(s@),
            a@ == old(pool)@.created_atom(s@),
            final(pool)@.valid_atom(a@),
            final(pool)@.atom_text(a@) == s@,
            a@.hash == hash_of(s@),
    {
        proof {
            lemma_find_text(old(pool)@, s@);
            lemma_wf_created(old(pool)@, s@);
        }
        let h = str_hash(s.as_str());
        let found = find_live_slot(pool, h, &s);
        match found {
            Some(j) => {
                proof {
                    assert(old(pool)@.find_text(s@) matches Some(i) && i == j as int);
                }
                bump_slot(pool, j);
                Atom { slot: j, hash: h }
            },
            None => {
                proof {
                    assert(old(pool)@.find_text(s@) is None);
                }
                let j = pool.texts.len();
                let ghost svw = s@;
                pool.texts.push(s);
                pool.hashes.push(h);
                pool.counts.push(1);
                let mut b = match pool.buckets.remove(&h) {
                    Some(b0) => b0,
                    None => Vec::new(),
                };
                b.push(j);
                let ghost bval = b;
                let ghost bvw = b@;
                let ghost bucket_was = if old(pool).buckets@.contains_key(h) {
                    old(pool).buckets@[h]@
                } else {
                    Seq::<usize>::empty()
                };
                pool.buckets.insert(h, b);
                proof {
                    let m0 = old(pool)@;
                    assert(bvw =~= bucket_was.push(j));
                    assert(pool.buckets@ =~= old(pool).buckets@.insert(h, bval));
                    assert(pool@.slots =~= m0.slots.push(
                        SlotModel { text: svw, hash: hash_of(svw), count: 1 },
                    ));
                    assert(pool@.index =~= m0.index);
                    assert(pool@ =~= m0.created(svw));
                    assert forall|h2: u64, k: int|
                        pool.buckets@.contains_key(h2) && 0 <= k < pool.buckets@[h2]@.len()
                            implies {
                        let j2 = (#[trigger] pool.buckets@[h2]@[k]) as int;
                        &&& j2 < pool.texts@.len()
                        &&& (pool.counts@[j2] > 0 ==> pool.hashes@[j2] == h2)
                    } by {
                        let j2 = pool.buckets@[h2]@[k] as int;
                        if h2 == h {
                            if k < bucket_was.len() {
                                assert(old(pool).buckets@[h2]@[k] as int == j2);
                            } else {
                                assert(j2 == j as int);
                            }
                        } else {
                            assert(old(pool).buckets@[h2]@[k] as int == j2);
                        }
                    }
                    assert forall|i: int|
                        0 <= i < pool.texts@.len() && (#[trigger] pool.counts@[i]) > 0 implies {
                        &&& pool.buckets@.contains_key(pool.hashes@[i])
                        &&& exists|k: int|
                            0 <= k < pool.buckets@[pool.hashes@[i]]@.len()
                                && (#[trigger] pool.buckets@[pool.hashes@[i]]@[k]) as int == i
                    } by {
                        if i == j as int {
                            assert(pool.buckets@[h]@[bvw.len() - 1] as int == i);
                        } else {
                            assert(old(pool).counts@[i] > 0);
                            let k2 = choose|k2: int|
                                0 <= k2 < old(pool).buckets@[old(pool).hashes@[i]]@.len()
                                    && old(pool).buckets@[old(pool).hashes@[i]]@[k2] as int == i;
                            if old(pool).hashes@[i] == h {
                                assert(pool.buckets@[pool.hashes@[i]]@[k2] as int == i);
                            } else {
                                assert(pool.buckets@[pool.hashes@[i]]@[k2] as int == i);
                            }
                        }
                    }
                }
                Atom { slot: j, hash: h }
            },
        }
    }

    /// Interns borrowed text; the counterpart of [`Atom::create`] for `&str`.
    pub fn new(pool: &mut AtomPool, text: &str) -> (a: Atom)
        requires
            old(pool).wf(),
            old(pool)@.count_of(text@) < u64::MAX,
        ensures
            final(pool).wf(),
            final(pool)@ == old(pool)@.created(text@),
            a@ == old(pool)@.created_atom(text@),
            final(pool)@.valid_atom(a@),
            final(pool)@.atom_text(a@) == text@,
    {
        Atom::create(pool, text.to_owned())
    }

    /// The interned text, borrowed from the pool.
    pub fn as_str<'a>(&self, pool: &'a AtomPool) -> (r: &'a str)
        requires
            pool.wf(),
            pool@.valid_atom(self@),
        ensures
            r@ == pool@.atom_text(self@),
    {
        pool.texts[self.slot].as_str()
    }

    /// The interned text, copied out into an owned string.
    pub fn to_owned_string(&self, pool: &AtomPool) -> (r: String)
        requires
            pool.wf(),
            pool@.valid_atom(self@),
        ensures
            r@ == pool@.atom_text(self@),
    {
        self.as_str(pool).to_owned()
    }

    /// The entry's precomputed hash, stored in the handle itself.
    pub fn str_hash(&self) -> (h: u64)
        ensures
            h == self@.hash,
    {
        self.hash
    }

    /// Whether this handle references a live entry of `pool` — true for
    /// every handle obtained from `pool` and not yet released.  Callers
    /// outside the verified world can use this to guard the other
    /// operations.
    pub fn is_live(&self, pool: &AtomPool) -> (r: bool)
        requires
            pool.wf(),
        ensures
            r == pool@.valid_atom(self@),
    {
        self.slot < pool.counts.len() && pool.counts[self.slot] > 0 && pool.hashes[self.slot]
            == self.hash
    }

    /// The entry's live-reference counter.
    pub fn ref_count(&self, pool: &AtomPool) -> (c: u64)
        requires
            pool.wf(),
            pool@.valid_atom(self@),
        ensures
            c as nat == pool@.atom_count(self@),
    {
        pool.counts[self.slot]
    }

    /// Acquires one more reference to the entry: the counter rises by one and
    /// an identical handle is returned.  Never fails and performs no lookup.
    pub fn clone_handle(&self, pool: &mut AtomPool) -> (b: Atom)
        requires
            old(pool).wf(),
            old(pool)@.valid_atom(self@),
            old(pool)@.atom_count(self@) < u64::MAX,
        ensures
            final(pool).wf(),
            final(pool)@ == old(pool)@.cloned(self@),
            b == *self,
            final(pool)@.valid_atom(b@),
    {
        bump_slot(pool, self.slot);
        Atom { slot: self.slot, hash: self.hash }
    }

    /// Gives one reference back.  While other handles remain only the counter
    /// drops; when this was the last handle the entry is removed from the
    /// pool and the weak index record for its hash, if any, is dropped with
    /// it.
    pub fn release(self, pool: &mut AtomPool)
        requires
            old(pool).wf(),
            old(pool)@.valid_atom(self@),
        ensures
            final(pool).wf(),
            final(pool)@ == old(pool)@.released(self@),
    {
        proof {
            lemma_wf_released(old(pool)@, self@);
        }
        let i = self.slot;
        let c = pool.counts[i];
        if c > 1 {
            pool.counts[i] = c - 1;
            proof {
                let m0 = old(pool)@;
                assert(pool@.slots =~= m0.slots.update(
                    i as int,
                    SlotModel { count: (m0.slots[i as int].count - 1) as nat, ..m0.slots[i as int] },
                ));
                assert(pool@.index =~= m0.index);
                assert(pool@ =~= m0.released(self@));
                assert forall|h2: u64, k: int|
                    pool.buckets@.contains_key(h2) && 0 <= k < pool.buckets@[h2]@.len() implies {
                    let j2 = (#[trigger] pool.buckets@[h2]@[k]) as int;
                    &&& j2 < pool.texts@.len()
                    &&& (pool.counts@[j2] > 0 ==> pool.hashes@[j2] == h2)
                } by {
                    let j2 = pool.buckets@[h2]@[k] as int;
                    assert(old(pool).buckets@[h2]@[k] as int == j2);
                    if pool.counts@[j2] > 0 && j2 == i as int {
                        assert(old(pool).counts@[j2] > 0);
                    }
                }
                assert forall|i2: int|
                    0 <= i2 < pool.texts@.len() && (#[trigger] pool.counts@[i2]) > 0 implies {
                    &&& pool.buckets@.contains_key(pool.hashes@[i2])
                    &&& exists|k: int|
                        0 <= k < pool.buckets@[pool.hashes@[i2]]@.len()
                            && (#[trigger] pool.buckets@[pool.hashes@[i2]]@[k]) as int == i2
                } by {
                    assert(old(pool).counts@[i2] > 0);
                }
            }
        } else {
            let pos = find_index_pos(pool, self.hash);
            pool.counts[i] = 0;
            pool.texts[i] = String::new();
            pool.hashes[i] = 0;
            match pos {
                Some(k) => {
                    proof {
                        lemma_find_hash_from(old(pool)@, self@.hash, 0);
                    }
                    pool.idx_hashes.remove(k);
                    pool.idx_slots.remove(k);
                    proof {
                        let m0 = old(pool)@;
                        assert forall|x: int| 0 <= x < pool@.index.len() implies
                            #[trigger] pool@.index[x] == m0.index.remove(k as int)[x] by {
                            if x < k {
                                assert(pool.idx_hashes@[x] == old(pool).idx_hashes@[x]);
                            } else {
                                assert(pool.idx_hashes@[x] == old(pool).idx_hashes@[x + 1]);
                            }
                        }
                        assert(pool@.index =~= m0.index.remove(k as int));
                        assert(pool@.index =~= m0.index_without(self@.hash));
                    }
                },
                None => {
                    proof {
                        assert(pool@.index =~= old(pool)@.index_without(self@.hash));
                    }
                },
            }
            proof {
                let m0 = old(pool)@;
                assert(pool@.slots =~= m0.slots.update(i as int, SlotModel::freed()));
                assert(pool@ =~= m0.released(self@));
                assert forall|h2: u64, k: int|
                    pool.buckets@.contains_key(h2) && 0 <= k < pool.buckets@[h2]@.len() implies {
                    let j2 = (#[trigger] pool.buckets@[h2]@[k]) as int;
                    &&& j2 < pool.texts@.len()
                    &&& (pool.counts@[j2] > 0 ==> pool.hashes@[j2] == h2)
                } by {
                    let j2 = pool.buckets@[h2]@[k] as int;
                    assert(old(pool).buckets@[h2]@[k] as int == j2);
                    if pool.counts@[j2] > 0 {
                        assert(j2 != i as int);
                        assert(old(pool).counts@[j2] > 0);
                    }
                }
                assert forall|i2: int|
                    0 <= i2 < pool.texts@.len() && (#[trigger] pool.counts@[i2]) > 0 implies {
                    &&& pool.buckets@.contains_key(pool.hashes@[i2])
                    &&& exists|k: int|
                        0 <= k < pool.buckets@[pool.hashes@[i2]]@.len()
                            && (#[trigger] pool.buckets@[pool.hashes@[i2]]@[k]) as int == i2
                } by {
                    assert(i2 != i as int);
                    assert(old(pool).counts@[i2] > 0);
                    let k2 = choose|k2: int|
                        0 <= k2 < old(pool).buckets@[old(pool).hashes@[i2]]@.len()
                            && old(pool).buckets@[old(pool).hashes@[i2]]@[k2] as int == i2;
                    assert(pool.buckets@[pool.hashes@[i2]]@[k2] as int == i2);
                }
            }
        }
    }

    /// Interns the text encoded by `bytes`, or reports the bytes as invalid
    /// UTF-8 and leaves the pool untouched.
    pub fn from_utf8(pool: &mut AtomPool, bytes: &[u8]) -> (r: Result<Atom, AtomError>)
        requires
            old(pool).wf(),
            forall|i: int|
                old(pool)@.live_at(i) ==> (#[trigger] old(pool)@.slots[i]).count < u64::MAX,
        ensures
            final(pool).wf(),
            match r {
                Ok(a) => {
                    &&& utf8_text(bytes@) matches Some(t)
                    &&& final(pool)@ == old(pool)@.created(t)
                    &&& a@ == old(pool)@.created_atom(t)
                    &&& final(pool)@.valid_atom(a@)
                    &&& final(pool)@.atom_text(a@) == t
                },
                Err(e) => {
                    &&& utf8_text(bytes@) is None
                    &&& e == AtomError::InvalidUtf8
                    &&& final(pool)@ == old(pool)@
                },
            },
    {
        match decode_utf8(bytes) {
            Some(t) => {
                proof {
                    lemma_find_text(old(pool)@, t@);
                    match old(pool)@.find_text(t@) {
                        Some(i) => {
                            assert(old(pool)@.live_at(i));
                        },
                        None => {},
                    }
                }
                Ok(Atom::create(pool, t.to_owned()))
            },
            None => Err(AtomError::InvalidUtf8),
        }
    }
}

/// Handle equality (the derived `==` over slot and hash) coincides with
/// model equality, so [`crate::laws::lemma_atom_eq_content`] carries over to
/// executable handles: valid handles are `==` exactly when their texts are
/// equal.
pub proof fn lemma_atom_eq(x: Atom, y: Atom)
    ensures
        (x == y) <==> (x@ == y@),
{
}

/// What decoding a byte sequence as UTF-8 yields: the decoded text when the
/// bytes are valid, nothing otherwise.
pub uninterp spec fn utf8_text(bytes: Seq<u8>) -> Option<Seq<char>>;

/// Relies on `core::str::from_utf8`: it succeeds exactly on valid UTF-8
/// input, and what it returns is a pure function of the bytes alone.
#[verifier::external_body]
fn decode_utf8(bytes: &[u8]) -> (r: Option<&str>)
    ensures
        r is Some <==> utf8_text(bytes@) is Some,
        r matches Some(t) ==> Some(t@) == utf8_text(bytes@),
{
    core::str::from_utf8(bytes).ok()
}

/// Looks the weak index up by a precomputed hash.  When the record for
/// `hash` still resolves to a live entry, a fresh handle to that entry is
/// acquired (its counter rises by one); otherwise nothing is returned and
/// the pool is untouched.  A handle to a removed entry is never returned.
pub fn get_by_hash(pool: &mut AtomPool, hash: u64) -> (r: Option<Atom>)
    requires
        old(pool).wf(),
        old(pool)@.lookup(hash) matches Some(am) ==> old(pool)@.atom_count(am) < u64::MAX,
    ensures
        final(pool).wf(),
        final(pool)@ == old(pool)@.fetched(hash),
        match r {
            Some(a) => {
                &&& old(pool)@.lookup(hash) == Some(a@)
                &&& final(pool)@.valid_atom(a@)
                &&& final(pool)@.atom_text(a@) == old(pool)@.atom_text(a@)
            },
            None => old(pool)@.lookup(hash) is None,
        },
{
    let pos = find_index_pos(pool, hash);
    match pos {
        None => None,
        Some(k) => {
            proof {
                lemma_find_hash_from(old(pool)@, hash, 0);
            }
            let slot = pool.idx_slots[k];
            proof {
                assert(pool@.index[k as int].slot < pool@.slots.len());
                assert(pool@.index[k as int].slot == slot as nat);
            }
            if pool.counts[slot] > 0 && pool.hashes[slot] == hash {
                proof {
                    assert(old(pool)@.record_resolves(old(pool)@.index[k as int]));
                    assert(old(pool)@.lookup(hash) == Some(
                        AtomModel { slot: slot as nat, hash },
                    ));
                }
                bump_slot(pool, slot);
                Some(Atom { slot, hash })
            } else {
                proof {
                    assert(!old(pool)@.record_resolves(old(pool)@.index[k as int]));
                }
                None
            }
        },
    }
}

/// Registers a non-owning record from the handle's hash to its entry,
/// overwriting any prior record for that hash.  The record never keeps the
/// entry alive.
pub fn store_weak_by_hash(pool: &mut AtomPool, atom: &Atom)
    requires
        old(pool).wf(),
        old(pool)@.valid_atom(atom@),
    ensures
        final(pool).wf(),
        final(pool)@ == old(pool)@.stored(atom@),
        final(pool)@.lookup(atom@.hash) == Some(atom@),
{
    proof {
        lemma_wf_stored(old(pool)@, atom@);
    }
    let pos = find_index_pos(pool, atom.hash);
    match pos {
        Some(k) => {
            proof {
                lemma_find_hash_from(old(pool)@, atom@.hash, 0);
            }
            pool.idx_slots[k] = atom.slot;
            proof {
                assert(pool@.index =~= old(pool)@.index.update(
                    k as int,
                    IndexRecord { hash: atom@.hash, slot: atom@.slot },
                ));
                assert(pool@.slots =~= old(pool)@.slots);
                assert(pool@ =~= old(pool)@.stored(atom@));
                lemma_bucket_ok_transfer(*old(pool), *pool);
            }
        },
        None => {
            pool.idx_hashes.push(atom.hash);
            pool.idx_slots.push(atom.slot);
            proof {
                assert(pool@.index =~= old(pool)@.index.push(
                    IndexRecord { hash: atom@.hash, slot: atom@.slot },
                ));
                assert(pool@.slots =~= old(pool)@.slots);
                assert(pool@ =~= old(pool)@.stored(atom@));
                lemma_bucket_ok_transfer(*old(pool), *pool);
            }
        },
    }
}

/// The sweep: removes every weak index record that no longer resolves to a
/// live entry.  Not automatic — callers invoke it periodically.
pub fn collect(pool: &mut AtomPool)
    requires
        old(pool).wf(),
    ensures
        final(pool).wf(),
        final(pool)@ == old(pool)@.collected(),
{
    proof {
        lemma_wf_collected(old(pool)@);
    }
    let n = pool.idx_hashes.len();
    let mut nh: Vec<u64> = Vec::new();
    let mut ns: Vec<usize> = Vec::new();
    let mut k: usize = 0;
    while k < n
        invariant
            pool.wf(),
            pool == old(pool),
            n == pool.idx_hashes@.len(),
            k <= n,
            nh@.len() == ns@.len(),
            Seq::new(nh@.len(), |x: int| IndexRecord { hash: nh@[x], slot: ns@[x] as nat })
                == pool@.swept_index(k as int),
        decreases n - k,
    {
        let h = pool.idx_hashes[k];
        let s = pool.idx_slots[k];
        proof {
            assert(pool@.index[k as int].slot < pool@.slots.len());
            assert(pool@.index[k as int] == IndexRecord { hash: h, slot: s as nat });
        }
        if pool.counts[s] > 0 && pool.hashes[s] == h {
            proof {
                assert(pool@.record_resolves(pool@.index[k as int]));
            }
            nh.push(h);
            ns.push(s);
        } else {
            proof {
                assert(!pool@.record_resolves(pool@.index[k as int]));
            }
        }
        k = k + 1;
        proof {
            assert(Seq::new(
                nh@.len(),
                |x: int| IndexRecord { hash: nh@[x], slot: ns@[x] as nat },
            ) =~= pool@.swept_index(k as int));
        }
    }
    pool.idx_hashes = nh;
    pool.idx_slots = ns;
    proof {
        assert(pool@.index =~= old(pool)@.swept_index(n as int));
        assert(pool@.slots =~= old(pool)@.slots);
        assert(pool@ =~= old(pool)@.collected());
        lemma_bucket_ok_transfer(*old(pool), *pool);
    }
}

} // verus!
