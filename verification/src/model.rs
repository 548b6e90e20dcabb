//! The mathematical model of the interning pool.
//!
//! A pool is a sequence of slots (each either free or holding a live entry:
//! text, its hash, and a live-reference counter) together with a sequence of
//! weak index records mapping a hash to a slot.  Every executable operation's
//! contract states that the new pool equals a transition function applied to
//! the old pool's model, so the whole observable behaviour of the pool is
//! pinned down here.

use vstd::prelude::*;
use crate::hashing::hash_of;

verus! {

/// One slot of the pool: a live entry (`count > 0`) or a freed slot.
/// A freed slot is kept in the canonical shape [`SlotModel::freed`].
#[verifier::ext_equal]
pub ghost struct SlotModel {
    pub text: Seq<char>,
    pub hash: u64,
    pub count: nat,
}

impl SlotModel {
    /// The canonical shape of a slot whose entry has been removed.
    pub open spec fn freed() -> SlotModel {
        SlotModel { text: Seq::empty(), hash: 0, count: 0 }
    }

    pub open spec fn is_live(self) -> bool {
        self.count > 0
    }
}

/// One record of the weak hash index: a non-owning pointer from a hash value
/// to the slot that held the entry when the record was stored.
#[verifier::ext_equal]
pub ghost struct IndexRecord {
    pub hash: u64,
    pub slot: nat,
}

/// What a handle is: the slot of the entry it references, and that entry's
/// precomputed hash.
#[verifier::ext_equal]
pub ghost struct AtomModel {
    pub slot: nat,
    pub hash: u64,
}

/// The whole pool: the slot table and the weak hash index.
#[verifier::ext_equal]
pub ghost struct PoolModel {
    pub slots: Seq<SlotModel>,
    pub index: Seq<IndexRecord>,
}

impl PoolModel {
    pub open spec fn empty() -> PoolModel {
        PoolModel { slots: Seq::empty(), index: Seq::empty() }
    }

    pub open spec fn live_at(self, i: int) -> bool {
        0 <= i < self.slots.len() && self.slots[i].is_live()
    }

    /// Slot `i` holds a live entry whose text is `s`.
    pub open spec fn has_text_at(self, i: int, s: Seq<char>) -> bool {
        self.live_at(i) && self.slots[i].text == s
    }

    /// The first slot at or after `k` holding a live entry with text `s`.
    pub open spec fn find_text_from(self, s: Seq<char>, k: int) -> Option<int>
        decreases self.slots.len() - k,
    {
        if k < 0 || k >= self.slots.len() {
            None
        } else if self.has_text_at(k, s) {
            Some(k)
        } else {
            self.find_text_from(s, k + 1)
        }
    }

    /// The slot holding the live entry for `s`, if any.  Under [`Self::wf`]
    /// at most one slot qualifies.
    pub open spec fn find_text(self, s: Seq<char>) -> Option<int> {
        self.find_text_from(s, 0)
    }

    /// Whether a live entry for text `s` exists.
    pub open spec fn has(self, s: Seq<char>) -> bool {
        self.find_text(s) is Some
    }

    /// The live-reference counter of the entry for `s`, or 0 if there is none.
    pub open spec fn count_of(self, s: Seq<char>) -> nat {
        match self.find_text(s) {
            Some(i) => self.slots[i].count,
            None => 0,
        }
    }

    /// The first index record at or after `k` whose hash is `h`.
    pub open spec fn find_hash_from(self, h: u64, k: int) -> Option<int>
        decreases self.index.len() - k,
    {
        if k < 0 || k >= self.index.len() {
            None
        } else if self.index[k].hash == h {
            Some(k)
        } else {
            self.find_hash_from(h, k + 1)
        }
    }

    /// The position of the index record for hash `h`, if any.  Under
    /// [`Self::wf`] hashes in the index are unique, so at most one exists.
    pub open spec fn find_hash(self, h: u64) -> Option<int> {
        self.find_hash_from(h, 0)
    }

    /// A weak record resolves when its slot still holds a live entry with the
    /// record's hash.  A record never keeps an entry alive.
    pub open spec fn record_resolves(self, r: IndexRecord) -> bool {
        r.slot < self.slots.len() && self.slots[r.slot as int].is_live()
            && self.slots[r.slot as int].hash == r.hash
    }

    /// A handle is valid when its slot holds a live entry with the handle's
    /// hash.
    pub open spec fn valid_atom(self, a: AtomModel) -> bool {
        a.slot < self.slots.len() && self.slots[a.slot as int].is_live()
            && self.slots[a.slot as int].hash == a.hash
    }

    pub open spec fn atom_text(self, a: AtomModel) -> Seq<char> {
        self.slots[a.slot as int].text
    }

    pub open spec fn atom_count(self, a: AtomModel) -> nat {
        self.slots[a.slot as int].count
    }

    /// Well-formedness:
    /// - every live entry's cached hash is the hash of its text;
    /// - at most one live entry exists per distinct text;
    /// - freed slots are in canonical shape;
    /// - index records point into the slot table and have pairwise distinct
    ///   hashes.
    pub open spec fn wf(self) -> bool {
        &&& forall|i: int| #[trigger] self.live_at(i) ==> self.slots[i].hash == hash_of(
            self.slots[i].text,
        )
        &&& forall|i: int, j: int|
            #[trigger] self.live_at(i) && #[trigger] self.live_at(j) && i != j
                ==> self.slots[i].text != self.slots[j].text
        &&& forall|i: int|
            0 <= i < self.slots.len() && !(#[trigger] self.slots[i]).is_live()
                ==> self.slots[i] == SlotModel::freed()
        &&& forall|k: int|
            0 <= k < self.index.len() ==> (#[trigger] self.index[k]).slot < self.slots.len()
        &&& forall|k1: int, k2: int|
            0 <= k1 < self.index.len() && 0 <= k2 < self.index.len() && k1 != k2
                ==> (#[trigger] self.index[k1]).hash != (#[trigger] self.index[k2]).hash
    }

    /// The pool after the live-reference counter of slot `i` is incremented.
    pub open spec fn bumped(self, i: int) -> PoolModel {
        PoolModel {
            slots: self.slots.update(
                i,
                SlotModel { count: self.slots[i].count + 1, ..self.slots[i] },
            ),
            index: self.index,
        }
    }

    /// The pool after interning text `s`: either the existing entry's counter
    /// is incremented, or a fresh entry with counter 1 is appended.
    pub open spec fn created(self, s: Seq<char>) -> PoolModel {
        match self.find_text(s) {
            Some(i) => self.bumped(i),
            None => PoolModel {
                slots: self.slots.push(SlotModel { text: s, hash: hash_of(s), count: 1 }),
                index: self.index,
            },
        }
    }

    /// The handle that interning text `s` returns.
    pub open spec fn created_atom(self, s: Seq<char>) -> AtomModel {
        let i = match self.find_text(s) {
            Some(i) => i,
            None => self.slots.len() as int,
        };
        AtomModel { slot: i as nat, hash: hash_of(s) }
    }

    /// The pool after a handle is cloned: its entry's counter is incremented.
    pub open spec fn cloned(self, a: AtomModel) -> PoolModel {
        self.bumped(a.slot as int)
    }

    /// The index with the record for hash `h` removed, if one exists.
    pub open spec fn index_without(self, h: u64) -> Seq<IndexRecord> {
        match self.find_hash(h) {
            Some(k) => self.index.remove(k),
            None => self.index,
        }
    }

    /// The pool after a handle is released.  If other handles remain the
    /// counter is merely decremented; if the released handle was the last one
    /// the entry is removed (its slot is freed) and the index record for its
    /// hash, if any, is eagerly dropped.
    pub open spec fn released(self, a: AtomModel) -> PoolModel {
        let i = a.slot as int;
        if self.slots[i].count > 1 {
            PoolModel {
                slots: self.slots.update(
                    i,
                    SlotModel { count: (self.slots[i].count - 1) as nat, ..self.slots[i] },
                ),
                index: self.index,
            }
        } else {
            PoolModel {
                slots: self.slots.update(i, SlotModel::freed()),
                index: self.index_without(a.hash),
            }
        }
    }

    /// The pool after a weak record for handle `a` is stored: the record for
    /// `a`'s hash is overwritten if present, appended otherwise.
    pub open spec fn stored(self, a: AtomModel) -> PoolModel {
        let r = IndexRecord { hash: a.hash, slot: a.slot };
        PoolModel {
            slots: self.slots,
            index: match self.find_hash(a.hash) {
                Some(k) => self.index.update(k, r),
                None => self.index.push(r),
            },
        }
    }

    /// The handle that a weak lookup of hash `h` yields: the record's entry
    /// if the record still resolves, nothing otherwise.
    pub open spec fn lookup(self, h: u64) -> Option<AtomModel> {
        match self.find_hash(h) {
            Some(k) => if self.record_resolves(self.index[k]) {
                Some(AtomModel { slot: self.index[k].slot, hash: h })
            } else {
                None
            },
            None => None,
        }
    }

    /// The pool after a weak lookup of hash `h`: on success the found entry's
    /// counter is incremented, otherwise nothing changes.
    pub open spec fn fetched(self, h: u64) -> PoolModel {
        match self.lookup(h) {
            Some(a) => self.cloned(a),
            None => self,
        }
    }

    /// The first `k` index records, keeping only those that still resolve.
    pub open spec fn swept_index(self, k: int) -> Seq<IndexRecord>
        decreases k,
    {
        if k <= 0 {
            Seq::empty()
        } else {
            let rest = self.swept_index(k - 1);
            if self.record_resolves(self.index[k - 1]) {
                rest.push(self.index[k - 1])
            } else {
                rest
            }
        }
    }

    /// The pool after a sweep: every dangling index record is removed.
    pub open spec fn collected(self) -> PoolModel {
        PoolModel { slots: self.slots, index: self.swept_index(self.index.len() as int) }
    }

    /// The number of live entries among the first `k` slots.
    pub open spec fn num_live(self, k: int) -> nat
        decreases k,
    {
        if k <= 0 {
            0
        } else {
            self.num_live(k - 1) + if self.slots[k - 1].is_live() {
                1nat
            } else {
                0nat
            }
        }
    }

    /// The number of live entries in the pool.
    pub open spec fn live_slot_count(self) -> nat {
        self.num_live(self.slots.len() as int)
    }
}

/// Where `find_text_from` points: at the first live slot at or after `k`
/// holding `s`, or nowhere exactly when no such slot exists.
pub proof fn lemma_find_text_from(m: PoolModel, s: Seq<char>, k: int)
    requires
        0 <= k <= m.slots.len(),
    ensures
        match m.find_text_from(s, k) {
            Some(i) => k <= i < m.slots.len() && m.has_text_at(i, s),
            None => forall|j: int| k <= j < m.slots.len() ==> !m.has_text_at(j, s),
        },
    decreases m.slots.len() - k,
{
    if k < m.slots.len() && !m.has_text_at(k, s) {
        lemma_find_text_from(m, s, k + 1);
    }
}

/// The two-way reading of `find_text` under well-formedness: it points at the
/// unique live slot holding `s` when one exists, and nowhere otherwise.
pub proof fn lemma_find_text(m: PoolModel, s: Seq<char>)
    requires
        m.wf(),
    ensures
        match m.find_text(s) {
            Some(i) => m.has_text_at(i, s) && forall|j: int|
                m.has_text_at(j, s) ==> j == i,
            None => forall|j: int| !m.has_text_at(j, s),
        },
{
    lemma_find_text_from(m, s, 0);
    match m.find_text(s) {
        Some(i) => {
            assert forall|j: int| m.has_text_at(j, s) implies j == i by {
                assert(m.live_at(i) && m.live_at(j));
            }
        },
        None => {
            assert forall|j: int| !m.has_text_at(j, s) by {
                if 0 <= j < m.slots.len() {
                } else {
                }
            }
        },
    }
}

/// Where `find_hash_from` points: at the first index record at or after `k`
/// carrying hash `h`, or nowhere exactly when no such record exists.
pub proof fn lemma_find_hash_from(m: PoolModel, h: u64, k: int)
    requires
        0 <= k <= m.index.len(),
    ensures
        match m.find_hash_from(h, k) {
            Some(i) => k <= i < m.index.len() && m.index[i].hash == h,
            None => forall|j: int| k <= j < m.index.len() ==> (#[trigger] m.index[j]).hash != h,
        },
    decreases m.index.len() - k,
{
    if k < m.index.len() && m.index[k].hash != h {
        lemma_find_hash_from(m, h, k + 1);
    }
}

/// Incrementing a live entry's counter preserves well-formedness.
pub proof fn lemma_wf_bumped(m: PoolModel, i: int)
    requires
        m.wf(),
        m.live_at(i),
    ensures
        m.bumped(i).wf(),
{
    let m1 = m.bumped(i);
    assert forall|j: int| #[trigger] m1.live_at(j) implies m.live_at(j) && m1.slots[j].text
        == m.slots[j].text && m1.slots[j].hash == m.slots[j].hash by {}
    assert forall|j: int| #[trigger] m.live_at(j) implies m1.live_at(j) by {}
}

/// Interning preserves well-formedness, and what it does to the entry for the
/// interned text: its counter rises by one (from zero if it was absent), the
/// returned handle is valid and reads back the interned text, and the weak
/// index is untouched.
pub proof fn lemma_wf_created(m: PoolModel, s: Seq<char>)
    requires
        m.wf(),
    ensures
        m.created(s).wf(),
        m.created(s).valid_atom(m.created_atom(s)),
        m.created(s).atom_text(m.created_atom(s)) == s,
        m.created(s).atom_count(m.created_atom(s)) == m.count_of(s) + 1,
        m.created(s).count_of(s) == m.count_of(s) + 1,
        m.created(s).has(s),
        m.created_atom(s).hash == hash_of(s),
        m.created(s).index == m.index,
{
    lemma_find_text(m, s);
    let m1 = m.created(s);
    let a = m.created_atom(s);
    match m.find_text(s) {
        Some(i) => {
            lemma_wf_bumped(m, i);
            lemma_find_text(m1, s);
            assert(m1.has_text_at(i, s));
            assert(m1.find_text(s) == Some(i));
        },
        None => {
            let i = m.slots.len() as int;
            assert forall|j: int| #[trigger] m1.live_at(j) && j != i implies m.live_at(j)
                && m1.slots[j] == m.slots[j] by {}
            assert(m1.slots[i].text == s);
            assert forall|j1: int, j2: int|
                #[trigger] m1.live_at(j1) && #[trigger] m1.live_at(j2) && j1 != j2 implies
                m1.slots[j1].text != m1.slots[j2].text by {
                if j1 != i && j2 != i {
                    assert(m.live_at(j1) && m.live_at(j2));
                } else if j1 == i {
                    assert(!m.has_text_at(j2, s));
                } else {
                    assert(!m.has_text_at(j1, s));
                }
            }
            assert(m1.wf());
            lemma_find_text(m1, s);
            assert(m1.has_text_at(i, s));
            assert(m1.find_text(s) == Some(i));
        },
    }
}

/// Releasing a valid handle preserves well-formedness.  When other handles
/// remain, only the counter drops; when the released handle was the last,
/// the entry disappears and the index record for its hash, if any, goes too.
pub proof fn lemma_wf_released(m: PoolModel, a: AtomModel)
    requires
        m.wf(),
        m.valid_atom(a),
    ensures
        m.released(a).wf(),
        m.released(a).atom_count(a) == m.atom_count(a) - 1,
        m.atom_count(a) > 1 ==> m.released(a).valid_atom(a),
        m.atom_count(a) == 1 ==> !m.released(a).has(m.atom_text(a)),
{
    let i = a.slot as int;
    let m1 = m.released(a);
    if m.slots[i].count > 1 {
        assert forall|j: int| #[trigger] m1.live_at(j) implies m.live_at(j) && m1.slots[j].text
            == m.slots[j].text && m1.slots[j].hash == m.slots[j].hash by {}
        assert(m1.wf());
    } else {
        assert forall|j: int| #[trigger] m1.live_at(j) implies m.live_at(j) && m1.slots[j]
            == m.slots[j] by {}
        match m.find_hash(a.hash) {
            Some(k) => {
                lemma_find_hash_from(m, a.hash, 0);
                assert forall|k2: int| 0 <= k2 < m1.index.len() implies (#[trigger] m1.index[k2])
                    == m.index[if k2 < k { k2 } else { k2 + 1 }] by {}
                assert(m1.wf());
            },
            None => {
                assert(m1.wf());
            },
        }
        lemma_find_text(m1, m.atom_text(a));
        assert forall|j: int| !m1.has_text_at(j, m.atom_text(a)) by {
            if m1.live_at(j) && j != i {
                assert(m.live_at(j) && m.live_at(i));
            }
        }
    }
}

/// Storing a weak record for a valid handle preserves well-formedness, and
/// afterwards looking its hash up yields exactly that handle.
pub proof fn lemma_wf_stored(m: PoolModel, a: AtomModel)
    requires
        m.wf(),
        m.valid_atom(a),
    ensures
        m.stored(a).wf(),
        m.stored(a).slots == m.slots,
        m.stored(a).lookup(a.hash) == Some(a),
{
    let m1 = m.stored(a);
    let r = IndexRecord { hash: a.hash, slot: a.slot };
    assert forall|i: int| 0 <= i < m1.slots.len() implies #[trigger] m1.slots[i]
        == m.slots[i] by {}
    assert forall|i: int| #[trigger] m1.live_at(i) implies m.live_at(i) by {}
    lemma_find_hash_from(m, a.hash, 0);
    match m.find_hash(a.hash) {
        Some(k) => {
            assert(m.index[k].hash == a.hash);
            assert forall|k2: int| 0 <= k2 < m1.index.len() implies (#[trigger] m1.index[k2]).hash
                == m.index[k2].hash && m1.index[k2].slot < m1.slots.len() by {
                if k2 != k {
                    assert(m.index[k2].slot < m.slots.len());
                }
            }
            assert forall|k1: int, k2: int|
                0 <= k1 < m1.index.len() && 0 <= k2 < m1.index.len() && k1 != k2 implies
                (#[trigger] m1.index[k1]).hash != (#[trigger] m1.index[k2]).hash by {
                assert(m.index[k1].hash != m.index[k2].hash);
            }
            assert(m1.wf());
            lemma_find_hash_from(m1, a.hash, 0);
            match m1.find_hash(a.hash) {
                Some(k2) => {
                    if k2 != k {
                        assert(m.index[k2].hash == a.hash);
                        assert(m.index[k].hash == a.hash);
                    }
                    assert(k2 == k);
                },
                None => {
                    assert(m1.index[k].hash == a.hash);
                },
            }
            assert(m1.find_hash(a.hash) == Some(k));
            assert(m1.record_resolves(r));
        },
        None => {
            let k = m.index.len() as int;
            assert forall|k2: int| 0 <= k2 < m1.index.len() implies (#[trigger] m1.index[k2]).slot
                < m1.slots.len() by {
                if k2 != k {
                    assert(m.index[k2].slot < m.slots.len());
                }
            }
            assert forall|k1: int, k2: int|
                0 <= k1 < m1.index.len() && 0 <= k2 < m1.index.len() && k1 != k2 implies
                (#[trigger] m1.index[k1]).hash != (#[trigger] m1.index[k2]).hash by {
                if k1 != k && k2 != k {
                    assert(m.index[k1].hash != m.index[k2].hash);
                } else if k1 == k {
                    assert(m.index[k2].hash != a.hash);
                } else {
                    assert(m.index[k1].hash != a.hash);
                }
            }
            assert(m1.wf());
            lemma_find_hash_from(m1, a.hash, 0);
            match m1.find_hash(a.hash) {
                Some(k2) => {
                    if k2 != k {
                        assert(m.index[k2].hash == a.hash);
                    }
                    assert(k2 == k);
                },
                None => {
                    assert(m1.index[k].hash == a.hash);
                },
            }
            assert(m1.find_hash(a.hash) == Some(k));
            assert(m1.record_resolves(r));
        },
    }
}

/// Every record that the sweep keeps comes from the old index and still
/// resolves, and the kept records' hashes stay pairwise distinct.
pub proof fn lemma_swept_index(m: PoolModel, k: int)
    requires
        m.wf(),
        0 <= k <= m.index.len(),
    ensures
        forall|x: int|
            0 <= x < m.swept_index(k).len() ==> exists|k2: int|
                0 <= k2 < k && #[trigger] m.swept_index(k)[x] == m.index[k2],
        forall|x: int|
            0 <= x < m.swept_index(k).len() ==> m.record_resolves(#[trigger] m.swept_index(k)[x]),
        forall|x1: int, x2: int|
            0 <= x1 < m.swept_index(k).len() && 0 <= x2 < m.swept_index(k).len() && x1 != x2
                ==> (#[trigger] m.swept_index(k)[x1]).hash != (#[trigger] m.swept_index(k)[x2]).hash,
    decreases k,
{
    if k > 0 {
        lemma_swept_index(m, k - 1);
        let prev = m.swept_index(k - 1);
        let cur = m.swept_index(k);
        if m.record_resolves(m.index[k - 1]) {
            assert forall|x: int| 0 <= x < cur.len() implies exists|k2: int|
                0 <= k2 < k && #[trigger] cur[x] == m.index[k2] by {
                if x < prev.len() {
                    assert(cur[x] == prev[x]);
                    let k2 = choose|k2: int| 0 <= k2 < k - 1 && prev[x] == m.index[k2];
                    assert(0 <= k2 < k && cur[x] == m.index[k2]);
                } else {
                    assert(cur[x] == m.index[k - 1]);
                }
            }
            assert forall|x1: int, x2: int|
                0 <= x1 < cur.len() && 0 <= x2 < cur.len() && x1 != x2 implies
                (#[trigger] cur[x1]).hash != (#[trigger] cur[x2]).hash by {
                if x1 < prev.len() && x2 < prev.len() {
                    assert(cur[x1] == prev[x1] && cur[x2] == prev[x2]);
                } else {
                    let (xo, xn) = if x1 < prev.len() { (x1, x2) } else { (x2, x1) };
                    assert(cur[xn] == m.index[k - 1]);
                    assert(cur[xo] == prev[xo]);
                    let k2 = choose|k2: int| 0 <= k2 < k - 1 && prev[xo] == m.index[k2];
                    assert(m.index[k2].hash != m.index[k - 1].hash);
                }
            }
        }
    }
}

/// The sweep preserves well-formedness and leaves the slot table untouched.
pub proof fn lemma_wf_collected(m: PoolModel)
    requires
        m.wf(),
    ensures
        m.collected().wf(),
        m.collected().slots == m.slots,
{
    lemma_swept_index(m, m.index.len() as int);
    let m1 = m.collected();
    assert forall|k: int| 0 <= k < m1.index.len() implies (#[trigger] m1.index[k]).slot
        < m1.slots.len() by {
        assert(m.record_resolves(m1.index[k]));
    }
    assert forall|i: int| #[trigger] m1.live_at(i) implies m1.slots[i].hash == hash_of(
        m1.slots[i].text,
    ) by {
        assert(m.live_at(i));
    }
    assert forall|i: int, j: int|
        #[trigger] m1.live_at(i) && #[trigger] m1.live_at(j) && i != j implies m1.slots[i].text
        != m1.slots[j].text by {
        assert(m.live_at(i) && m.live_at(j));
    }
    assert forall|k1: int, k2: int|
        0 <= k1 < m1.index.len() && 0 <= k2 < m1.index.len() && k1 != k2 implies
        (#[trigger] m1.index[k1]).hash != (#[trigger] m1.index[k2]).hash by {
        assert(m.swept_index(m.index.len() as int)[k1].hash != m.swept_index(
            m.index.len() as int,
        )[k2].hash);
    }
}

} // verus!
