//! The pool's laws, stated over the model and proved once and for all.
//!
//! Each law here quantifies over every pool state and input that its
//! hypotheses allow, so it covers arbitrary call histories; the executable
//! operations' contracts equate each call with the model transition the law
//! speaks about.

use vstd::prelude::*;
use crate::model::{AtomModel, PoolModel, SlotModel};
use crate::model::{lemma_find_hash_from, lemma_find_text, lemma_swept_index, lemma_wf_bumped,
    lemma_wf_collected, lemma_wf_created, lemma_wf_released};

verus! {

/// Idempotent content identity: interning the same text twice yields the
/// same handle both times — the second call finds the entry the first one
/// made — and both read back exactly that text.
pub proof fn lemma_create_idempotent(m: PoolModel, s: Seq<char>)
    requires
        m.wf(),
    ensures
        m.created(s).created_atom(s) == m.created_atom(s),
        m.created(s).atom_text(m.created_atom(s)) == s,
        m.created(s).created(s).atom_text(m.created_atom(s)) == s,
{
    lemma_wf_created(m, s);
    let m1 = m.created(s);
    let a = m.created_atom(s);
    lemma_wf_created(m1, s);
    lemma_find_text(m1, s);
    assert(m1.has_text_at(a.slot as int, s));
    match m1.find_text(s) {
        Some(i) => {
            assert(i == a.slot as int);
        },
        None => {
            assert(false);
        },
    }
    assert(m1.created(s).atom_text(a) == m1.atom_text(a));
}

/// Content-based handle equality: two valid handles are equal exactly when
/// their entries' texts are equal — deduplication makes content equality
/// coincide with entry identity.
pub proof fn lemma_atom_eq_content(m: PoolModel, a: AtomModel, b: AtomModel)
    requires
        m.wf(),
        m.valid_atom(a),
        m.valid_atom(b),
    ensures
        (a == b) <==> (m.atom_text(a) == m.atom_text(b)),
{
    if m.atom_text(a) == m.atom_text(b) {
        assert(m.live_at(a.slot as int) && m.live_at(b.slot as int));
        if a.slot != b.slot {
            assert(m.slots[a.slot as int].text != m.slots[b.slot as int].text);
        }
        assert(a.hash == m.slots[a.slot as int].hash);
        assert(b.hash == m.slots[b.slot as int].hash);
    }
}

/// The number of clone operations in a run of handle operations
/// (`true` = clone, `false` = release).
pub open spec fn num_true(ops: Seq<bool>) -> int
    decreases ops.len(),
{
    if ops.len() <= 0 {
        0int
    } else {
        (if ops[0] {
            1int
        } else {
            0int
        }) + num_true(ops.drop_first())
    }
}

/// Clones minus releases in a run of handle operations.
pub open spec fn balance(ops: Seq<bool>) -> int {
    2 * num_true(ops) - ops.len()
}

/// The pool after a run of clone (`true`) and release (`false`) operations
/// on one handle, applied left to right.
pub open spec fn clone_release_run(m: PoolModel, a: AtomModel, ops: Seq<bool>) -> PoolModel
    decreases ops.len(),
{
    if ops.len() == 0 {
        m
    } else {
        let m1 = if ops[0] {
            m.cloned(a)
        } else {
            m.released(a)
        };
        clone_release_run(m1, a, ops.drop_first())
    }
}

/// Reference accounting, general form: any run of clones and releases of one
/// valid handle that keeps at least one reference alive after every step
/// changes nothing but that entry's counter, which moves exactly by the
/// run's balance.
pub proof fn lemma_accounting_run(m: PoolModel, a: AtomModel, ops: Seq<bool>)
    requires
        m.wf(),
        m.valid_atom(a),
        forall|i: int|
            1 <= i <= ops.len() ==> m.atom_count(a) + balance(#[trigger] ops.take(i)) >= 1,
    ensures
        clone_release_run(m, a, ops).wf(),
        clone_release_run(m, a, ops).valid_atom(a),
        clone_release_run(m, a, ops).index == m.index,
        clone_release_run(m, a, ops).slots == m.slots.update(
            a.slot as int,
            SlotModel {
                count: (m.atom_count(a) + balance(ops)) as nat,
                ..m.slots[a.slot as int]
            },
        ),
    decreases ops.len(),
{
    let i0 = a.slot as int;
    if ops.len() > 0 {
        assert(m.atom_count(a) + balance(ops.take(ops.len() as int)) >= 1);
        assert(ops.take(ops.len() as int) =~= ops);
    }
    if ops.len() == 0 {
        assert(SlotModel {
            count: (m.atom_count(a) + balance(ops)) as nat,
            ..m.slots[i0]
        } == m.slots[i0]);
        assert(m.slots.update(i0, m.slots[i0]) =~= m.slots);
    } else {
        let op0 = ops[0];
        let tail = ops.drop_first();
        assert(ops.take(1).drop_first() =~= Seq::<bool>::empty());
        assert(num_true(Seq::<bool>::empty()) == 0);
        assert(ops.take(1)[0] == op0);
        assert(num_true(ops.take(1)) == if op0 { 1int } else { 0int });
        assert(m.atom_count(a) + balance(ops.take(1)) >= 1);
        let m1 = if op0 { m.cloned(a) } else { m.released(a) };
        let c1: int = m.atom_count(a) as int + (if op0 { 1int } else { -1int });
        if op0 {
            lemma_wf_bumped(m, i0);
        } else {
            assert(m.atom_count(a) >= 2);
            lemma_wf_released(m, a);
        }
        assert(m1.valid_atom(a));
        assert(m1.atom_count(a) == c1);
        assert(m1.slots == m.slots.update(
            i0,
            SlotModel { count: c1 as nat, ..m.slots[i0] },
        ));
        assert(m1.index == m.index);
        assert forall|i: int| 1 <= i <= tail.len() implies m1.atom_count(a) + balance(
            #[trigger] tail.take(i),
        ) >= 1 by {
            assert(ops.take(i + 1).drop_first() =~= tail.take(i));
            assert(ops.take(i + 1)[0] == op0);
            assert(num_true(ops.take(i + 1)) == (if op0 { 1int } else { 0int }) + num_true(
                tail.take(i),
            ));
            assert(m.atom_count(a) + balance(ops.take(i + 1)) >= 1);
        }
        lemma_accounting_run(m1, a, tail);
        assert(num_true(ops) == (if op0 { 1int } else { 0int }) + num_true(tail));
        assert(clone_release_run(m, a, ops) == clone_release_run(m1, a, tail));
        assert(m1.slots[i0] == SlotModel { count: c1 as nat, ..m.slots[i0] });
        assert(clone_release_run(m1, a, tail).slots =~= m.slots.update(
            i0,
            SlotModel {
                count: (m.atom_count(a) + balance(ops)) as nat,
                ..m.slots[i0]
            },
        ));
    }
}

/// Reference accounting: after `n` clones and `n` releases of one valid
/// handle, interleaved any way in which the releases never outnumber the
/// clones, the pool — counter included — is exactly what it was before.
pub proof fn lemma_reference_accounting(m: PoolModel, a: AtomModel, ops: Seq<bool>)
    requires
        m.wf(),
        m.valid_atom(a),
        balance(ops) == 0,
        forall|i: int| 0 <= i <= ops.len() ==> balance(#[trigger] ops.take(i)) >= 0,
    ensures
        clone_release_run(m, a, ops) == m,
{
    assert forall|i: int| 1 <= i <= ops.len() implies m.atom_count(a) + balance(
        #[trigger] ops.take(i),
    ) >= 1 by {
        assert(balance(ops.take(i)) >= 0);
    }
    lemma_accounting_run(m, a, ops);
    let mr = clone_release_run(m, a, ops);
    assert(SlotModel {
        count: (m.atom_count(a) + balance(ops)) as nat,
        ..m.slots[a.slot as int]
    } == m.slots[a.slot as int]);
    assert(mr.slots =~= m.slots);
    assert(mr =~= m);
}

/// Eager reclamation: releasing the last handle of an entry removes the weak
/// index record for that entry's hash, so an immediate lookup of the hash
/// finds nothing.
pub proof fn lemma_release_reclaims(m: PoolModel, a: AtomModel)
    requires
        m.wf(),
        m.valid_atom(a),
        m.atom_count(a) == 1,
    ensures
        m.released(a).lookup(a.hash) is None,
{
    let m1 = m.released(a);
    lemma_find_hash_from(m, a.hash, 0);
    lemma_find_hash_from(m1, a.hash, 0);
    match m.find_hash(a.hash) {
        Some(k) => {
            match m1.find_hash(a.hash) {
                Some(k2) => {
                    assert(m1.index[k2] == m.index[if k2 < k { k2 } else { k2 + 1 }]);
                    assert(false);
                },
                None => {},
            }
        },
        None => {
            assert(m1.index == m.index);
            match m1.find_hash(a.hash) {
                Some(k2) => {
                    assert(m.index[k2].hash != a.hash);
                    assert(false);
                },
                None => {},
            }
        },
    }
}

/// Reclamation by sweep: once no live entry carries hash `h` — in particular
/// once every handle of the text that hashed to `h` has been released and no
/// other live text collides with it — a sweep leaves nothing for `h` to
/// find.
pub proof fn lemma_reclamation(m: PoolModel, h: u64)
    requires
        m.wf(),
        forall|i: int| m.live_at(i) ==> (#[trigger] m.slots[i]).hash != h,
    ensures
        m.collected().lookup(h) is None,
{
    lemma_wf_collected(m);
    lemma_swept_index(m, m.index.len() as int);
    let mc = m.collected();
    lemma_find_hash_from(mc, h, 0);
    match mc.find_hash(h) {
        Some(k) => {
            assert(m.record_resolves(mc.index[k]));
            assert(m.live_at(mc.index[k].slot as int));
            assert(false);
        },
        None => {},
    }
}

/// Independence of distinct contents: interning `s` leaves the entry for any
/// other text `t` exactly as it was — present or absent, and with the same
/// counter.
pub proof fn lemma_create_frame(m: PoolModel, s: Seq<char>, t: Seq<char>)
    requires
        m.wf(),
        t != s,
    ensures
        m.created(s).has(t) == m.has(t),
        m.created(s).count_of(t) == m.count_of(t),
{
    lemma_wf_created(m, s);
    lemma_find_text(m, s);
    let m1 = m.created(s);
    lemma_find_text(m, t);
    lemma_find_text(m1, t);
    assert forall|j: int| m1.has_text_at(j, t) implies m.has_text_at(j, t) by {
        match m.find_text(s) {
            Some(i) => {
                assert(m1.slots == m.slots.update(
                    i,
                    SlotModel { count: m.slots[i].count + 1, ..m.slots[i] },
                ));
                assert(m1.slots[j].text == m.slots[j].text);
            },
            None => {
                if j == m.slots.len() {
                    assert(m1.slots[j].text == s);
                    assert(false);
                } else {
                    assert(m1.slots[j] == m.slots[j]);
                }
            },
        }
    }
    assert forall|j: int| m.has_text_at(j, t) implies m1.has_text_at(j, t) && m1.slots[j].count
        == m.slots[j].count by {
        match m.find_text(s) {
            Some(i) => {
                assert(m.has_text_at(i, s));
                assert(m.slots[j].text == t);
                assert(j != i);
                assert(m1.slots == m.slots.update(
                    i,
                    SlotModel { count: m.slots[i].count + 1, ..m.slots[i] },
                ));
                assert(m1.slots[j] == m.slots[j]);
            },
            None => {
                assert(m1.slots[j] == m.slots[j]);
            },
        }
    }
    match m1.find_text(t) {
        Some(j1) => {
            match m.find_text(t) {
                Some(j0) => {
                    assert(m1.has_text_at(j0, t));
                    assert(j0 == j1);
                },
                None => {
                    assert(false);
                },
            }
        },
        None => {
            match m.find_text(t) {
                Some(j0) => {
                    assert(m1.has_text_at(j0, t));
                    assert(false);
                },
                None => {},
            }
        },
    }
}

/// The full reclamation story of one entry, end to end: store a weak record
/// for the only handle of an entry, release that handle, sweep — and a
/// lookup of the entry's hash finds nothing.  The one hypothesis beyond
/// validity is that no other live entry collides on the hash.
pub proof fn lemma_store_release_collect_reclaims(m: PoolModel, a: AtomModel)
    requires
        m.wf(),
        m.valid_atom(a),
        m.atom_count(a) == 1,
        forall|i: int|
            m.live_at(i) && i != a.slot ==> (#[trigger] m.slots[i]).hash != a.hash,
    ensures
        m.stored(a).released(a).collected().lookup(a.hash) is None,
{
    crate::model::lemma_wf_stored(m, a);
    let m1 = m.stored(a);
    assert(m1.valid_atom(a));
    assert(m1.atom_count(a) == 1);
    lemma_wf_released(m1, a);
    let m2 = m1.released(a);
    assert forall|i: int| m2.live_at(i) implies (#[trigger] m2.slots[i]).hash != a.hash by {
        assert(i != a.slot as int);
        assert(m2.slots[i] == m.slots[i]);
        assert(m.live_at(i));
    }
    lemma_reclamation(m2, a.hash);
}

/// The pool after `n` successive interning calls for the same text.
pub open spec fn created_n(m: PoolModel, s: Seq<char>, n: nat) -> PoolModel
    decreases n,
{
    if n == 0 {
        m
    } else {
        created_n(m, s, (n - 1) as nat).created(s)
    }
}

/// Concurrent convergence: `n` interning calls for one text leave exactly
/// one live entry for it — uniqueness is part of well-formedness — with its
/// counter raised by exactly `n`.
pub proof fn lemma_concurrent_convergence(m: PoolModel, s: Seq<char>, n: nat)
    requires
        m.wf(),
    ensures
        created_n(m, s, n).wf(),
        created_n(m, s, n).count_of(s) == m.count_of(s) + n,
        n > 0 ==> created_n(m, s, n).has(s),
    decreases n,
{
    if n > 0 {
        lemma_concurrent_convergence(m, s, (n - 1) as nat);
        lemma_wf_created(created_n(m, s, (n - 1) as nat), s);
    }
}

} // verus!
