use pi_atom::{collect, get_by_hash, store_weak_by_hash, str_hash, Atom, AtomError, AtomPool};

#[test]
fn create_reads_back() {
    let mut pool = AtomPool::new();
    let a = Atom::new(&mut pool, "afg");
    assert_eq!(a.as_str(&pool), "afg");
    assert_eq!(a.to_owned_string(&pool), "afg");
}

#[test]
fn empty_text_is_interned_like_any_other() {
    let mut pool = AtomPool::new();
    let a = Atom::new(&mut pool, "");
    let b = Atom::new(&mut pool, "");
    assert_eq!(a, b);
    assert_eq!(a.as_str(&pool), "");
    assert_eq!(pool.live_count(), 1);
}

#[test]
fn equal_content_equal_handles() {
    let mut pool = AtomPool::new();
    let a = Atom::new(&mut pool, "x");
    let b = Atom::new(&mut pool, "x");
    assert!(a == b);
    assert_eq!(a.str_hash(), b.str_hash());
    assert_eq!(a.ref_count(&pool), 2);
    let c = Atom::new(&mut pool, "y");
    assert!(a != c);
    assert_eq!(pool.live_count(), 2);
}

#[test]
fn hash_matches_free_function() {
    let mut pool = AtomPool::new();
    let a = Atom::new(&mut pool, "afg");
    assert_eq!(a.str_hash(), str_hash("afg"));
    assert_eq!(str_hash("afg"), str_hash("afg"));
    let b = Atom::create(&mut pool, String::from("afg"));
    assert_eq!(a.str_hash(), b.str_hash());
}

#[test]
fn reference_accounting_roundtrip() {
    let mut pool = AtomPool::new();
    let a = Atom::new(&mut pool, "k");
    assert_eq!(a.ref_count(&pool), 1);
    let c1 = a.clone_handle(&mut pool);
    let c2 = a.clone_handle(&mut pool);
    let c3 = a.clone_handle(&mut pool);
    assert_eq!(a.ref_count(&pool), 4);
    c2.release(&mut pool);
    let c4 = a.clone_handle(&mut pool);
    c1.release(&mut pool);
    c4.release(&mut pool);
    c3.release(&mut pool);
    assert_eq!(a.ref_count(&pool), 1);
    let again = Atom::new(&mut pool, "k");
    assert!(a == again);
    assert_eq!(a.ref_count(&pool), 2);
}

#[test]
fn concurrent_convergence_counts() {
    let mut pool = AtomPool::new();
    let mut handles = Vec::new();
    for _ in 0..8 {
        handles.push(Atom::new(&mut pool, "k"));
    }
    assert_eq!(pool.live_count(), 1);
    assert_eq!(handles[0].ref_count(&pool), 8);
    for h in handles.iter().skip(1) {
        assert!(*h == handles[0]);
    }
}

#[test]
fn weak_lookup_roundtrip() {
    let mut pool = AtomPool::new();
    let h = Atom::new(&mut pool, "y");
    store_weak_by_hash(&mut pool, &h);
    let hh = h.str_hash();
    let got = get_by_hash(&mut pool, hh).unwrap();
    assert_eq!(got.as_str(&pool), "y");
    assert_eq!(h.ref_count(&pool), 2);
    got.release(&mut pool);
    h.release(&mut pool);
    collect(&mut pool);
    assert!(get_by_hash(&mut pool, hh).is_none());
}

#[test]
fn release_last_handle_drops_entry() {
    let mut pool = AtomPool::new();
    let a = Atom::new(&mut pool, "gone");
    let hh = a.str_hash();
    store_weak_by_hash(&mut pool, &a);
    a.release(&mut pool);
    assert_eq!(pool.live_count(), 0);
    assert!(get_by_hash(&mut pool, hh).is_none());
    let again = Atom::new(&mut pool, "gone");
    assert_eq!(again.ref_count(&pool), 1);
    assert_eq!(again.as_str(&pool), "gone");
}

#[test]
fn collect_sweeps_dangling_records() {
    let mut pool = AtomPool::new();
    let keep = Atom::new(&mut pool, "keep");
    let drop_me = Atom::new(&mut pool, "drop");
    store_weak_by_hash(&mut pool, &keep);
    store_weak_by_hash(&mut pool, &drop_me);
    let keep_hash = keep.str_hash();
    let drop_hash = drop_me.str_hash();
    drop_me.release(&mut pool);
    collect(&mut pool);
    assert!(get_by_hash(&mut pool, drop_hash).is_none());
    let found = get_by_hash(&mut pool, keep_hash).unwrap();
    assert_eq!(found.as_str(&pool), "keep");
}

#[test]
fn store_overwrites_prior_record() {
    let mut pool = AtomPool::new();
    let a = Atom::new(&mut pool, "twice");
    store_weak_by_hash(&mut pool, &a);
    store_weak_by_hash(&mut pool, &a);
    let found = get_by_hash(&mut pool, a.str_hash()).unwrap();
    assert_eq!(found.as_str(&pool), "twice");
    assert_eq!(a.ref_count(&pool), 2);
}

#[test]
fn invalid_utf8_reports_error() {
    let mut pool = AtomPool::new();
    let bad: [u8; 2] = [0xff, 0xfe];
    assert_eq!(Atom::from_utf8(&mut pool, &bad), Err(AtomError::InvalidUtf8));
    assert_eq!(pool.live_count(), 0);
    let good = Atom::from_utf8(&mut pool, "ok".as_bytes()).unwrap();
    assert_eq!(good.as_str(&pool), "ok");
}

#[test]
fn two_passes_reuse_entries() {
    let mut pool = AtomPool::new();
    let mut first = Vec::new();
    for i in 0..100000 {
        first.push(Atom::create(&mut pool, i.to_string()));
    }
    let grown = pool.live_count();
    assert_eq!(grown, 100000);
    let mut second = Vec::new();
    for i in 0..100000 {
        second.push(Atom::create(&mut pool, i.to_string()));
    }
    assert_eq!(pool.live_count(), grown);
    for i in 0..100000 {
        assert!(first[i] == second[i]);
        assert_eq!(first[i].ref_count(&pool), 2);
    }
}

#[test]
fn churn_create_release_stays_consistent() {
    let mut pool = AtomPool::new();
    let mut held: Vec<Atom> = Vec::new();
    let mut r: u64 = 0x9e3779b97f4a7c15;
    for _ in 0..100000 {
        r = r.wrapping_mul(6364136223846793005).wrapping_add(1442695040888963407);
        let x = (r >> 33) as usize;
        if x % 4 == 0 {
            held.push(Atom::create(&mut pool, (x % 64).to_string()));
        } else if x % 4 == 1 && !held.is_empty() {
            let c = held[x % held.len()].clone_handle(&mut pool);
            held.push(c);
        } else if !held.is_empty() {
            let a = held.swap_remove(x % held.len());
            a.release(&mut pool);
        }
    }
    let mut outstanding = std::collections::HashMap::new();
    for a in held.iter() {
        assert!(a.is_live(&pool));
        *outstanding.entry(a.to_owned_string(&pool)).or_insert(0u64) += 1;
    }
    for a in held.iter() {
        assert_eq!(a.ref_count(&pool), outstanding[&a.to_owned_string(&pool)]);
    }
    assert_eq!(pool.live_count(), outstanding.len());
    for a in held.drain(..) {
        a.release(&mut pool);
    }
    assert_eq!(pool.live_count(), 0);
}

#[test]
fn liveness_guard_rejects_foreign_handle() {
    let mut pool1 = AtomPool::new();
    let mut pool2 = AtomPool::new();
    let a = Atom::new(&mut pool1, "here");
    assert!(a.is_live(&pool1));
    assert!(!a.is_live(&pool2));
    let b = Atom::new(&mut pool2, "other");
    assert!(!a.is_live(&pool2));
    assert!(b.is_live(&pool2));
}
