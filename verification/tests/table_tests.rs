use prefix_cache::marked::{MarkedElt, MarkedRef};
use prefix_cache::table::DenseHashTable;

/// Deterministic pseudo-random 64-bit values for bulk tests.
fn xorshift(state: &mut u64) -> u64 {
    let mut x = *state;
    x ^= x << 13;
    x ^= x >> 7;
    x ^= x << 17;
    *state = x;
    x
}

fn random_vec(len: usize) -> Vec<u64> {
    let mut st: u64 = 0x9E3779B97F4A7C15;
    (0..len).map(|_| xorshift(&mut st)).collect()
}

fn live(key: u64, tag: u64) -> MarkedElt {
    MarkedElt { prefix: key, ptr: MarkedRef::Internal(tag) }
}

#[test]
fn dense_hash_set_smoke_test() {
    let mut s = DenseHashTable::new();
    let mut v1 = random_vec(1 << 18);
    for (ix, item) in v1.iter().enumerate() {
        let _ = s.insert(live(*item, ix as u64));
        assert!(
            s.lookup(*item).is_some(),
            "lookup failed immediately for {:?}",
            *item
        );
    }
    let mut missing = Vec::new();
    for item in v1.iter() {
        if s.lookup(*item).is_none() {
            missing.push(*item)
        }
    }
    assert_eq!(missing.len(), 0, "missing={:?}", missing);
    v1.sort();
    v1.dedup_by_key(|x| *x);
    let mut v2 = Vec::new();
    for _ in 0..(1 << 17) {
        if let Some(x) = v1.pop() {
            v2.push(x)
        } else {
            break;
        }
    }
    let mut failures = 0;
    for i in v2.iter() {
        let mut fail = 0;
        if s.lookup(*i).is_none() {
            println!("{:?} no longer in the set!", *i);
            fail = 1;
        }
        let res = s.delete(*i);
        if res.is_none() {
            fail = 1;
        }
        if s.lookup(*i).is_some() {
            fail = 1;
        }
        failures += fail;
    }
    assert_eq!(failures, 0);
    let mut failed = false;
    for i in v2.iter() {
        if s.lookup(*i).is_some() {
            println!("Deleted {:?}, but it's still there!", *i);
            failed = true;
        }
    }
    assert!(!failed);
    for i in v1.iter() {
        assert!(
            s.lookup(*i).is_some(),
            "Didn't delete {:?}, but it is gone!",
            *i
        );
    }
}

fn check_capacity_invariant(s: &DenseHashTable) {
    assert!(s.len <= s.set, "len {} > set {}", s.len, s.set);
    assert!(s.set <= s.buckets.len(), "set {} > buckets {}", s.set, s.buckets.len());
    let c = s.buckets.len();
    assert!(c == 0 || c & (c - 1) == 0, "bucket count {} is not a power of two", c);
}

#[test]
fn capacity_invariant_under_churn() {
    let mut s = DenseHashTable::new();
    check_capacity_invariant(&s);
    let keys = random_vec(4096);
    for (ix, k) in keys.iter().enumerate() {
        let _ = s.insert(live(*k, ix as u64));
        check_capacity_invariant(&s);
    }
    for k in keys.iter().step_by(2) {
        assert!(s.delete(*k).is_some());
        check_capacity_invariant(&s);
    }
    // Re-inserting over tombstones exercises both the compaction and the
    // doubling paths of the growth policy.
    for (ix, k) in keys.iter().enumerate().step_by(2) {
        let _ = s.insert(live(*k, (ix + 1) as u64));
        check_capacity_invariant(&s);
    }
    for k in keys.iter() {
        assert!(s.lookup(*k).is_some());
    }
}

#[test]
fn no_false_negatives_under_tombstone_churn() {
    let mut s = DenseHashTable::new();
    let keys = random_vec(10000);
    for (ix, k) in keys.iter().enumerate() {
        let _ = s.insert(live(*k, ix as u64));
    }
    // Delete a scattered half.
    for k in keys.iter().step_by(2) {
        s.delete(*k);
    }
    // Every surviving key must still be found: probing skips tombstones.
    for k in keys.iter().skip(1).step_by(2) {
        assert!(s.lookup(*k).is_some(), "lost surviving key {:?}", *k);
    }
}

#[test]
fn idempotent_insert_same_key() {
    let mut s = DenseHashTable::new();
    let _ = s.insert(live(42, 1));
    let len1 = s.len;
    let set1 = s.set;
    let replaced = s.insert(live(42, 2));
    assert_eq!(s.len, len1);
    assert_eq!(s.set, set1);
    match replaced {
        Err(old) => {
            assert_eq!(old.prefix, 42);
            assert_eq!(old.ptr, MarkedRef::Internal(1));
        }
        Ok(()) => panic!("second insert of the same key must report a replacement"),
    }
    let e = s.lookup(42).unwrap();
    assert_eq!(e.ptr, MarkedRef::Internal(2));
}

#[test]
fn delete_reports_removed_entry() {
    let mut s = DenseHashTable::new();
    assert!(s.delete(7).is_none());
    let _ = s.insert(live(7, 9));
    let removed = s.delete(7).unwrap();
    assert_eq!(removed.prefix, 7);
    assert_eq!(removed.ptr, MarkedRef::Internal(9));
    assert!(s.delete(7).is_none());
    assert!(s.lookup(7).is_none());
}

#[test]
fn grow_preserves_entries() {
    let mut s = DenseHashTable::new();
    for k in 0..100u64 {
        let _ = s.insert(live(k, k + 1000));
    }
    s.grow();
    assert_eq!(s.len, 100);
    assert_eq!(s.set, s.len);
    for k in 0..100u64 {
        let e = s.lookup(k).unwrap();
        assert_eq!(e.ptr, MarkedRef::Internal(k + 1000));
    }
}
