use std::collections::HashSet;

use prefix_cache::cache::{read_u64, HashSetPrefixCache, NullBuckets, PrefixCache};
use prefix_cache::marked::MarkedRef;

fn xorshift64(state: &mut u64) -> u64 {
    let mut x = *state;
    x ^= x << 13;
    x ^= x >> 7;
    x ^= x << 17;
    *state = x;
    x
}

#[test]
fn read_u64_exact_values() {
    assert_eq!(read_u64(&[]), 0);
    assert_eq!(read_u64(&[0x01, 0x02]), 0x0102_0000_0000_0000);
    assert_eq!(
        read_u64(&[0x01, 0x02, 0x03, 0x04, 0x05, 0x06, 0x07, 0x08]),
        0x0102_0304_0506_0708
    );
    // A ninth byte is ignored: only the first eight participate.
    assert_eq!(
        read_u64(&[0x01, 0x02, 0x03, 0x04, 0x05, 0x06, 0x07, 0x08, 0xFF]),
        0x0102_0304_0506_0708
    );
    assert_eq!(read_u64(&[0xFF; 8]), u64::MAX);
}

#[test]
fn round_trip_insert_lookup() {
    let mut c = HashSetPrefixCache::new();
    let r = MarkedRef::Leaf(0x1000);
    c.insert(&[1, 2, 3, 4, 5, 6, 7, 8], r);
    assert_eq!(c.lookup(&[1, 2, 3, 4, 5, 6, 7, 8]), Some(r));
    // A short prefix is zero-padded: it shares a key with its padded form.
    let r2 = MarkedRef::Internal(0x2000);
    c.insert(&[9, 10], r2);
    assert_eq!(c.lookup(&[9, 10]), Some(r2));
    assert_eq!(c.lookup(&[9, 10, 0, 0, 0, 0, 0, 0]), Some(r2));
    // A long prefix is truncated to eight bytes.
    let r3 = MarkedRef::Leaf(0x3000);
    c.insert(&[1, 1, 1, 1, 1, 1, 1, 1, 99, 98], r3);
    assert_eq!(c.lookup(&[1, 1, 1, 1, 1, 1, 1, 1]), Some(r3));
    assert_eq!(c.lookup(&[1, 1, 1, 1, 1, 1, 1, 1, 42]), Some(r3));
}

#[test]
fn delete_then_miss() {
    let mut c = HashSetPrefixCache::new();
    let p = [4, 5, 6];
    c.insert(&p, MarkedRef::Internal(77));
    assert!(c.lookup(&p).is_some());
    c.insert(&p, MarkedRef::Null);
    assert_eq!(c.lookup(&p), None);
    // Deleting an absent prefix stays a no-op.
    c.insert(&p, MarkedRef::Null);
    assert_eq!(c.lookup(&p), None);
}

#[test]
fn replace_returns_prior() {
    let mut c = HashSetPrefixCache::new();
    let p = [8, 8, 8];
    let r1 = MarkedRef::Leaf(0xA0);
    let r2 = MarkedRef::Leaf(0xB0);
    assert_eq!(c.replace(&p, r1), None);
    assert_eq!(c.replace(&p, r2), Some(r1));
    assert_eq!(c.lookup(&p), Some(r2));
    // Replacing with null deletes and still hands the prior entry back.
    assert_eq!(c.replace(&p, MarkedRef::Null), Some(r2));
    assert_eq!(c.lookup(&p), None);
    assert_eq!(c.replace(&p, MarkedRef::Null), None);
}

#[test]
fn null_buckets_never_hits() {
    let mut c = NullBuckets::new();
    assert!(!NullBuckets::enabled());
    assert!(!NullBuckets::complete());
    let p = [1, 2, 3];
    c.insert(&p, MarkedRef::Leaf(5));
    assert_eq!(c.lookup(&p), None);
    assert_eq!(c.replace(&p, MarkedRef::Internal(6)), None);
    assert_eq!(c.lookup(&p), None);
    c.debug_assert_unreachable(MarkedRef::Leaf(5));
}

#[test]
fn hash_cache_flags() {
    assert!(HashSetPrefixCache::enabled());
    assert!(HashSetPrefixCache::complete());
}

#[test]
fn unreachable_check_after_invalidation() {
    let mut c = HashSetPrefixCache::new();
    let stale = MarkedRef::Internal(0xDEAD);
    c.insert(&[3, 1, 4], stale);
    c.insert(&[3, 1, 4], MarkedRef::Null);
    c.debug_assert_unreachable(stale);
}

#[test]
fn bulk_scenario() {
    let mut c = HashSetPrefixCache::new();
    let n: usize = 1 << 18;
    let mut st: u64 = 0xDEADBEEFCAFEF00D;
    let mut keys: Vec<u64> = Vec::with_capacity(n);
    let mut seen: HashSet<u64> = HashSet::with_capacity(n);
    while keys.len() < n {
        let k = xorshift64(&mut st);
        if seen.insert(k) {
            keys.push(k);
        }
    }
    for (ix, k) in keys.iter().enumerate() {
        c.insert(&k.to_be_bytes(), MarkedRef::Internal(ix as u64));
    }
    for (ix, k) in keys.iter().enumerate() {
        assert_eq!(
            c.lookup(&k.to_be_bytes()),
            Some(MarkedRef::Internal(ix as u64)),
            "inserted prefix {:?} must hit",
            k
        );
    }
    // Delete a pseudo-random half.
    let mut deleted: Vec<bool> = Vec::with_capacity(n);
    for k in keys.iter() {
        let drop_it = xorshift64(&mut st) & 1 == 1;
        deleted.push(drop_it);
        if drop_it {
            c.insert(&k.to_be_bytes(), MarkedRef::Null);
        }
    }
    for (ix, k) in keys.iter().enumerate() {
        let got = c.lookup(&k.to_be_bytes());
        if deleted[ix] {
            assert_eq!(got, None, "deleted prefix {:?} must miss", k);
        } else {
            assert_eq!(got, Some(MarkedRef::Internal(ix as u64)));
        }
    }
    // A key that was never inserted never shows a live entry.
    let mut probed = 0;
    while probed < 1000 {
        let k = xorshift64(&mut st);
        if !seen.contains(&k) {
            assert_eq!(c.lookup(&k.to_be_bytes()), None);
            probed += 1;
        }
    }
}
