use vstd::prelude::*;
use vstd::arithmetic::power2::{lemma2_to64, lemma2_to64_rest, lemma_pow2_adds,
    lemma_pow2_strictly_increases, pow2};
use vstd::assert_maps_equal;
use vstd::map::*;

use crate::marked::{MarkedElt, MarkedRef};
use crate::table::{lemma_live_slot_contents, DenseHashTable};

verus! {

/// The byte the key derivation reads at position `j`: the prefix's own byte
/// while there is one, zero past its end.
pub open spec fn key_byte(bs: Seq<u8>, j: int) -> u8 {
    if 0 <= j < bs.len() {
        bs[j]
    } else {
        0
    }
}

/// The big-endian accumulation of the first `i` (padded) bytes.
pub open spec fn key_acc(bs: Seq<u8>, i: int) -> nat
    decreases i,
{
    if i <= 0 {
        0
    } else {
        (key_acc(bs, i - 1) * 256 + key_byte(bs, i - 1)) as nat
    }
}

/// The cache key of a byte prefix: its first eight bytes, zero-padded if it
/// is shorter, read as one big-endian unsigned integer.  Longer prefixes are
/// truncated; collisions between longer keys sharing eight bytes are for the
/// tree's fallback traversal to resolve, not the cache.
pub open spec fn key_of(bs: Seq<u8>) -> u64 {
    key_acc(bs, 8) as u64
}

proof fn lemma_key_acc_fits(bs: Seq<u8>, i: int)
    requires
        0 <= i <= 8,
    ensures
        key_acc(bs, i) < pow2((8 * i) as nat),
    decreases i,
{
    if i == 0 {
        lemma2_to64();
    } else {
        lemma_key_acc_fits(bs, i - 1);
        lemma_pow2_adds(8, (8 * (i - 1)) as nat);
        lemma2_to64();
        let p = pow2((8 * (i - 1)) as nat);
        assert(key_acc(bs, i - 1) * 256 + key_byte(bs, i - 1) < 256 * p) by (nonlinear_arith)
            requires
                key_acc(bs, i - 1) < p,
                key_byte(bs, i - 1) < 256,
                p >= 1,
        ;
    }
}

/// Pack the first eight bytes of `bs` (zero-padded if shorter, truncated if
/// longer) into a big-endian `u64`: the fixed-width key under which a prefix
/// is cached.
pub fn read_u64(bs: &[u8]) -> (r: u64)
    ensures
        r == key_of(bs@),
{
    let n = bs.len();
    let mut acc: u64 = 0;
    let mut i: usize = 0;
    while i < 8
        invariant
            i <= 8,
            n == bs@.len(),
            acc == key_acc(bs@, i as int),
        decreases 8 - i,
    {
        let b: u64 = if i < n {
            bs[i] as u64
        } else {
            0
        };
        proof {
            lemma_key_acc_fits(bs@, i as int);
            lemma2_to64_rest();
            if 8 * (i as int) < 56 {
                lemma_pow2_strictly_increases((8 * (i as int)) as nat, 56);
            }
            assert(acc * 256 + b < 0x10000000000000000) by (nonlinear_arith)
                requires
                    acc < 0x100000000000000,
                    b < 256,
            ;
        }
        acc = acc * 256 + b;
        i = i + 1;
    }
    proof {
        lemma_key_acc_fits(bs@, 8);
        lemma2_to64_rest();
    }
    acc
}

/// What a lookup yields from a cache whose live contents are `m`.
pub open spec fn spec_lookup(m: Map<u64, MarkedRef>, bs: Seq<u8>) -> Option<MarkedRef> {
    if m.dom().contains(key_of(bs)) {
        Some(m[key_of(bs)])
    } else {
        None
    }
}

/// What recording `ptr` under `bs` does to a cache whose live contents are
/// `m`: a null reference is a removal request, anything else an insert-or-
/// overwrite.
pub open spec fn spec_update(m: Map<u64, MarkedRef>, bs: Seq<u8>, ptr: MarkedRef) -> Map<
    u64,
    MarkedRef,
> {
    if ptr is Null {
        m.remove(key_of(bs))
    } else {
        m.insert(key_of(bs), ptr)
    }
}

/// The capability contract the tree consults: a cache of tagged references
/// keyed by 8-byte prefixes.  `spec_enabled` says whether the tree should
/// consult the cache at all; `spec_complete` says whether a miss proves that
/// no node with the prefix exists (rather than merely not being cached).
pub trait PrefixCache: Sized {
    /// If true, the cache is used during tree set operations; if false it is
    /// ignored entirely.
    spec fn spec_enabled() -> bool;

    /// If true, `lookup` returning `None` means no node with that prefix is
    /// in the set.
    spec fn spec_complete() -> bool;

    spec fn wf(&self) -> bool;

    /// The prefix-key/reference pairs the cache currently holds.
    spec fn cached(&self) -> Map<u64, MarkedRef>;

    /// Whether one more record fits without exhausting the address space.
    spec fn spec_has_room(&self) -> bool;

    fn enabled() -> (r: bool)
        ensures
            r == Self::spec_enabled(),
    ;

    fn complete() -> (r: bool)
        ensures
            r == Self::spec_complete(),
    ;

    /// Whether another record may be inserted; `insert` and `replace` ask
    /// their callers to have checked this.
    fn has_room(&self) -> (r: bool)
        ensures
            r == self.spec_has_room(),
    ;

    fn new() -> (r: Self)
        ensures
            r.wf(),
            r.cached() == Map::<u64, MarkedRef>::empty(),
            r.spec_has_room(),
    ;

    /// The reference cached for this prefix, or `None` on a miss.  No side
    /// effects.
    fn lookup(&self, bs: &[u8]) -> (r: Option<MarkedRef>)
        requires
            self.wf(),
        ensures
            Self::spec_enabled() ==> r == spec_lookup(self.cached(), bs@),
            !Self::spec_enabled() ==> r is None,
    ;

    /// Unconditionally record `ptr` for this prefix; a null `ptr` asks for
    /// removal instead.
    fn insert(&mut self, bs: &[u8], ptr: MarkedRef)
        requires
            old(self).wf(),
            old(self).spec_has_room(),
            ptr.wf(),
        ensures
            final(self).wf(),
            Self::spec_enabled() ==> final(self).cached() == spec_update(
                old(self).cached(),
                bs@,
                ptr,
            ),
            !Self::spec_enabled() ==> final(self).cached() == old(self).cached(),
    ;

    /// Same effect as `insert`, but hands back the previously cached
    /// reference, if the slot held a live one.
    fn replace(&mut self, bs: &[u8], ptr: MarkedRef) -> (r: Option<MarkedRef>)
        requires
            old(self).wf(),
            old(self).spec_has_room(),
            ptr.wf(),
        ensures
            final(self).wf(),
            Self::spec_enabled() ==> final(self).cached() == spec_update(
                old(self).cached(),
                bs@,
                ptr,
            ),
            !Self::spec_enabled() ==> final(self).cached() == old(self).cached(),
            Self::spec_enabled() ==> r == spec_lookup(old(self).cached(), bs@),
            !Self::spec_enabled() ==> r is None,
    ;

    /// Diagnostic hook: the caller asserts that `ptr` is not cached for any
    /// prefix — used when a node is freed, to catch a missed invalidation.
    /// The claim is discharged statically here, so the body has nothing left
    /// to detect at run time.
    fn debug_assert_unreachable(&self, ptr: MarkedRef)
        requires
            self.wf(),
            forall|k: u64| self.cached().dom().contains(k) ==> self.cached()[k] != ptr,
    ;
}

/// The disabled cache: never consulted, never complete, caches nothing and
/// does nothing.  Exists so call sites can be written unconditionally against
/// the contract, with this path optimized away.
pub struct NullBuckets;

impl PrefixCache for NullBuckets {
    open spec fn spec_enabled() -> bool {
        false
    }

    open spec fn spec_complete() -> bool {
        false
    }

    open spec fn wf(&self) -> bool {
        true
    }

    open spec fn cached(&self) -> Map<u64, MarkedRef> {
        Map::empty()
    }

    open spec fn spec_has_room(&self) -> bool {
        true
    }

    fn enabled() -> bool {
        false
    }

    fn complete() -> bool {
        false
    }

    fn has_room(&self) -> bool {
        true
    }

    fn new() -> Self {
        NullBuckets
    }

    fn lookup(&self, _bs: &[u8]) -> Option<MarkedRef> {
        None
    }

    fn insert(&mut self, _bs: &[u8], _ptr: MarkedRef) {
    }

    fn replace(&mut self, _bs: &[u8], _ptr: MarkedRef) -> Option<MarkedRef> {
        None
    }

    fn debug_assert_unreachable(&self, _ptr: MarkedRef) {
    }
}

/// The production cache: a dense hash table keyed on the first eight bytes
/// of the prefix.  Enabled and complete: every prefix ever inserted is
/// tracked exactly, so a miss is authoritative for prefixes of up to eight
/// bytes.
pub struct HashSetPrefixCache {
    table: DenseHashTable,
}

impl PrefixCache for HashSetPrefixCache {
    open spec fn spec_enabled() -> bool {
        true
    }

    open spec fn spec_complete() -> bool {
        true
    }

    closed spec fn wf(&self) -> bool {
        self.table.wf()
    }

    closed spec fn cached(&self) -> Map<u64, MarkedRef> {
        self.table.contents()
    }

    closed spec fn spec_has_room(&self) -> bool {
        self.table.set < usize::MAX / 4
    }

    fn enabled() -> bool {
        true
    }

    fn complete() -> bool {
        true
    }

    fn has_room(&self) -> bool {
        self.table.set < usize::MAX / 4
    }

    fn new() -> Self {
        HashSetPrefixCache { table: DenseHashTable::new() }
    }

    fn lookup(&self, bs: &[u8]) -> Option<MarkedRef> {
        let prefix = read_u64(bs);
        match self.table.lookup(prefix) {
            Some(e) => Some(e.ptr),
            None => None,
        }
    }

    fn insert(&mut self, bs: &[u8], ptr: MarkedRef) {
        let prefix = read_u64(bs);
        if ptr.is_null() {
            let _ = self.table.delete(prefix);
        } else {
            let _ = self.table.insert(MarkedElt { prefix, ptr });
        }
    }

    fn replace(&mut self, bs: &[u8], ptr: MarkedRef) -> Option<MarkedRef> {
        let prefix = read_u64(bs);
        let prev = if ptr.is_null() {
            self.table.delete(prefix)
        } else {
            match self.table.insert(MarkedElt { prefix, ptr }) {
                Ok(()) => None,
                Err(t) => Some(t),
            }
        };
        match prev {
            Some(e) => Some(e.ptr),
            None => None,
        }
    }

    fn debug_assert_unreachable(&self, ptr: MarkedRef) {
        let mut i: usize = 0;
        while i < self.table.buckets.len()
            invariant
                self.table.wf(),
                forall|k: u64| self.cached().dom().contains(k) ==> self.cached()[k] != ptr,
                i <= self.table.buckets.len(),
            decreases self.table.buckets@.len() - i,
        {
            let e = self.table.buckets[i];
            if !e.is_null() && !e.is_tombstone() {
                proof {
                    lemma_live_slot_contents(self.table.buckets@, i as int);
                    assert(self.cached() == self.table.contents());
                    assert(self.cached().dom().contains(e.prefix));
                    assert(e.ptr != ptr);
                }
            }
            i = i + 1;
        }
    }
}

/// Inserting a non-null reference and then looking the same prefix up yields
/// exactly that reference, whatever the cache held before.
pub proof fn lemma_insert_then_lookup(m: Map<u64, MarkedRef>, bs: Seq<u8>, ptr: MarkedRef)
    requires
        !(ptr is Null),
    ensures
        spec_lookup(spec_update(m, bs, ptr), bs) == Some(ptr),
{
}

/// Inserting a reference for a prefix and then inserting null for the same
/// prefix leaves a lookup of that prefix missing.
pub proof fn lemma_delete_then_miss(m: Map<u64, MarkedRef>, bs: Seq<u8>, ptr: MarkedRef)
    ensures
        spec_lookup(spec_update(spec_update(m, bs, ptr), bs, MarkedRef::Null), bs) == None::<
            MarkedRef,
        >,
{
}

/// Replacing a prefix's reference twice: the second replacement returns the
/// first reference (that is what a `replace` yields from the state the first
/// one left), and the cache then reflects the second.
pub proof fn lemma_replace_returns_prior(
    m: Map<u64, MarkedRef>,
    bs: Seq<u8>,
    r1: MarkedRef,
    r2: MarkedRef,
)
    requires
        !(r1 is Null),
        !(r2 is Null),
    ensures
        spec_lookup(spec_update(m, bs, r1), bs) == Some(r1),
        spec_lookup(spec_update(spec_update(m, bs, r1), bs, r2), bs) == Some(r2),
{
}

/// Removing one prefix never disturbs a lookup of a different prefix: with
/// the table's lookup contract this is what rules out false negatives under
/// tombstone churn, since deletions only ever affect their own key.
pub proof fn lemma_unrelated_delete_keeps_hit(
    m: Map<u64, MarkedRef>,
    p: Seq<u8>,
    q: Seq<u8>,
)
    requires
        key_of(p) != key_of(q),
    ensures
        spec_lookup(spec_update(m, q, MarkedRef::Null), p) == spec_lookup(m, p),
{
}

/// Inserting the same prefix twice collapses to the second insert, and a
/// lookup then reflects the second reference.
pub proof fn lemma_same_key_overwrite(
    m: Map<u64, MarkedRef>,
    bs: Seq<u8>,
    r1: MarkedRef,
    r2: MarkedRef,
)
    requires
        !(r1 is Null),
        !(r2 is Null),
    ensures
        spec_update(spec_update(m, bs, r1), bs, r2) == spec_update(m, bs, r2),
        spec_lookup(spec_update(spec_update(m, bs, r1), bs, r2), bs) == Some(r2),
{
    assert_maps_equal!(spec_update(spec_update(m, bs, r1), bs, r2), spec_update(m, bs, r2));
}

} // verus!
