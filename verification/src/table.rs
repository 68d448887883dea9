use vstd::prelude::*;
use vstd::arithmetic::div_mod::{lemma_add_mod_noop, lemma_fundamental_div_mod, lemma_mod_bound};
use vstd::arithmetic::power2::pow2;
use vstd::pervasive::VecAdditionalExecFns;
use vstd::set::{axiom_set_insert_len, axiom_set_remove_len};
use vstd::set_lib::{lemma_int_range, lemma_len_subset};
use vstd::assert_sets_equal;
use vstd::assert_maps_equal;
use vstd::map::*;

use crate::hash::{fnv_hash, fnv_of};
use crate::marked::{MarkedElt, MarkedRef};
use crate::probe::{
    is_pow2, lemma_injection_le_card, lemma_one_is_pow2, lemma_pow2_double, lemma_pow2_is_pos,
    lemma_probe_distinct, lemma_probe_in_range, lemma_tri_double, lemma_tri_nonneg, probe_ix, tri,
};

verus! {

/// Indices of the slots that are not null (live entries and tombstones):
/// the slots a probe search walks over without stopping.
pub open spec fn nonnull_idx(b: Seq<MarkedElt>) -> Set<int> {
    Set::new(|i: int| 0 <= i < b.len() && !b[i].spec_is_null())
}

/// Indices of the live slots.
pub open spec fn live_idx(b: Seq<MarkedElt>) -> Set<int> {
    Set::new(|i: int| 0 <= i < b.len() && b[i].is_live())
}

/// No key is held live in two different slots.
pub open spec fn keys_unique(b: Seq<MarkedElt>) -> bool {
    forall|i: int, j: int|
        0 <= i < b.len() && 0 <= j < b.len() && #[trigger] b[i].is_live() && #[trigger] b[j].is_live()
            && b[i].prefix == b[j].prefix ==> i == j
}

/// The live entry at slot `i` is reachable: some probe attempt for its own
/// key's hash lands on `i`, and every earlier attempt lands on a slot that is
/// not null, so a probe search never stops short of it.
pub open spec fn chain_ok(b: Seq<MarkedElt>, i: int) -> bool {
    exists|n: int|
        0 <= n < b.len() && #[trigger] probe_ix(fnv_of(b[i].prefix), b.len() as int, n) == i
            && forall|m: int|
            0 <= m < n ==> !b[#[trigger] probe_ix(fnv_of(b[i].prefix), b.len() as int, m)].spec_is_null()
}

/// Is some live slot keyed by `k`?
pub open spec fn has_key(b: Seq<MarkedElt>, k: u64) -> bool {
    exists|i: int| 0 <= i < b.len() && #[trigger] b[i].is_live() && b[i].prefix == k
}

/// The slot that holds `k` live (meaningful when `has_key` and keys are unique).
pub open spec fn slot_of(b: Seq<MarkedElt>, k: u64) -> int {
    choose|i: int| 0 <= i < b.len() && #[trigger] b[i].is_live() && b[i].prefix == k
}

/// The table as a map from keys to the references stored for them.
pub open spec fn table_map(b: Seq<MarkedElt>) -> Map<u64, MarkedRef> {
    Map::new(|k: u64| has_key(b, k), |k: u64| b[slot_of(b, k)].ptr)
}

/// A bare-bones dense hash table, sufficient to back a prefix cache: open
/// addressing with triangular probing over a power-of-two bucket array,
/// deletion by tombstone, and a grow-or-compact policy when the occupied
/// (live plus tombstone) slot count reaches half the capacity.
pub struct DenseHashTable {
    pub buckets: Vec<MarkedElt>,
    /// Number of live entries.
    pub len: usize,
    /// Number of occupied slots: live entries plus tombstones.
    pub set: usize,
}

impl DenseHashTable {
    pub open spec fn cap(&self) -> int {
        self.buckets@.len() as int
    }

    /// The key/reference pairs currently held live.
    pub open spec fn contents(&self) -> Map<u64, MarkedRef> {
        table_map(self.buckets@)
    }

    /// Well-formedness: the capacity is zero or a power of two, `len` counts
    /// the live slots, `set` counts the occupied (non-null) slots — so
    /// `len <= set <= cap` — the occupied slots never exceed half the
    /// capacity by more than the one insertion that follows a growth check,
    /// live keys are unique, and every live entry is reachable by probing.
    pub open spec fn wf(&self) -> bool {
        let b = self.buckets@;
        &&& self.cap() == 0 || is_pow2(self.cap())
        &&& self.cap() <= usize::MAX as int
        &&& self.set as int == nonnull_idx(b).len()
        &&& self.len as int == live_idx(b).len()
        &&& self.len <= self.set
        &&& self.set as int <= self.cap()
        &&& 2 * (self.set as int) <= self.cap() + 2
        &&& keys_unique(b)
        &&& forall|i: int| 0 <= i < b.len() && #[trigger] b[i].is_live() ==> chain_ok(b, i)
    }

    /// An empty table: no buckets at all until the first insertion.
    pub fn new() -> (r: Self)
        ensures
            r.wf(),
            r.cap() == 0,
            r.len == 0,
            r.set == 0,
            r.contents() == Map::<u64, MarkedRef>::empty(),
    {
        let r = DenseHashTable { buckets: Vec::new(), len: 0, set: 0 };
        proof {
            assert_sets_equal!(nonnull_idx(r.buckets@), Set::<int>::empty());
            assert_sets_equal!(live_idx(r.buckets@), Set::<int>::empty());
            let e: Map<u64, MarkedRef> = Map::empty();
            assert_maps_equal!(r.contents(), e);
        }
        r
    }

    /// The slot probed at attempt `i`: the hash plus the i-th triangular
    /// offset, reduced modulo the capacity.
    pub fn next_probe(hash: u64, i: usize, cap: usize) -> (r: usize)
        requires
            is_pow2(cap as int),
            i < cap,
        ensures
            r as int == probe_ix(hash, cap as int, i as int),
            r < cap,
    {
        proof {
            lemma_cap_fits(cap as int);
            lemma_tri_double(i as int);
            lemma_tri_nonneg(i as int);
            lemma_probe_in_range(hash, cap as int, i as int);
        }
        let c = cap as u64;
        let hm = hash % c;
        let im = i as u128;
        proof {
            assert((im as int) * ((im as int) + 1) < 0x100000000000000000000000000000000)
                by (nonlinear_arith)
                requires
                    0 <= (im as int),
                    (im as int) < 0x10000000000000000,
            ;
        }
        let t: u128 = (im * (im + 1)) / 2;
        let tm = (t % (c as u128)) as u64;
        proof {
            assert(t == tri(i as int)) by (nonlinear_arith)
                requires
                    t == (im * (im + 1)) / 2,
                    im == i as int,
                    2 * tri(i as int) == (i as int) * (i as int + 1),
                    tri(i as int) >= 0,
            ;
            lemma_add_mod_noop(hash as int, tri(i as int), c as int);
        }
        ((hm + tm) % c) as usize
    }

    /// One scan shared by lookup, insert and delete: walk the probe sequence
    /// for `k`, remembering the first tombstone seen, until a null slot or a
    /// live entry for `k` stops the search.  Returns the first tombstone (if
    /// any) and the stopping slot (`None` only if the whole table was walked
    /// without finding either).
    fn seek(&self, k: u64) -> (r: (Option<usize>, Option<usize>))
        requires
            self.wf(),
            self.buckets@.len() > 0,
        ensures
            match r.1 {
                Some(j) => 0 <= j < self.buckets@.len() && (self.buckets@[j as int].spec_is_null()
                    || (self.buckets@[j as int].is_live() && self.buckets@[j as int].prefix == k))
                    && exists|n: int|
                    0 <= n < self.buckets@.len() && #[trigger] probe_ix(
                        fnv_of(k),
                        self.buckets@.len() as int,
                        n,
                    ) == j as int && probes_miss(self.buckets@, k, n),
                None => probes_miss(self.buckets@, k, self.buckets@.len() as int),
            },
            match r.0 {
                Some(t) => 0 <= t < self.buckets@.len() && self.buckets@[t as int].spec_is_tombstone()
                    && on_clear_chain(self.buckets@, k, t as int),
                None => true,
            },
    {
        let ghost b = self.buckets@;
        let l = self.buckets.len();
        let hash = fnv_hash(k);
        let mut tombstone: Option<usize> = None;
        let mut times: usize = 0;
        while times < l
            invariant
                self.wf(),
                l == self.buckets@.len(),
                0 < l,
                b == self.buckets@,
                hash == fnv_of(k),
                times <= l,
                probes_miss(b, k, times as int),
                match tombstone {
                    Some(t) => 0 <= t < l && b[t as int].spec_is_tombstone() && on_clear_chain(
                        b,
                        k,
                        t as int,
                    ),
                    None => true,
                },
            decreases l - times,
        {
            let ix = Self::next_probe(hash, times, l);
            let bucket = self.buckets[ix];
            if bucket.is_tombstone() {
                if tombstone.is_none() {
                    tombstone = Some(ix);
                    proof {
                        assert(probe_ix(fnv_of(k), l as int, times as int) == ix as int);
                        assert(on_clear_chain(b, k, ix as int));
                    }
                }
            } else if bucket.is_null() {
                proof {
                    assert(probe_ix(fnv_of(k), l as int, times as int) == ix as int);
                }
                return (tombstone, Some(ix));
            } else if bucket.key() == k {
                proof {
                    assert(probe_ix(fnv_of(k), l as int, times as int) == ix as int);
                    assert(bucket.is_live());
                }
                return (tombstone, Some(ix));
            }
            proof {
                assert forall|m: int| 0 <= m < times + 1 implies !b[#[trigger] probe_ix(
                    fnv_of(k),
                    b.len() as int,
                    m,
                )].spec_is_null() && !(b[probe_ix(fnv_of(k), b.len() as int, m)].is_live() && b[
                    probe_ix(fnv_of(k), b.len() as int, m)].prefix == k) by {
                    if m == times as int {
                        assert(probe_ix(fnv_of(k), b.len() as int, m) == ix as int);
                    }
                }
            }
            times += 1;
        }
        (tombstone, None)
    }

    /// Find the entry stored for `k`, if any.  Tombstones encountered while
    /// probing are passed over, so an entry is found even after unrelated
    /// deletions on its chain.
    pub fn lookup(&self, k: u64) -> (r: Option<MarkedElt>)
        requires
            self.wf(),
        ensures
            match r {
                Some(e) => self.contents().dom().contains(k) && e.prefix == k && e.is_live()
                    && e.ptr == self.contents()[k],
                None => !self.contents().dom().contains(k),
            },
    {
        let ghost b = self.buckets@;
        if self.buckets.len() == 0 {
            proof {
                assert(!has_key(b, k));
            }
            return None;
        }
        let (_, b_opt) = self.seek(k);
        match b_opt {
            None => {
                proof {
                    lemma_miss_absent(b, k, b.len() as int);
                }
                None
            },
            Some(j) => {
                let e = self.buckets[j];
                if e.is_null() {
                    proof {
                        let n = choose|n: int|
                            0 <= n < b.len() && #[trigger] probe_ix(fnv_of(k), b.len() as int, n)
                                == j as int && probes_miss(b, k, n);
                        lemma_miss_absent(b, k, n);
                    }
                    None
                } else {
                    proof {
                        lemma_live_slot_contents(b, j as int);
                    }
                    Some(e)
                }
            },
        }
    }

    /// Remove the entry stored for `k`, if any, by swapping a tombstone into
    /// its slot; the slot stays occupied so probe chains through it survive.
    /// Returns the removed entry.
    pub fn delete(&mut self, k: u64) -> (r: Option<MarkedElt>)
        requires
            old(self).wf(),
        ensures
            final(self).wf(),
            final(self).cap() == old(self).cap(),
            final(self).set == old(self).set,
            final(self).contents() == old(self).contents().remove(k),
            match r {
                Some(e) => old(self).contents().dom().contains(k) && e.prefix == k && e.ptr == old(
                    self,
                ).contents()[k] && final(self).len == old(self).len - 1,
                None => !old(self).contents().dom().contains(k) && final(self).len == old(
                    self,
                ).len && *final(self) == *old(self),
            },
    {
        let ghost b = self.buckets@;
        if self.buckets.len() == 0 {
            proof {
                assert(!has_key(b, k));
                assert_maps_equal!(table_map(b).remove(k), table_map(b));
            }
            return None;
        }
        let (_, b_opt) = self.seek(k);
        match b_opt {
            None => {
                proof {
                    lemma_miss_absent(b, k, b.len() as int);
                    assert_maps_equal!(table_map(b).remove(k), table_map(b));
                }
                None
            },
            Some(j) => {
                let e = self.buckets[j];
                if e.is_null() {
                    proof {
                        let n = choose|n: int|
                            0 <= n < b.len() && #[trigger] probe_ix(fnv_of(k), b.len() as int, n)
                                == j as int && probes_miss(b, k, n);
                        lemma_miss_absent(b, k, n);
                        assert_maps_equal!(table_map(b).remove(k), table_map(b));
                    }
                    None
                } else {
                    proof {
                        lemma_live_slot_contents(b, j as int);
                    }
                    self.buckets.set(j, MarkedElt::tombstone());
                    proof {
                        let b2 = self.buckets@;
                        lemma_map_delete(b, j as int, b2[j as int]);
                        lemma_idx_card(b);
                        assert_sets_equal!(nonnull_idx(b2), nonnull_idx(b));
                        assert_sets_equal!(live_idx(b2), live_idx(b).remove(j as int));
                        axiom_set_remove_len(live_idx(b), j as int);
                        assert forall|i: int| 0 <= i < b2.len() && #[trigger] b2[i].is_live()
                            implies chain_ok(b2, i) by {
                            assert(b[i].is_live());
                            lemma_chain_preserved(b, b2, i);
                        }
                    }
                    self.len = self.len - 1;
                    Some(e)
                }
            },
        }
    }

    /// Write one live entry without checking the growth trigger: the caller
    /// guarantees at most half the slots are occupied.  A fresh key goes into
    /// the first tombstone passed on its probe chain if there was one (which
    /// reclaims the slot), else into the null slot that stopped the search; a
    /// key already present has its entry swapped out and returned.
    fn place(&mut self, t: MarkedElt) -> (r: Result<(), MarkedElt>)
        requires
            old(self).wf(),
            t.is_live(),
            old(self).cap() > 0,
            2 * (old(self).set as int) <= old(self).cap(),
        ensures
            final(self).wf(),
            final(self).cap() == old(self).cap(),
            final(self).contents() == old(self).contents().insert(t.prefix, t.ptr),
            final(self).set == old(self).set || final(self).set as int == old(self).set as int + 1,
            final(self).set as int - final(self).len as int <= old(self).set as int - old(
                self,
            ).len as int,
            match r {
                Ok(()) => !old(self).contents().dom().contains(t.prefix) && final(self).len as int
                    == old(self).len as int + 1,
                Err(e) => old(self).contents().dom().contains(t.prefix) && e.prefix == t.prefix
                    && e.ptr == old(self).contents()[t.prefix] && final(self).len == old(self).len
                    && final(self).set == old(self).set,
            },
    {
        let ghost b = self.buckets@;
        proof {
            lemma_idx_card(b);
        }
        let k = t.prefix;
        let (tmb, b_opt) = self.seek(k);
        let j = match b_opt {
            Some(j) => j,
            None => {
                proof {
                    lemma_full_scan_card(b, k);
                    assert(false);
                }
                vstd::pervasive::unreached()
            },
        };
        if self.buckets[j].is_null() {
            proof {
                let n = choose|n: int|
                    0 <= n < b.len() && #[trigger] probe_ix(fnv_of(k), b.len() as int, n)
                        == j as int && probes_miss(b, k, n);
                lemma_miss_absent(b, k, n);
            }
            match tmb {
                Some(tb) => {
                    self.buckets.set(tb, t);
                    proof {
                        let b2 = self.buckets@;
                        lemma_map_write_new(b, tb as int, t);
                        assert_sets_equal!(nonnull_idx(b2), nonnull_idx(b));
                        assert_sets_equal!(live_idx(b2), live_idx(b).insert(tb as int));
                        axiom_set_insert_len(live_idx(b), tb as int);
                        lemma_idx_card(b2);
                        assert forall|i: int| 0 <= i < b2.len() && #[trigger] b2[i].is_live()
                            implies chain_ok(b2, i) by {
                            if i == tb as int {
                                lemma_chain_new(b, b2, k, tb as int);
                            } else {
                                assert(b[i].is_live());
                                lemma_chain_preserved(b, b2, i);
                            }
                        }
                    }
                    self.len = self.len + 1;
                    Ok(())
                },
                None => {
                    self.buckets.set(j, t);
                    proof {
                        let b2 = self.buckets@;
                        lemma_map_write_new(b, j as int, t);
                        assert_sets_equal!(nonnull_idx(b2), nonnull_idx(b).insert(j as int));
                        assert_sets_equal!(live_idx(b2), live_idx(b).insert(j as int));
                        axiom_set_insert_len(nonnull_idx(b), j as int);
                        axiom_set_insert_len(live_idx(b), j as int);
                        lemma_idx_card(b2);
                        let n = choose|n: int|
                            0 <= n < b.len() && #[trigger] probe_ix(fnv_of(k), b.len() as int, n)
                                == j as int && probes_miss(b, k, n);
                        assert(on_clear_chain(b, k, j as int));
                        assert forall|i: int| 0 <= i < b2.len() && #[trigger] b2[i].is_live()
                            implies chain_ok(b2, i) by {
                            if i == j as int {
                                lemma_chain_new(b, b2, k, j as int);
                            } else {
                                assert(b[i].is_live());
                                lemma_chain_preserved(b, b2, i);
                            }
                        }
                    }
                    self.set = self.set + 1;
                    self.len = self.len + 1;
                    Ok(())
                },
            }
        } else {
            let old_elt = self.buckets[j];
            proof {
                lemma_live_slot_contents(b, j as int);
            }
            self.buckets.set(j, t);
            proof {
                let b2 = self.buckets@;
                lemma_map_overwrite(b, j as int, t);
                assert_sets_equal!(nonnull_idx(b2), nonnull_idx(b));
                assert_sets_equal!(live_idx(b2), live_idx(b));
                assert forall|i: int| 0 <= i < b2.len() && #[trigger] b2[i].is_live()
                    implies chain_ok(b2, i) by {
                    assert(b[i].is_live());
                    lemma_chain_preserved(b, b2, i);
                }
            }
            Err(old_elt)
        }
    }

    /// Make room: a table with no buckets gets its first (single) bucket;
    /// otherwise, when the array is small or tombstones are scarce, double
    /// the array; when tombstones dominate, rebuild in place at the same
    /// capacity.  Either way every live entry is carried over and every
    /// tombstone is discarded, so afterwards the occupied count equals the
    /// live count and is at most half the capacity.
    pub fn grow(&mut self)
        requires
            old(self).wf(),
            2 * old(self).cap() <= usize::MAX as int,
        ensures
            final(self).wf(),
            final(self).contents() == old(self).contents(),
            final(self).len == old(self).len,
            final(self).set == final(self).len,
            final(self).cap() > 0,
            2 * (final(self).set as int) <= final(self).cap(),
            old(self).cap() <= final(self).cap() <= 2 * old(self).cap() + 1,
    {
        let ghost b0 = self.buckets@;
        let ghost old_self = *self;
        if self.buckets.len() == 0 {
            self.buckets.push(MarkedElt::null());
            proof {
                lemma_one_is_pow2();
                let b2 = self.buckets@;
                assert_sets_equal!(nonnull_idx(b2), nonnull_idx(b0));
                assert_sets_equal!(live_idx(b2), live_idx(b0));
                lemma_idx_card(b0);
                assert forall|i: int, j: int|
                    0 <= i < b2.len() && 0 <= j < b2.len() && #[trigger] b2[i].is_live()
                        && #[trigger] b2[j].is_live() && b2[i].prefix == b2[j].prefix
                    implies i == j by {}
                assert forall|i: int| 0 <= i < b2.len() && #[trigger] b2[i].is_live()
                    implies chain_ok(b2, i) by {
                    assert(b2[i].spec_is_null());
                }
                assert_maps_equal!(table_map(b2), table_map(b0), k => {
                    if has_key(b2, k) {
                        let i = choose|i: int| 0 <= i < b2.len() && #[trigger] b2[i].is_live()
                            && b2[i].prefix == k;
                        assert(b2[i].spec_is_null());
                    }
                    if has_key(b0, k) {
                        let i = choose|i: int| 0 <= i < b0.len() && #[trigger] b0[i].is_live()
                            && b0[i].prefix == k;
                    }
                });
            }
            return ;
        }
        let old_cap = self.buckets.len();
        let must_double = old_cap < 32 || (self.set - self.len) < old_cap / 4;
        proof {
            // The rebuilt table is at most half full: the live entries that
            // survive number at most half the (possibly doubled) capacity.
            if must_double {
                if old_cap == 1 {
                    assert(2 * (old(self).len as int) <= 2);
                }
            } else {
                lemma_fundamental_div_mod(old_cap as int, 4);
                lemma_mod_bound(old_cap as int, 4);
            }
        }
        // Drain: take every live entry out, null every slot.
        proof {
            assert_sets_equal!(live_below(b0, 0), Set::<int>::empty());
        }
        let mut v: Vec<MarkedElt> = Vec::new();
        let ghost mut src: Seq<int> = Seq::empty();
        let mut i: usize = 0;
        while i < old_cap
            invariant
                old_cap == self.buckets@.len(),
                i <= old_cap,
                forall|s: int| 0 <= s < i ==> self.buckets@[s].spec_is_null(),
                forall|s: int| i <= s < old_cap ==> self.buckets@[s] == b0[s],
                b0.len() == old_cap,
                src.len() == v@.len(),
                forall|q: int|
                    0 <= q < src.len() ==> 0 <= #[trigger] src[q] < i && b0[src[q]].is_live()
                        && v@[q] == b0[src[q]],
                forall|q1: int, q2: int| 0 <= q1 < q2 < src.len() ==> src[q1] < src[q2],
                forall|s: int|
                    0 <= s < i && b0[s].is_live() ==> exists|q: int|
                        0 <= q < src.len() && #[trigger] src[q] == s,
                live_below(b0, i as int).finite(),
                v@.len() == live_below(b0, i as int).len(),
            decreases old_cap - i,
        {
            let e = self.buckets[i];
            self.buckets.set(i, MarkedElt::null());
            let ghost src0 = src;
            let ghost v0 = v@;
            if !e.is_null() && !e.is_tombstone() {
                v.push(e);
                proof {
                    src = src0.push(i as int);
                }
            }
            proof {
                if b0[i as int].is_live() {
                    assert_sets_equal!(live_below(b0, i + 1), live_below(b0, i as int).insert(i as int));
                    axiom_set_insert_len(live_below(b0, i as int), i as int);
                    assert forall|s: int|
                        0 <= s < i + 1 && b0[s].is_live() implies exists|q: int|
                        0 <= q < src.len() && #[trigger] src[q] == s by {
                        if s == i as int {
                            assert(src[src.len() - 1] == s);
                        } else {
                            let q = choose|q: int| 0 <= q < src0.len() && #[trigger] src0[q] == s;
                            assert(src[q] == s);
                        }
                    }
                } else {
                    assert_sets_equal!(live_below(b0, i + 1), live_below(b0, i as int));
                }
            }
            i = i + 1;
        }
        proof {
            assert_sets_equal!(live_below(b0, old_cap as int), live_idx(b0));
            assert(v@.len() == old(self).len);
        }
        // Grow the array if tombstones were not the dominant occupant.
        if must_double {
            let mut j: usize = 0;
            while j < old_cap
                invariant
                    j <= old_cap,
                    self.buckets@.len() == old_cap + j,
                    forall|s: int| 0 <= s < self.buckets@.len() ==> self.buckets@[s].spec_is_null(),
                decreases old_cap - j,
            {
                self.buckets.push(MarkedElt::null());
                j = j + 1;
            }
        }
        self.set = 0;
        self.len = 0;
        let ghost cap2 = self.buckets@.len() as int;
        proof {
            let b2 = self.buckets@;
            if must_double {
                lemma_pow2_double(old_cap as int);
            }
            assert_sets_equal!(nonnull_idx(b2), Set::<int>::empty());
            assert_sets_equal!(live_idx(b2), Set::<int>::empty());
            assert forall|i2: int, j2: int|
                0 <= i2 < b2.len() && 0 <= j2 < b2.len() && #[trigger] b2[i2].is_live()
                    && #[trigger] b2[j2].is_live() && b2[i2].prefix == b2[j2].prefix
                implies i2 == j2 by {
                assert(b2[i2].spec_is_null());
            }
            assert forall|i2: int| 0 <= i2 < b2.len() && #[trigger] b2[i2].is_live()
                implies chain_ok(b2, i2) by {
                assert(b2[i2].spec_is_null());
            }
            let e: Map<u64, MarkedRef> = Map::empty();
            assert_maps_equal!(table_map(b2), e, k => {
                if has_key(b2, k) {
                    let i2 = choose|i2: int| 0 <= i2 < b2.len() && #[trigger] b2[i2].is_live()
                        && b2[i2].prefix == k;
                    assert(b2[i2].spec_is_null());
                }
            });
            assert(self.wf());
            // At most half full once everything is back in.
            assert(2 * v@.len() <= cap2);
            // The extracted entries are live and carry distinct keys.
            assert forall|q2: int| 0 <= q2 < v@.len() implies #[trigger] v@[q2].is_live() by {
                assert(v@[q2] == b0[src[q2]]);
            }
            assert forall|q1: int, q2: int| 0 <= q1 < q2 < v@.len() implies #[trigger] v@[q1].prefix
                != #[trigger] v@[q2].prefix by {
                if v@[q1].prefix == v@[q2].prefix {
                    assert(b0[src[q1]].is_live() && b0[src[q2]].is_live() && b0[src[q1]].prefix
                        == b0[src[q2]].prefix);
                    assert(src[q1] == src[q2]);
                }
            }
        }
        // Reinsert: the table is clean, so nothing collides and no further
        // growth can trigger.
        let mut q: usize = 0;
        while q < v.len()
            invariant
                self.wf(),
                self.cap() == cap2,
                cap2 > 0,
                q <= v@.len(),
                self.len == q,
                self.set == q,
                2 * v@.len() <= cap2,
                prefixes_distinct(v@),
                forall|q2: int| 0 <= q2 < v@.len() ==> #[trigger] v@[q2].is_live(),
                self.contents() == seq_to_map(v@.take(q as int)),
            decreases v@.len() - q,
        {
            let t = v[q];
            proof {
                lemma_seq_to_map_dom(v@.take(q as int), t.prefix);
                if self.contents().dom().contains(t.prefix) {
                    let q2 = choose|q2: int|
                        0 <= q2 < v@.take(q as int).len() && #[trigger] v@.take(
                            q as int,
                        )[q2].prefix == t.prefix;
                    assert(v@[q2].prefix == v@[q as int].prefix);
                    assert(false);
                }
            }
            let r = self.place(t);
            proof {
                lemma_seq_to_map_take(v@, q as int);
            }
            q = q + 1;
        }
        proof {
            assert(v@.take(v@.len() as int) =~= v@);
            // What was reinserted is exactly what the old table held.
            assert_maps_equal!(seq_to_map(v@), table_map(b0), k => {
                lemma_seq_to_map_dom(v@, k);
                if seq_to_map(v@).dom().contains(k) {
                    let qk = choose|qk: int| 0 <= qk < v@.len() && #[trigger] v@[qk].prefix == k;
                    assert(b0[src[qk]].is_live() && b0[src[qk]].prefix == k);
                    assert(has_key(b0, k));
                    lemma_seq_to_map_at(v@, qk);
                    lemma_live_slot_contents(b0, src[qk]);
                }
                if has_key(b0, k) {
                    let ik = choose|ik: int| 0 <= ik < b0.len() && #[trigger] b0[ik].is_live()
                        && b0[ik].prefix == k;
                    let qk = choose|qk: int| 0 <= qk < src.len() && #[trigger] src[qk] == ik;
                    assert(v@[qk].prefix == k);
                    assert(seq_to_map(v@).dom().contains(k));
                }
            });
        }
    }

    /// Record `t`'s reference under its key, growing or compacting first if
    /// the occupied slots have reached half the capacity.  A fresh key is
    /// added (`Ok`); a key already present has its old entry swapped out and
    /// returned (`Err`), leaving the live and occupied counts alone.
    pub fn insert(&mut self, t: MarkedElt) -> (r: Result<(), MarkedElt>)
        requires
            old(self).wf(),
            t.is_live(),
            old(self).set < usize::MAX / 4,
        ensures
            final(self).wf(),
            final(self).contents() == old(self).contents().insert(t.prefix, t.ptr),
            match r {
                Ok(()) => !old(self).contents().dom().contains(t.prefix) && final(self).len as int
                    == old(self).len as int + 1,
                Err(e) => old(self).contents().dom().contains(t.prefix) && e.prefix == t.prefix
                    && e.ptr == old(self).contents()[t.prefix] && final(self).len == old(self).len,
            },
            (old(self).set as int) < old(self).cap() / 2 ==> final(self).cap() == old(self).cap()
                && (r is Err ==> final(self).set == old(self).set) && (r is Ok
                ==> final(self).set as int <= old(self).set as int + 1),
    {
        if self.set >= self.buckets.len() / 2 {
            proof {
                let cap = old(self).cap();
                if cap >= 2 {
                    lemma_pow2_even(cap);
                    assert(cap <= 2 * (old(self).set as int));
                }
            }
            self.grow();
        } else {
            proof {
                let cap = old(self).cap();
                assert(cap >= 1);
                lemma_pow2_even_ge2(cap, old(self).set as int);
            }
        }
        self.place(t)
    }
}

/// A table whose occupied count is strictly below half its (integer-halved)
/// capacity is strictly below half in exact arithmetic too.
proof fn lemma_pow2_even_ge2(cap: int, set: int)
    requires
        is_pow2(cap),
        set >= 0,
        set < cap / 2,
    ensures
        cap >= 2,
        2 * set <= cap - 2,
{
    lemma_pow2_is_pos(cap);
    if cap == 1 {
        assert(cap / 2 == 0);
    }
    lemma_pow2_even(cap);
}

/// A power of two of at least two is even, and halving it is exact.
proof fn lemma_pow2_even(cap: int)
    requires
        is_pow2(cap),
        cap >= 2,
    ensures
        cap == 2 * (cap / 2),
{
    let k = choose|k: nat| cap == pow2(k);
    if k == 0 {
        vstd::arithmetic::power2::lemma2_to64();
        assert(false);
    }
    vstd::arithmetic::power2::lemma_pow2_unfold(k);
    let h = pow2((k - 1) as nat) as int;
    assert(cap == 2 * h);
    assert(cap / 2 == h) by (nonlinear_arith)
        requires
            cap == 2 * h,
            h >= 0,
    ;
}

/// A power of two that fits in `usize` leaves room to sum two reduced values
/// in a `u64`.
proof fn lemma_cap_fits(cap: int)
    requires
        is_pow2(cap),
        cap <= usize::MAX as int,
    ensures
        1 <= cap <= 0x8000_0000_0000_0000,
{
    lemma_pow2_is_pos(cap);
    let k = choose|k: nat| cap == pow2(k);
    if cap > 0x8000_0000_0000_0000 {
        vstd::arithmetic::power2::lemma2_to64_rest();
        assert(pow2(63) == 0x8000_0000_0000_0000);
        assert(pow2(64) == 0x10000000000000000);
        if k < 63 {
            vstd::arithmetic::power2::lemma_pow2_strictly_increases(k, 63);
        } else if k == 63 {
        } else {
            if k > 64 {
                vstd::arithmetic::power2::lemma_pow2_strictly_increases(64, k);
            }
            assert(cap >= 0x10000000000000000);
        }
        assert(false);
    }
}

/// Slot `j` lies on the probe chain of key `k`: some attempt lands on it and
/// every earlier attempt lands on a non-null slot.
pub open spec fn on_clear_chain(b: Seq<MarkedElt>, k: u64, j: int) -> bool {
    exists|n: int|
        0 <= n < b.len() && #[trigger] probe_ix(fnv_of(k), b.len() as int, n) == j
            && forall|m: int|
            0 <= m < n ==> !b[#[trigger] probe_ix(fnv_of(k), b.len() as int, m)].spec_is_null()
}

/// The first `n` probe attempts for `k` all hit slots that are occupied and
/// do not hold `k` live: a probe search passes them without stopping.
pub open spec fn probes_miss(b: Seq<MarkedElt>, k: u64, n: int) -> bool {
    forall|m: int|
        0 <= m < n ==> !b[#[trigger] probe_ix(fnv_of(k), b.len() as int, m)].spec_is_null() && !(
        b[probe_ix(fnv_of(k), b.len() as int, m)].is_live() && b[probe_ix(
            fnv_of(k),
            b.len() as int,
            m,
        )].prefix == k)
}

/// If a probe search for `k` ran `n` misses and then either exhausted the
/// table or hit a null slot, then `k` is not in the table: a live entry for
/// `k` would be reachable by its own chain, which these facts contradict.
proof fn lemma_miss_absent(b: Seq<MarkedElt>, k: u64, n: int)
    requires
        b.len() > 0,
        forall|i: int| 0 <= i < b.len() && #[trigger] b[i].is_live() ==> chain_ok(b, i),
        probes_miss(b, k, n),
        0 <= n <= b.len(),
        n == b.len() || b[probe_ix(fnv_of(k), b.len() as int, n)].spec_is_null(),
    ensures
        !has_key(b, k),
{
    let cap = b.len() as int;
    let h = fnv_of(k);
    if has_key(b, k) {
        let i = choose|i: int| 0 <= i < b.len() && #[trigger] b[i].is_live() && b[i].prefix == k;
        assert(b[i].is_live());
        assert(chain_ok(b, i));
        let ni = choose|nn: int|
            0 <= nn < b.len() && #[trigger] probe_ix(fnv_of(b[i].prefix), b.len() as int, nn) == i
                && forall|m: int|
                0 <= m < nn ==> !b[#[trigger] probe_ix(
                    fnv_of(b[i].prefix),
                    b.len() as int,
                    m,
                )].spec_is_null();
        assert(probe_ix(h, cap, ni) == i);
        if ni < n {
            assert(!(b[probe_ix(h, cap, ni)].is_live() && b[probe_ix(h, cap, ni)].prefix == k));
            assert(false);
        } else if ni == n {
            assert(n < b.len());
            assert(b[probe_ix(h, cap, n)].spec_is_null());
            assert(false);
        } else {
            assert(n < ni);
            assert(!b[probe_ix(fnv_of(b[i].prefix), b.len() as int, n)].spec_is_null());
            assert(false);
        }
    }
}

/// A live slot is recorded in the table's map under its own key.
pub proof fn lemma_live_slot_contents(b: Seq<MarkedElt>, i: int)
    requires
        0 <= i < b.len(),
        keys_unique(b),
        b[i].is_live(),
    ensures
        has_key(b, b[i].prefix),
        slot_of(b, b[i].prefix) == i,
        table_map(b).dom().contains(b[i].prefix),
        table_map(b)[b[i].prefix] == b[i].ptr,
{
    let k = b[i].prefix;
    assert(has_key(b, k));
    let i2 = slot_of(b, k);
    assert(0 <= i2 < b.len() && b[i2].is_live() && b[i2].prefix == k);
    assert(i2 == i);
}

/// Writing a non-live value over a slot keeps every other live entry
/// reachable and keeps live keys unique; the table's map loses exactly the
/// overwritten key.
proof fn lemma_map_delete(b: Seq<MarkedElt>, j: int, e: MarkedElt)
    requires
        0 <= j < b.len(),
        keys_unique(b),
        b[j].is_live(),
        !e.is_live(),
    ensures
        keys_unique(b.update(j, e)),
        table_map(b.update(j, e)) == table_map(b).remove(b[j].prefix),
{
    let b2 = b.update(j, e);
    let kj = b[j].prefix;
    assert forall|k2: u64| has_key(b2, k2) implies has_key(b, k2) && k2 != kj by {
        let i = choose|i: int| 0 <= i < b2.len() && #[trigger] b2[i].is_live() && b2[i].prefix
            == k2;
        assert(i != j);
        assert(b[i].is_live() && b[i].prefix == k2);
        if k2 == kj {
            assert(b[i].is_live() && b[j].is_live() && b[i].prefix == b[j].prefix);
            assert(false);
        }
    }
    assert forall|k2: u64| has_key(b, k2) && k2 != kj implies has_key(b2, k2) by {
        let i = choose|i: int| 0 <= i < b.len() && #[trigger] b[i].is_live() && b[i].prefix == k2;
        assert(i != j);
        assert(b2[i].is_live() && b2[i].prefix == k2);
    }
    assert_maps_equal!(table_map(b2), table_map(b).remove(kj), k2 => {
        if table_map(b2).dom().contains(k2) {
            let i = slot_of(b2, k2);
            assert(0 <= i < b2.len() && b2[i].is_live() && b2[i].prefix == k2);
            assert(i != j);
            lemma_live_slot_contents(b, i);
            lemma_live_slot_contents(b2, i);
        }
    });
}

/// Writing a live entry with a fresh key into a non-live slot keeps live
/// keys unique and adds exactly that pair to the table's map.
proof fn lemma_map_write_new(b: Seq<MarkedElt>, j: int, t: MarkedElt)
    requires
        0 <= j < b.len(),
        keys_unique(b),
        !has_key(b, t.prefix),
        !b[j].is_live(),
        t.is_live(),
    ensures
        keys_unique(b.update(j, t)),
        table_map(b.update(j, t)) == table_map(b).insert(t.prefix, t.ptr),
{
    let b2 = b.update(j, t);
    assert forall|i1: int, i2: int|
        0 <= i1 < b2.len() && 0 <= i2 < b2.len() && #[trigger] b2[i1].is_live()
            && #[trigger] b2[i2].is_live() && b2[i1].prefix == b2[i2].prefix implies i1 == i2 by {
        if i1 != j && i2 != j {
            assert(b[i1].is_live() && b[i2].is_live() && b[i1].prefix == b[i2].prefix);
        } else if i1 == j && i2 != j {
            assert(b[i2].is_live() && b[i2].prefix == t.prefix);
            assert(false);
        } else if i1 != j && i2 == j {
            assert(b[i1].is_live() && b[i1].prefix == t.prefix);
            assert(false);
        }
    }
    assert_maps_equal!(table_map(b2), table_map(b).insert(t.prefix, t.ptr), k2 => {
        if k2 == t.prefix {
            lemma_live_slot_contents(b2, j);
        } else {
            if has_key(b2, k2) {
                let i = choose|i: int| 0 <= i < b2.len() && #[trigger] b2[i].is_live()
                    && b2[i].prefix == k2;
                assert(i != j);
                assert(b[i].is_live() && b[i].prefix == k2);
                lemma_live_slot_contents(b, i);
                lemma_live_slot_contents(b2, i);
            }
            if has_key(b, k2) {
                let i = choose|i: int| 0 <= i < b.len() && #[trigger] b[i].is_live()
                    && b[i].prefix == k2;
                assert(i != j);
                assert(b2[i].is_live() && b2[i].prefix == k2);
            }
        }
    });
}

/// Overwriting the live slot that already holds a key keeps live keys unique
/// and updates exactly that key's reference in the table's map.
proof fn lemma_map_overwrite(b: Seq<MarkedElt>, j: int, t: MarkedElt)
    requires
        0 <= j < b.len(),
        keys_unique(b),
        b[j].is_live(),
        b[j].prefix == t.prefix,
        t.is_live(),
    ensures
        keys_unique(b.update(j, t)),
        table_map(b.update(j, t)) == table_map(b).insert(t.prefix, t.ptr),
{
    let b2 = b.update(j, t);
    assert forall|i1: int, i2: int|
        0 <= i1 < b2.len() && 0 <= i2 < b2.len() && #[trigger] b2[i1].is_live()
            && #[trigger] b2[i2].is_live() && b2[i1].prefix == b2[i2].prefix implies i1 == i2 by {
        if i1 != j && i2 != j {
            assert(b[i1].is_live() && b[i2].is_live() && b[i1].prefix == b[i2].prefix);
        } else if i1 == j && i2 != j {
            assert(b[i2].is_live() && b[i2].prefix == b[j].prefix);
        } else if i1 != j && i2 == j {
            assert(b[i1].is_live() && b[i1].prefix == b[j].prefix);
        }
    }
    assert_maps_equal!(table_map(b2), table_map(b).insert(t.prefix, t.ptr), k2 => {
        if k2 == t.prefix {
            lemma_live_slot_contents(b2, j);
        } else {
            if has_key(b2, k2) {
                let i = choose|i: int| 0 <= i < b2.len() && #[trigger] b2[i].is_live()
                    && b2[i].prefix == k2;
                assert(i != j);
                assert(b[i].is_live() && b[i].prefix == k2);
                lemma_live_slot_contents(b, i);
                lemma_live_slot_contents(b2, i);
            }
            if has_key(b, k2) {
                let i = choose|i: int| 0 <= i < b.len() && #[trigger] b[i].is_live()
                    && b[i].prefix == k2;
                assert(i != j);
                assert(b2[i].is_live() && b2[i].prefix == k2);
            }
        }
    });
}

/// If a probe search for `k` passed every slot, then every slot is occupied:
/// the first `cap` attempts land on `cap` distinct slots, so the table holds
/// at least `cap` occupied slots.  A half-empty table therefore always stops
/// a search early.
proof fn lemma_full_scan_card(b: Seq<MarkedElt>, k: u64)
    requires
        b.len() > 0,
        is_pow2(b.len() as int),
        probes_miss(b, k, b.len() as int),
    ensures
        b.len() <= nonnull_idx(b).len(),
{
    let cap = b.len() as int;
    let h = fnv_of(k);
    let g = |m: int| probe_ix(h, cap, m);
    lemma_idx_card(b);
    assert forall|m: int| 0 <= m < cap implies nonnull_idx(b).contains(#[trigger] g(m)) by {
        lemma_probe_in_range(h, cap, m);
        assert(!b[probe_ix(h, cap, m)].spec_is_null());
    }
    assert forall|m1: int, m2: int| 0 <= m1 < m2 < cap implies #[trigger] g(m1) != #[trigger] g(
        m2,
    ) by {
        lemma_probe_distinct(h, cap, m1, m2);
    }
    lemma_injection_le_card(g, nonnull_idx(b), cap);
}

/// A live entry stays reachable when slots only become more occupied.
proof fn lemma_chain_preserved(b: Seq<MarkedElt>, b2: Seq<MarkedElt>, i: int)
    requires
        b2.len() == b.len(),
        0 <= i < b.len(),
        chain_ok(b, i),
        b2[i].prefix == b[i].prefix,
        forall|s: int| 0 <= s < b.len() && !b[s].spec_is_null() ==> !b2[s].spec_is_null(),
    ensures
        chain_ok(b2, i),
{
    let h = fnv_of(b[i].prefix);
    let cap = b.len() as int;
    let n = choose|nn: int|
        0 <= nn < b.len() && #[trigger] probe_ix(fnv_of(b[i].prefix), b.len() as int, nn) == i
            && forall|m: int|
            0 <= m < nn ==> !b[#[trigger] probe_ix(
                fnv_of(b[i].prefix),
                b.len() as int,
                m,
            )].spec_is_null();
    assert forall|m: int| 0 <= m < n implies !b2[#[trigger] probe_ix(
        fnv_of(b2[i].prefix),
        b2.len() as int,
        m,
    )].spec_is_null() by {
        lemma_probe_in_range(h, cap, m);
        assert(!b[probe_ix(h, cap, m)].spec_is_null());
    }
    assert(probe_ix(fnv_of(b2[i].prefix), b2.len() as int, n) == i);
}

/// A freshly written live entry is reachable if it sits on a clear chain for
/// its key.
proof fn lemma_chain_new(b: Seq<MarkedElt>, b2: Seq<MarkedElt>, k: u64, j: int)
    requires
        b2.len() == b.len(),
        0 <= j < b.len(),
        on_clear_chain(b, k, j),
        b2[j].prefix == k,
        forall|s: int| 0 <= s < b.len() && !b[s].spec_is_null() ==> !b2[s].spec_is_null(),
    ensures
        chain_ok(b2, j),
{
    let h = fnv_of(k);
    let cap = b.len() as int;
    let n = choose|nn: int|
        0 <= nn < b.len() && #[trigger] probe_ix(fnv_of(k), b.len() as int, nn) == j
            && forall|m: int|
            0 <= m < nn ==> !b[#[trigger] probe_ix(fnv_of(k), b.len() as int, m)].spec_is_null();
    assert forall|m: int| 0 <= m < n implies !b2[#[trigger] probe_ix(
        fnv_of(b2[j].prefix),
        b2.len() as int,
        m,
    )].spec_is_null() by {
        lemma_probe_in_range(h, cap, m);
        assert(!b[probe_ix(h, cap, m)].spec_is_null());
    }
    assert(probe_ix(fnv_of(b2[j].prefix), b2.len() as int, n) == j);
}

/// Indices below `i` whose slot is live: the part of `live_idx` a left-to-
/// right scan has already passed.
pub open spec fn live_below(b: Seq<MarkedElt>, i: int) -> Set<int> {
    Set::new(|s: int| 0 <= s < i && b[s].is_live())
}

/// No two entries of the sequence share a key.
pub open spec fn prefixes_distinct(v: Seq<MarkedElt>) -> bool {
    forall|q1: int, q2: int|
        0 <= q1 < q2 < v.len() ==> #[trigger] v[q1].prefix != #[trigger] v[q2].prefix
}

/// The map described by a sequence of entries, later entries winning.
pub open spec fn seq_to_map(v: Seq<MarkedElt>) -> Map<u64, MarkedRef>
    decreases v.len(),
{
    if v.len() == 0 {
        Map::empty()
    } else {
        seq_to_map(v.drop_last()).insert(v.last().prefix, v.last().ptr)
    }
}

/// A key is in the described map exactly when some entry carries it.
proof fn lemma_seq_to_map_dom(v: Seq<MarkedElt>, k: u64)
    ensures
        seq_to_map(v).dom().contains(k) <==> exists|q: int|
            0 <= q < v.len() && #[trigger] v[q].prefix == k,
    decreases v.len(),
{
    if v.len() == 0 {
    } else {
        let w = v.drop_last();
        lemma_seq_to_map_dom(w, k);
        if seq_to_map(v).dom().contains(k) {
            if k == v.last().prefix {
                assert(v[v.len() - 1].prefix == k);
            } else {
                let q = choose|q: int| 0 <= q < w.len() && #[trigger] w[q].prefix == k;
                assert(v[q].prefix == k);
            }
        }
        if exists|q: int| 0 <= q < v.len() && #[trigger] v[q].prefix == k {
            let q = choose|q: int| 0 <= q < v.len() && #[trigger] v[q].prefix == k;
            if q == v.len() - 1 {
                assert(seq_to_map(v).dom().contains(k));
            } else {
                assert(w[q].prefix == k);
            }
        }
    }
}

/// With distinct keys, each entry's own pair is in the described map.
proof fn lemma_seq_to_map_at(v: Seq<MarkedElt>, q: int)
    requires
        prefixes_distinct(v),
        0 <= q < v.len(),
    ensures
        seq_to_map(v).dom().contains(v[q].prefix),
        seq_to_map(v)[v[q].prefix] == v[q].ptr,
    decreases v.len(),
{
    let w = v.drop_last();
    if q == v.len() - 1 {
    } else {
        assert(prefixes_distinct(w)) by {
            assert forall|q1: int, q2: int| 0 <= q1 < q2 < w.len() implies #[trigger] w[q1].prefix
                != #[trigger] w[q2].prefix by {
                assert(v[q1].prefix != v[q2].prefix);
            }
        }
        lemma_seq_to_map_at(w, q);
        assert(v[q].prefix != v.last().prefix);
        assert(w[q] == v[q]);
    }
}

/// Taking one more entry extends the described map by that entry's pair.
proof fn lemma_seq_to_map_take(v: Seq<MarkedElt>, q: int)
    requires
        0 <= q < v.len(),
    ensures
        seq_to_map(v.take(q + 1)) == seq_to_map(v.take(q)).insert(v[q].prefix, v[q].ptr),
{
    let u = v.take(q + 1);
    assert(u.len() == q + 1);
    assert(u.drop_last() =~= v.take(q));
    assert(u.last() == v[q]);
}

/// The capacity invariant: however the table was driven here, the live count
/// never exceeds the occupied count, the occupied count never exceeds the
/// number of buckets, and the number of buckets is zero or a power of two.
pub proof fn lemma_capacity_invariant(t: DenseHashTable)
    requires
        t.wf(),
    ensures
        t.len <= t.set,
        t.set as int <= t.buckets@.len(),
        t.buckets@.len() == 0 || is_pow2(t.buckets@.len() as int),
{
}

/// Finiteness and mutual bounds of the index sets.
pub proof fn lemma_idx_card(b: Seq<MarkedElt>)
    ensures
        nonnull_idx(b).finite(),
        live_idx(b).finite(),
        live_idx(b).len() <= nonnull_idx(b).len(),
        nonnull_idx(b).len() <= b.len(),
{
    lemma_int_range(0, b.len() as int);
    let range = vstd::set_lib::set_int_range(0, b.len() as int);
    assert forall|i: int| nonnull_idx(b).contains(i) implies range.contains(i) by {}
    assert(nonnull_idx(b).subset_of(range));
    lemma_len_subset(nonnull_idx(b), range);
    assert forall|i: int| live_idx(b).contains(i) implies nonnull_idx(b).contains(i) by {}
    assert(live_idx(b).subset_of(nonnull_idx(b)));
    lemma_len_subset(live_idx(b), nonnull_idx(b));
}

} // verus!
