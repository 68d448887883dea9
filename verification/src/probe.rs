use vstd::prelude::*;
use vstd::arithmetic::div_mod::{
    lemma_add_mod_noop, lemma_fundamental_div_mod, lemma_mod_bound, lemma_mod_equivalence,
    lemma_mod_multiples_basic, lemma_mod_multiples_vanish, lemma_mul_mod_noop, lemma_small_mod,
};
use vstd::arithmetic::power2::{lemma2_to64, lemma_pow2_pos, lemma_pow2_unfold, pow2};
use vstd::set::{axiom_set_remove_finite, axiom_set_remove_len};

verus! {

/// The i-th triangular number: the probe offset used at attempt `i`.
/// Consecutive offsets differ by `i`, which is what makes the quadratic
/// ("triangular") probe sequence cheap to step.
pub open spec fn tri(i: int) -> int
    decreases i,
{
    if i <= 0 {
        0
    } else {
        tri(i - 1) + i
    }
}

/// The slot probed at attempt `i` for hash `h` in a table of `cap` slots.
pub open spec fn probe_ix(h: u64, cap: int, i: int) -> int
    recommends
        cap > 0,
        i >= 0,
{
    (h + tri(i)) % cap
}

pub open spec fn is_pow2(n: int) -> bool {
    exists|k: nat| n == pow2(k)
}

pub proof fn lemma_tri_nonneg(i: int)
    ensures
        tri(i) >= 0,
    decreases i,
{
    if i > 0 {
        lemma_tri_nonneg(i - 1);
    }
}

/// Twice a triangular number has the familiar closed form.
pub proof fn lemma_tri_double(i: int)
    requires
        i >= 0,
    ensures
        2 * tri(i) == i * (i + 1),
    decreases i,
{
    if i > 0 {
        lemma_tri_double(i - 1);
        assert(tri(i) == tri(i - 1) + i);
        assert(2 * tri(i) == i * (i + 1)) by (nonlinear_arith)
            requires
                i > 0,
                tri(i) == tri(i - 1) + i,
                2 * tri(i - 1) == (i - 1) * ((i - 1) + 1),
        ;
    } else {
        assert(tri(i) == 0);
        assert(2 * tri(i) == i * (i + 1)) by (nonlinear_arith)
            requires
                i == 0,
                tri(i) == 0,
        ;
    }
}

pub proof fn lemma_probe_in_range(h: u64, cap: int, i: int)
    requires
        cap > 0,
        i >= 0,
    ensures
        0 <= probe_ix(h, cap, i) < cap,
{
    lemma_tri_nonneg(i);
    lemma_mod_bound(h + tri(i), cap);
}

/// If an odd number times `s` is a multiple of a power of two, then `s`
/// itself is that multiple: the odd factor contributes nothing.
proof fn lemma_odd_factor_pow2(m: nat, d: int, s: int)
    requires
        d >= 0,
        s >= 0,
        d % 2 == 1,
        (d * s) % (pow2(m) as int) == 0,
    ensures
        s % (pow2(m) as int) == 0,
    decreases m,
{
    let p = pow2(m) as int;
    lemma_pow2_pos(m);
    if m == 0 {
        lemma2_to64();
        lemma_mod_multiples_basic(s, 1);
    } else {
        let half = pow2((m - 1) as nat) as int;
        lemma_pow2_pos((m - 1) as nat);
        lemma_pow2_unfold(m);
        assert(p == 2 * half);
        // d * s is a multiple of p, hence even.
        lemma_fundamental_div_mod(d * s, p);
        let q = (d * s) / p;
        assert(d * s == p * q);
        assert(d * s == (half * q) * 2) by (nonlinear_arith)
            requires
                d * s == (2 * half) * q,
        ;
        lemma_mod_multiples_basic(half * q, 2);
        assert((d * s) % 2 == 0);
        // d odd and d * s even force s even.
        lemma_mul_mod_noop(d, s, 2);
        lemma_mod_bound(s, 2);
        if s % 2 == 1 {
            assert((1int * 1int) % 2 == 1);
            assert(false);
        }
        lemma_fundamental_div_mod(s, 2);
        let s2 = s / 2;
        assert(s == 2 * s2);
        assert(d * s2 == half * q) by (nonlinear_arith)
            requires
                d * (2 * s2) == (2 * half) * q,
        ;
        lemma_mod_multiples_basic(q, half);
        assert((q * half) % half == 0);
        assert(q * half == d * s2) by (nonlinear_arith)
            requires
                d * s2 == half * q,
        ;
        assert(s2 >= 0) by (nonlinear_arith)
            requires
                s >= 0,
                s == 2 * s2,
        ;
        lemma_odd_factor_pow2((m - 1) as nat, d, s2);
        lemma_fundamental_div_mod(s2, half);
        let q2 = s2 / half;
        assert(s2 == half * q2);
        assert(s == p * q2) by (nonlinear_arith)
            requires
                s == 2 * s2,
                s2 == half * q2,
                p == 2 * half,
        ;
        lemma_mod_multiples_basic(q2, p);
        assert((q2 * p) % p == 0);
        assert(q2 * p == s) by (nonlinear_arith)
            requires
                s == p * q2,
        ;
    }
}

/// Over a power-of-two table, the first `cap` triangular probes for one hash
/// all land on distinct slots.
pub proof fn lemma_probe_distinct(h: u64, cap: int, i: int, j: int)
    requires
        is_pow2(cap),
        0 <= i < j < cap,
    ensures
        probe_ix(h, cap, i) != probe_ix(h, cap, j),
{
    lemma_pow2_is_pos(cap);
    if probe_ix(h, cap, i) == probe_ix(h, cap, j) {
        let a = h + tri(i);
        let b = h + tri(j);
        lemma_mod_equivalence(b, a, cap);
        assert((b - a) % cap == 0);
        let diff = tri(j) - tri(i);
        assert(diff == b - a);
        lemma_fundamental_div_mod(diff, cap);
        let q = diff / cap;
        assert(diff == cap * q);
        let d = j - i;
        let s = i + j + 1;
        lemma_tri_double(i);
        lemma_tri_double(j);
        assert(2 * diff == d * s) by (nonlinear_arith)
            requires
                2 * tri(i) == i * (i + 1),
                2 * tri(j) == j * (j + 1),
                diff == tri(j) - tri(i),
                d == j - i,
                s == i + j + 1,
        ;
        let cap2 = 2 * cap;
        let k = choose|k: nat| cap == pow2(k);
        lemma_pow2_unfold(k + 1);
        assert(cap2 == pow2(k + 1));
        assert(d * s == q * cap2) by (nonlinear_arith)
            requires
                2 * diff == d * s,
                diff == cap * q,
                cap2 == 2 * cap,
        ;
        lemma_mod_multiples_basic(q, cap2);
        assert((d * s) % cap2 == 0);
        // d + s == 2 * j + 1 is odd, so exactly one of d, s is odd.
        lemma_mod_multiples_vanish(j, 1, 2);
        lemma_small_mod(1, 2);
        assert((d + s) % 2 == 1);
        lemma_add_mod_noop(d, s, 2);
        lemma_mod_bound(d, 2);
        lemma_mod_bound(s, 2);
        if d % 2 == 1 && s % 2 == 1 {
            assert((1int + 1int) % 2 == 0);
            assert(false);
        }
        if d % 2 == 0 && s % 2 == 0 {
            assert((0int + 0int) % 2 == 0);
            assert(false);
        }
        if d % 2 == 1 {
            lemma_odd_factor_pow2(k + 1, d, s);
            lemma_small_mod(s as nat, cap2 as nat);
            assert(false);
        } else {
            assert(s * d == d * s) by (nonlinear_arith);
            lemma_odd_factor_pow2(k + 1, s, d);
            lemma_small_mod(d as nat, cap2 as nat);
            assert(false);
        }
    }
}

/// A power of two is positive.
pub proof fn lemma_pow2_is_pos(n: int)
    requires
        is_pow2(n),
    ensures
        n >= 1,
{
    let k = choose|k: nat| n == pow2(k);
    lemma_pow2_pos(k);
}

/// Doubling a power of two gives a power of two.
pub proof fn lemma_pow2_double(n: int)
    requires
        is_pow2(n),
    ensures
        is_pow2(2 * n),
{
    let k = choose|k: nat| n == pow2(k);
    lemma_pow2_unfold(k + 1);
    assert(2 * n == pow2(k + 1));
}

/// One is a power of two (the capacity after the very first growth step).
pub proof fn lemma_one_is_pow2()
    ensures
        is_pow2(1),
{
    lemma2_to64();
    assert(1 == pow2(0));
}

/// If `g` maps `0..n` into the finite set `s` without collisions, then `s`
/// has at least `n` elements.
pub proof fn lemma_injection_le_card(g: spec_fn(int) -> int, s: Set<int>, n: int)
    requires
        n >= 0,
        s.finite(),
        forall|m: int| 0 <= m < n ==> s.contains(#[trigger] g(m)),
        forall|m1: int, m2: int| 0 <= m1 < m2 < n ==> #[trigger] g(m1) != #[trigger] g(m2),
    ensures
        n <= s.len(),
    decreases n,
{
    if n > 0 {
        let s2 = s.remove(g(n - 1));
        axiom_set_remove_len(s, g(n - 1));
        axiom_set_remove_finite(s, g(n - 1));
        assert forall|m: int| 0 <= m < n - 1 implies s2.contains(#[trigger] g(m)) by {
            assert(g(m) != g(n - 1));
        }
        lemma_injection_le_card(g, s2, n - 1);
    }
}

} // verus!
