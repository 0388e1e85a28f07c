//! The grid of single-precision magnitudes, and rounding to it.
//!
//! Without its sign bit, a single-precision pattern is a number from zero to
//! [`INFINITY`]. Read in order, these patterns name an increasing sequence of
//! magnitudes, each a whole multiple of the smallest positive one (2 to the
//! power -149). Every magnitude in this crate is counted in that unit, so the
//! grid is a map from integers to integers.
use vstd::arithmetic::power2::{lemma_pow2_pos, lemma_pow2_unfold, pow2};
use vstd::prelude::*;

verus! {

/// Patterns from one power of two to the next, above the subnormal range.
pub const BINADE: u32 = 0x80_0000;

/// The pattern after the largest finite one. As a magnitude it stands for the
/// power of two that follows the largest finite number.
pub const INFINITY: u32 = 0x7f80_0000;

/// The distance from pattern `m` to the next is 2 to this power.
pub open spec fn scale(m: nat) -> nat {
    if m < 2 * BINADE {
        0
    } else {
        (m / (BINADE as nat) - 1) as nat
    }
}

/// The magnitude that pattern `m` names is this integer, scaled.
pub open spec fn significand(m: nat) -> nat {
    (m - scale(m) * BINADE) as nat
}

/// The magnitude that pattern `m` names.
pub open spec fn magnitude(m: nat) -> nat {
    significand(m) * pow2(scale(m))
}

/// Twice the point halfway between the magnitudes of `m` and `m + 1`.
pub open spec fn doubled_midpoint(m: nat) -> nat {
    magnitude(m) + magnitude(m + 1)
}

/// Whether the number `n / d` is rounded to a pattern above `m`: it lies above
/// the midpoint that follows `m`, or on it and `m` is odd.
pub open spec fn passes(n: nat, d: nat, m: nat) -> bool {
    ||| 2 * n > d * doubled_midpoint(m)
    ||| 2 * n == d * doubled_midpoint(m) && m % 2 == 1
}

/// Whether `m` is the pattern nearest to `n / d`, with ties going to the even
/// pattern, and [`INFINITY`] standing for everything beyond the finite range.
pub open spec fn is_nearest(n: nat, d: nat, m: nat) -> bool {
    &&& m <= INFINITY
    &&& m > 0 ==> passes(n, d, (m - 1) as nat)
    &&& m < INFINITY ==> !passes(n, d, m)
}

/// The pattern nearest to `n / d`.
pub open spec fn nearest(n: nat, d: nat) -> nat {
    choose|m: nat| is_nearest(n, d, m)
}

/// Whether the square root of `n` is rounded to a pattern above `m`.
pub open spec fn root_passes(n: nat, m: nat) -> bool {
    ||| 4 * n > doubled_midpoint(m) * doubled_midpoint(m)
    ||| 4 * n == doubled_midpoint(m) * doubled_midpoint(m) && m % 2 == 1
}

/// Whether `m` is the pattern nearest to the square root of `n`.
pub open spec fn is_nearest_root(n: nat, m: nat) -> bool {
    &&& m <= INFINITY
    &&& m > 0 ==> root_passes(n, (m - 1) as nat)
    &&& m < INFINITY ==> !root_passes(n, m)
}

/// The pattern nearest to the square root of `n`.
pub open spec fn nearest_root(n: nat) -> nat {
    choose|m: nat| is_nearest_root(n, m)
}

/// A scale and a significand in the range that belongs to it compose to the
/// pattern of their product.
pub proof fn lemma_compose(s: nat, q: nat)
    requires
        q < 2 * BINADE,
        s == 0 || q >= BINADE,
    ensures
        scale(s * BINADE as nat + q) == s,
        significand(s * BINADE as nat + q) == q,
        magnitude(s * BINADE as nat + q) == q * pow2(s),
{
}

/// What is known of the parts of a pattern.
pub proof fn lemma_parts(m: nat)
    requires
        m <= INFINITY,
    ensures
        significand(m) < 2 * BINADE,
        scale(m) == 0 || significand(m) >= BINADE,
        m == scale(m) * BINADE + significand(m),
        scale(m) <= 254,
        m < INFINITY ==> scale(m) <= 253,
        m > 0 ==> significand(m) > 0,
{
}

/// Neighbouring magnitudes differ by the scale.
pub proof fn lemma_step(m: nat)
    ensures
        magnitude(m + 1) == magnitude(m) + pow2(scale(m)),
        magnitude(m) < magnitude(m + 1),
{
    let s = scale(m);
    let q = significand(m);
    lemma_pow2_pos(s);
    if scale(m + 1) == s {
        assert(significand(m + 1) == q + 1);
        assert((q + 1) * pow2(s) == q * pow2(s) + pow2(s)) by (nonlinear_arith);
    } else {
        assert(scale(m + 1) == s + 1);
        assert(significand(m + 1) == BINADE);
        assert(q == 2 * BINADE - 1);
        lemma_pow2_unfold(s + 1);
    }
}

/// Only the first pattern names zero.
pub proof fn lemma_zero(m: nat)
    ensures
        magnitude(0) == 0,
        magnitude(m) == 0 <==> m == 0,
{
    vstd::arithmetic::mul::lemma_mul_by_zero_is_zero(pow2(0) as int);
    if m > 0 {
        lemma_increasing(0, m);
    }
}

/// The grid increases.
pub proof fn lemma_increasing(a: nat, b: nat)
    requires
        a <= b,
    ensures
        magnitude(a) <= magnitude(b),
        a < b ==> magnitude(a) < magnitude(b),
    decreases b - a,
{
    if a < b {
        lemma_increasing(a, (b - 1) as nat);
        lemma_step((b - 1) as nat);
    }
}

/// Midpoints increase with their patterns.
pub proof fn lemma_midpoints_increase(a: nat, b: nat)
    requires
        a < b,
    ensures
        doubled_midpoint(a) < doubled_midpoint(b),
{
    lemma_increasing(a, b);
    lemma_increasing(a + 1, b + 1);
}

/// A larger number passes whatever a smaller one passes, and an earlier
/// pattern is passed by whatever passes a later one.
pub proof fn lemma_passes_monotone(n1: nat, d1: nat, a: nat, n2: nat, d2: nat, b: nat)
    requires
        d1 > 0,
        d2 > 0,
        n1 * d2 <= n2 * d1,
        b <= a,
        passes(n1, d1, a),
    ensures
        passes(n2, d2, b),
{
    let ma = doubled_midpoint(a);
    let mb = doubled_midpoint(b);
    if b < a {
        lemma_midpoints_increase(b, a);
    }
    assert(2 * n1 >= d1 * ma);
    assert(2 * n2 * d1 >= d1 * ma * d2) by (nonlinear_arith)
        requires
            2 * n1 >= d1 * ma,
            n1 * d2 <= n2 * d1,
            d2 > 0,
    ;
    assert(2 * n2 >= d2 * ma) by (nonlinear_arith)
        requires
            2 * n2 * d1 >= d1 * ma * d2,
            d1 > 0,
    ;
    if b < a {
        assert(d2 * ma > d2 * mb) by (nonlinear_arith)
            requires
                ma > mb,
                d2 > 0,
        ;
    } else if 2 * n2 == d2 * ma {
        assert(2 * n1 <= d1 * ma) by (nonlinear_arith)
            requires
                2 * n2 == d2 * ma,
                n1 * d2 <= n2 * d1,
                d2 > 0,
        ;
    }
}

/// Rounding is monotone; in particular no number has two nearest patterns.
pub proof fn lemma_nearest_monotone(n1: nat, d1: nat, m1: nat, n2: nat, d2: nat, m2: nat)
    requires
        d1 > 0,
        d2 > 0,
        n1 * d2 <= n2 * d1,
        is_nearest(n1, d1, m1),
        is_nearest(n2, d2, m2),
    ensures
        m1 <= m2,
{
    if m1 > m2 {
        lemma_passes_monotone(n1, d1, (m1 - 1) as nat, n2, d2, m2);
    }
}

/// Finds the nearest pattern at or after `m`.
proof fn lemma_nearest_from(n: nat, d: nat, m: nat)
    requires
        m <= INFINITY,
        m > 0 ==> passes(n, d, (m - 1) as nat),
    ensures
        exists|k: nat| is_nearest(n, d, k),
    decreases INFINITY - m,
{
    if m < INFINITY && passes(n, d, m) {
        lemma_nearest_from(n, d, m + 1);
    } else {
        assert(is_nearest(n, d, m));
    }
}

/// Every number has a nearest pattern.
pub proof fn lemma_nearest_exists(n: nat, d: nat)
    ensures
        is_nearest(n, d, nearest(n, d)),
{
    lemma_nearest_from(n, d, 0);
}

/// A pattern that is nearest is the nearest.
pub proof fn lemma_nearest_unique(n: nat, d: nat, m: nat)
    requires
        d > 0,
        is_nearest(n, d, m),
    ensures
        nearest(n, d) == m,
{
    lemma_nearest_exists(n, d);
    lemma_nearest_monotone(n, d, m, n, d, nearest(n, d));
    lemma_nearest_monotone(n, d, nearest(n, d), n, d, m);
}

/// No number has two nearest roots.
pub proof fn lemma_nearest_root_unique(n: nat, m: nat)
    requires
        is_nearest_root(n, m),
    ensures
        nearest_root(n) == m,
{
    let k = nearest_root(n);
    if k != m {
        let (a, b) = if k < m {
            (k, (m - 1) as nat)
        } else {
            (m, (k - 1) as nat)
        };
        let x = doubled_midpoint(a);
        let y = doubled_midpoint(b);
        if a < b {
            lemma_midpoints_increase(a, b);
            assert(x * x < y * y) by (nonlinear_arith)
                requires
                    x < y,
            ;
        }
    }
}

/// A number that lies between the magnitudes of a pattern and its successor is
/// settled by the midpoint between the two.
pub proof fn lemma_settle(n: nat, d: nat, m: nat, up: bool)
    requires
        d > 0,
        m < INFINITY,
        d * magnitude(m) <= n,
        n < d * magnitude(m + 1),
        up == passes(n, d, m),
    ensures
        is_nearest(n, d, if up { m + 1 } else { m }),
{
    if up {
        lemma_step(m);
        lemma_step(m + 1);
        assert(2 * n < d * doubled_midpoint(m + 1)) by (nonlinear_arith)
            requires
                n < d * magnitude(m + 1),
                magnitude(m + 1) < magnitude(m + 2),
                doubled_midpoint(m + 1) == magnitude(m + 1) + magnitude(m + 2),
                d > 0,
        ;
    } else if m > 0 {
        let p = (m - 1) as nat;
        lemma_step(p);
        assert(2 * n > d * doubled_midpoint(p)) by (nonlinear_arith)
            requires
                d * magnitude(m) <= n,
                magnitude(p) < magnitude(m),
                doubled_midpoint(p) == magnitude(p) + magnitude(m),
                d > 0,
        ;
    }
}

/// A number on the grid is its own rounding.
pub proof fn lemma_exact(n: nat, d: nat, m: nat)
    requires
        d > 0,
        m <= INFINITY,
        n == d * magnitude(m),
    ensures
        is_nearest(n, d, m),
        nearest(n, d) == m,
{
    if m > 0 {
        let p = (m - 1) as nat;
        lemma_step(p);
        assert(2 * n > d * doubled_midpoint(p)) by (nonlinear_arith)
            requires
                n == d * magnitude(m),
                magnitude(p) < magnitude(m),
                doubled_midpoint(p) == magnitude(p) + magnitude(m),
                d > 0,
        ;
    }
    lemma_step(m);
    assert(2 * n < d * doubled_midpoint(m)) by (nonlinear_arith)
        requires
            n == d * magnitude(m),
            magnitude(m) < magnitude(m + 1),
            doubled_midpoint(m) == magnitude(m) + magnitude(m + 1),
            d > 0,
    ;
    lemma_nearest_unique(n, d, m);
}

/// Everything at or beyond the end of the finite range is infinite.
pub proof fn lemma_overflow(n: nat, d: nat)
    requires
        d > 0,
        d * magnitude(INFINITY as nat) <= n,
    ensures
        is_nearest(n, d, INFINITY as nat),
{
    let p = (INFINITY - 1) as nat;
    lemma_step(p);
    assert(2 * n > d * doubled_midpoint(p)) by (nonlinear_arith)
        requires
            d * magnitude(INFINITY as nat) <= n,
            magnitude(p) < magnitude(INFINITY as nat),
            doubled_midpoint(p) == magnitude(p) + magnitude(INFINITY as nat),
            d > 0,
    ;
}

} // verus!
