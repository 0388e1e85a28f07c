//! Rounding of an intermediate result to the grid of magnitudes.
use vstd::arithmetic::div_mod::lemma_fundamental_div_mod;
use vstd::arithmetic::power2::{
    lemma_pow2_adds, lemma_pow2_pos, lemma_pow2_strictly_increases, lemma_pow2_unfold, pow2,
};
use vstd::bits::{lemma_u64_shl_is_mul, lemma_u64_shr_is_div};
use vstd::prelude::*;
use vstd::std_specs::bits::u64_leading_zeros;

use crate::grid::{
    is_nearest, lemma_compose, lemma_exact, lemma_overflow, lemma_settle, lemma_step, magnitude,
    BINADE, INFINITY,
};

verus! {

/// The part of 2 to the power `k` that is a whole number.
pub open spec fn whole(k: int) -> nat {
    if k > 0 {
        pow2(k as nat)
    } else {
        1
    }
}

/// Whether `n / d` is `sig` times 2 to the power `k` where `sticky` is false,
/// and lies strictly between that and the next multiple where it is true.
pub open spec fn located(n: nat, d: nat, sig: nat, k: int, sticky: bool) -> bool {
    let unit = d * whole(k);
    if sticky {
        sig * unit < n * whole(-k) < (sig + 1) * unit
    } else {
        n * whole(-k) == sig * unit
    }
}

/// The leading zeros of a positive word bound it from both sides.
pub proof fn lemma_leading_zeros(x: u64)
    requires
        x > 0,
    ensures
        0 <= u64_leading_zeros(x) < 64,
        pow2((63 - u64_leading_zeros(x)) as nat) <= x < pow2((64 - u64_leading_zeros(x)) as nat),
    decreases x,
{
    reveal(u64_leading_zeros);
    reveal(pow2);
    vstd::std_specs::bits::axiom_u64_leading_zeros(x);
    if x == 1 {
        assert(u64_leading_zeros(0) == 64);
        vstd::arithmetic::power2::lemma2_to64();
    } else {
        let h = x / 2;
        lemma_leading_zeros(h);
        lemma_pow2_unfold((63 - u64_leading_zeros(x)) as nat);
        lemma_pow2_unfold((64 - u64_leading_zeros(x)) as nat);
    }
}

/// Dropping `t` low bits of a significand at exponent `k` leaves one at
/// exponent `k + t`.
pub proof fn lemma_whole_shift(k: int, t: nat)
    requires
        k + t >= 0,
    ensures
        pow2((k + t) as nat) * whole(-k) == pow2(t) * whole(k),
{
    if k > 0 {
        lemma_pow2_adds(k as nat, t);
        assert(pow2(k as nat) * pow2(t) == pow2(t) * pow2(k as nat)) by (nonlinear_arith);
    } else {
        lemma_pow2_adds((k + t) as nat, (-k) as nat);
    }
}

/// Where a located number stands among the points of a coarser scale: between
/// `q` and `q + 1`, and on the side of the midpoint that the dropped bits say.
proof fn lemma_locate(n: nat, d: nat, sig: nat, k: int, sticky: bool, t: nat, q: nat, rem: nat)
    requires
        d > 0,
        located(n, d, sig, k, sticky),
        t > 0,
        k + t >= 0,
        sig == q * pow2(t) + rem,
        rem < pow2(t),
    ensures
        ({
            let p = pow2((k + t) as nat);
            let half = pow2((t - 1) as nat);
            &&& d * (q * p) <= n < d * ((q + 1) * p)
            &&& 2 * n > d * ((2 * q + 1) * p) <==> rem > half || rem == half && sticky
            &&& 2 * n == d * ((2 * q + 1) * p) <==> rem == half && !sticky
        }),
{
    let s = (k + t) as nat;
    let p = pow2(s);
    let w = pow2(t);
    let half = pow2((t - 1) as nat);
    let a = whole(-k);
    let unit = d * whole(k);
    lemma_pow2_unfold(t);
    lemma_pow2_pos(s);
    lemma_pow2_pos(t);
    lemma_pow2_pos(k as nat);
    lemma_pow2_pos((-k) as nat);
    lemma_whole_shift(k, t);
    assert(d * p * a == w * unit) by (nonlinear_arith)
        requires
            p * a == w * whole(k),
            unit == d * whole(k),
    ;
    assert(unit > 0) by (nonlinear_arith)
        requires
            d > 0,
            whole(k) > 0,
            unit == d * whole(k),
    ;
    let x = n * a;
    // Every comparison of `n` is made after multiplication by `a`, in whole units.
    assert(d * (q * p) * a == (q * w) * unit) by (nonlinear_arith)
        requires
            d * p * a == w * unit,
    ;
    assert(d * ((q + 1) * p) * a == (q * w + w) * unit) by (nonlinear_arith)
        requires
            d * p * a == w * unit,
    ;
    assert(d * ((2 * q + 1) * p) * a == (2 * (q * w) + w) * unit) by (nonlinear_arith)
        requires
            d * p * a == w * unit,
    ;
    assert((q * w) * unit <= x) by (nonlinear_arith)
        requires
            sig == q * w + rem,
            sig * unit <= x,
            unit > 0,
    ;
    assert(x < (q * w + w) * unit) by (nonlinear_arith)
        requires
            sig == q * w + rem,
            rem + 1 <= w,
            x < (sig + 1) * unit || (x == sig * unit && unit > 0),
            unit > 0,
    ;
    assert(d * (q * p) <= n) by (nonlinear_arith)
        requires
            d * (q * p) * a <= n * a,
            a > 0,
    ;
    assert(n < d * ((q + 1) * p)) by (nonlinear_arith)
        requires
            n * a < d * ((q + 1) * p) * a,
            a > 0,
    ;
    assert(x < (sig + 1) * unit) by (nonlinear_arith)
        requires
            x < (sig + 1) * unit || x == sig * unit,
            unit > 0,
    ;
    let mid = q * w + half;
    assert(d * ((2 * q + 1) * p) * a == 2 * (mid * unit)) by (nonlinear_arith)
        requires
            d * ((2 * q + 1) * p) * a == (2 * (q * w) + w) * unit,
            w == 2 * half,
            mid == q * w + half,
    ;
    if rem > half {
        assert(x > mid * unit) by (nonlinear_arith)
            requires
                sig == q * w + rem,
                mid == q * w + half,
                rem > half,
                sig * unit <= x,
                unit > 0,
        ;
    } else if rem < half {
        assert(x < mid * unit) by (nonlinear_arith)
            requires
                sig == q * w + rem,
                mid == q * w + half,
                rem < half,
                x < (sig + 1) * unit,
                unit > 0,
        ;
    } else {
        assert(sig == mid);
    }
    let goal = d * ((2 * q + 1) * p);
    assert((2 * n > goal <==> 2 * x > goal * a) && (2 * n == goal <==> 2 * x == goal * a))
        by (nonlinear_arith)
        requires
            x == n * a,
            a > 0,
    ;
}

/// A significand of the given top bit, at an exponent that takes it beyond the
/// finite range, rounds to infinity.
proof fn lemma_beyond(n: nat, d: nat, sig: nat, k: int, sticky: bool, top: nat)
    requires
        d > 0,
        located(n, d, sig, k, sticky),
        k > 0,
        pow2(top) <= sig,
        top + k >= 277,
    ensures
        is_nearest(n, d, INFINITY as nat),
{
    let e = pow2(k as nat);
    lemma_pow2_adds(top, k as nat);
    if top + k > 277 {
        lemma_pow2_strictly_increases(277, (top + k) as nat);
    }
    lemma_pow2_adds(23, 254);
    lemma_compose(254, BINADE as nat);
    assert(magnitude(INFINITY as nat) == pow2(277)) by {
        vstd::arithmetic::power2::lemma2_to64();
    }
    assert(d * pow2(277) <= n) by (nonlinear_arith)
        requires
            pow2(277) <= pow2(top) * e,
            pow2(top) <= sig,
            sig * (d * e) <= n,
            d > 0,
    ;
    lemma_overflow(n, d);
}

/// Multiplying by a power of two moves an upper bound.
proof fn lemma_scaled_below(sig: nat, len: nat, c: nat, limit: nat)
    requires
        sig < pow2(len),
        len + c <= limit,
    ensures
        sig * pow2(c) < pow2(limit),
{
    lemma_pow2_pos(c);
    lemma_pow2_adds(len, c);
    if len + c < limit {
        lemma_pow2_strictly_increases(len + c, limit);
    }
    assert(sig * pow2(c) < pow2(len) * pow2(c)) by (nonlinear_arith)
        requires
            sig < pow2(len),
            pow2(c) > 0,
    ;
}

/// Multiplying by a power of two moves a lower bound.
proof fn lemma_scaled_above(sig: nat, top: nat, c: nat)
    requires
        pow2(top) <= sig,
    ensures
        pow2(top + c) <= sig * pow2(c),
{
    lemma_pow2_adds(top, c);
    assert(pow2(top) * pow2(c) <= sig * pow2(c)) by (nonlinear_arith)
        requires
            pow2(top) <= sig,
    ;
}

/// How large a quotient by a power of two is, by the top bit of the dividend.
proof fn lemma_quotient_range(sig: nat, t: nat, q: nat, rem: nat, top: nat)
    requires
        sig == q * pow2(t) + rem,
        rem < pow2(t),
        pow2(top) <= sig < pow2(top + 1),
        t + 23 >= top,
    ensures
        q < 2 * BINADE,
        t + 23 == top ==> q >= BINADE,
{
    vstd::arithmetic::power2::lemma2_to64();
    lemma_pow2_pos(t);
    lemma_pow2_adds(24, t);
    if top + 1 < 24 + t {
        lemma_pow2_strictly_increases(top + 1, 24 + t);
    }
    assert(q < pow2(24)) by (nonlinear_arith)
        requires
            q * pow2(t) < pow2(24) * pow2(t),
            pow2(t) > 0,
    ;
    if t + 23 == top {
        lemma_pow2_adds(23, t);
        assert(q >= pow2(23)) by (nonlinear_arith)
            requires
                pow2(23) * pow2(t) <= q * pow2(t) + rem,
                rem < pow2(t),
        ;
    }
}

/// Widening a significand by `c` zero bits is exact.
proof fn lemma_round_widened(n: nat, d: nat, sig: nat, k: int, top: nat, c: nat)
    requires
        d > 0,
        located(n, d, sig, k, false),
        0 < sig,
        pow2(top) <= sig < pow2(top + 1),
        top + c <= 23,
        k >= c,
        k == c || top + c == 23,
        k - c < 254,
    ensures
        sig * pow2(c) < 2 * BINADE,
        is_nearest(n, d, ((k - c) * BINADE + sig * pow2(c)) as nat),
{
    let s = (k - c) as nat;
    let q = sig * pow2(c);
    vstd::arithmetic::power2::lemma2_to64();
    lemma_scaled_below(sig, top + 1, c, 24);
    lemma_scaled_above(sig, top, c);
    lemma_pow2_adds(s, c);
    assert(sig * (d * whole(k)) == d * (q * pow2(s))) by (nonlinear_arith)
        requires
            q == sig * pow2(c),
            whole(k) == pow2(s) * pow2(c),
    ;
    lemma_compose(s, q);
    lemma_exact(n, d, s * BINADE as nat + q);
}

/// A number that reaches a power of two has its top bit there or above.
proof fn lemma_top_bit(sig: nat, top: nat, e: nat)
    requires
        sig < pow2(top + 1),
        pow2(e) <= sig,
    ensures
        e <= top,
{
    if top < e {
        if top + 1 < e {
            lemma_pow2_strictly_increases(top + 1, e);
        }
    }
}

/// Dropping `t` low bits rounds by what was dropped.
proof fn lemma_round_narrowed(
    n: nat,
    d: nat,
    sig: nat,
    k: int,
    sticky: bool,
    top: nat,
    t: nat,
    q: nat,
    rem: nat,
    up: bool,
)
    requires
        d > 0,
        located(n, d, sig, k, sticky),
        pow2(top) <= sig < pow2(top + 1),
        t > 0,
        t + 23 >= top,
        0 <= k + t < 254,
        k + t == 0 || t + 23 == top,
        sig == q * pow2(t) + rem,
        rem < pow2(t),
        up == (rem > pow2((t - 1) as nat) || rem == pow2((t - 1) as nat) && (sticky || q % 2 == 1)),
    ensures
        q < 2 * BINADE,
        is_nearest(n, d, ((k + t) * BINADE + q + if up { 1int } else { 0int }) as nat),
{
    let s = (k + t) as nat;
    let m = s * BINADE as nat + q;
    let p = pow2(s);
    lemma_locate(n, d, sig, k, sticky, t, q, rem);
    lemma_quotient_range(sig, t, q, rem, top);
    lemma_compose(s, q);
    lemma_step(m);
    assert(q * p + p == (q + 1) * p && 2 * (q * p) + p == (2 * q + 1) * p) by (nonlinear_arith);
    assert(m % 2 == q % 2);
    lemma_settle(n, d, m, up);
}

/// Rounds `n / d` to the nearest pattern, given where it is located.
pub(crate) fn round(
    sig: u64,
    k: i32,
    sticky: bool,
    Ghost(n): Ghost<nat>,
    Ghost(d): Ghost<nat>,
) -> (m: u32)
    requires
        0 < sig < 0x8000_0000_0000_0000,
        -1000 < k < 1000,
        sticky ==> sig >= 0x200_0000,
        d > 0,
        located(n, d, sig as nat, k as int, sticky),
    ensures
        is_nearest(n, d, m as nat),
{
    let zeros = sig.leading_zeros() as i32;
    let ghost top = (63 - zeros) as nat;
    proof {
        lemma_leading_zeros(sig);
        if sticky {
            assert(pow2(25) == 0x200_0000) by {
                vstd::arithmetic::power2::lemma2_to64();
            }
            lemma_top_bit(sig as nat, top, 25);
        }
    }
    let excess: i32 = 40 - zeros;
    let t: i32 = if k + excess < 0 {
        -k
    } else {
        excess
    };
    let s: i32 = k + t;
    if s >= 254 {
        proof {
            lemma_beyond(n, d, sig as nat, k as int, sticky, top);
        }
        INFINITY
    } else if t <= 0 {
        proof {
            lemma_round_widened(n, d, sig as nat, k as int, top, (-t) as nat);
            lemma_u64_shl_is_mul(sig, (-t) as u64);
        }
        s as u32 * BINADE + (sig << (-t) as u64) as u32
    } else if t <= 63 {
        let q: u64 = sig >> t as u64;
        proof {
            lemma_pow2_pos(t as nat);
            lemma_u64_shr_is_div(sig, t as u64);
            lemma_fundamental_div_mod(sig as int, pow2(t as nat) as int);
            assert(q * pow2(t as nat) == pow2(t as nat) * q) by (nonlinear_arith);
            lemma_u64_shl_is_mul(q, t as u64);
            vstd::bits::lemma_u64_pow2_no_overflow((t - 1) as nat);
            lemma_u64_shl_is_mul(1, (t - 1) as u64);
        }
        let rem: u64 = sig - (q << t as u64);
        let half: u64 = 1u64 << (t - 1) as u64;
        let up: bool = rem > half || rem == half && (sticky || q % 2 == 1);
        proof {
            lemma_round_narrowed(
                n,
                d,
                sig as nat,
                k as int,
                sticky,
                top,
                t as nat,
                q as nat,
                rem as nat,
                up,
            );
        }
        s as u32 * BINADE + q as u32 + if up {
            1
        } else {
            0
        }
    } else {
        proof {
            vstd::arithmetic::power2::lemma2_to64_rest();
            lemma_pow2_strictly_increases(63, t as nat);
            if t > 64 {
                lemma_pow2_strictly_increases(63, (t - 1) as nat);
            }
            lemma_round_narrowed(
                n,
                d,
                sig as nat,
                k as int,
                sticky,
                top,
                t as nat,
                0,
                sig as nat,
                false,
            );
        }
        0
    }
}

} // verus!
