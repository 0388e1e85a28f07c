//! The sections stay stable as they are computed, for any answers of the host
//! within the range of the settings in use.
use vstd::arithmetic::power2::{lemma_pow2_adds, lemma_pow2_pos, pow2};
use vstd::prelude::*;

use crate::arithmetic::{
    abs, law_opposite_factor, law_product_error, lemma_nearest_bounded, lemma_nearest_error,
    lemma_opposite, lemma_rounded_parts, lemma_signed, lemma_small_powers, lemma_sum,
    lemma_sum_value,
};
use crate::biquad::{
    amplitude_exponent, angular_frequency, Biquad, Coefficients, FilterKind, Transfer,
};
use crate::chain::{Band, Chain, Change, LowBand};
use crate::constants::{HALF, MINUS_TWO, ONE, SQRT_2, TEN, TWO, ZERO};
use crate::elementary::{cos_gives, exp_gives, powf_gives, sin_gives, Elementary};
use crate::engine::{
    high_plan, is_fresh_band, is_fresh_chain, is_fresh_low, is_fresh_stage, low_plan, means,
    mid_plan, F_HIGH_SHELF, F_LOW_MID, F_LOW_SHELF, F_MID_HIGH, F_PEAK, Q_LR, Q_PEAK, T_SLOW,
};
use crate::exact::lemma_times_two;
use crate::grid::{
    doubled_midpoint, is_nearest_root, lemma_compose, lemma_exact, lemma_increasing,
    lemma_nearest_monotone, lemma_zero, magnitude, nearest, nearest_root, root_passes, BINADE,
    INFINITY,
};
use crate::laws::{between, is_switch};
use crate::settings::{
    after, is_written, law_coefficients_kept_over_a_run, law_in_range_over_any_history,
    law_share_in_range_at_first, law_targets_finite_at_first, targets_finite, Event,
};
use crate::single::{signed, Single};
use crate::smoother::Smoother;

verus! {

/// The pattern of 2 to the power `e`.
pub open spec fn power_pattern(e: int) -> nat {
    (ONE + e * BINADE) as nat
}

/// The magnitude of a power of two.
pub proof fn lemma_power(e: int)
    requires
        -100 <= e <= 100,
    ensures
        magnitude(power_pattern(e)) == pow2((149 + e) as nat),
        BINADE < power_pattern(e) < INFINITY,
{
    let s = (126 + e) as nat;
    lemma_compose(s, BINADE as nat);
    assert(pow2(23) == BINADE) by {
        vstd::arithmetic::power2::lemma2_to64();
    }
    lemma_pow2_adds(23, s);
    assert(power_pattern(e) == s * BINADE as nat + BINADE as nat);
}

/// Whether a number is at most 2 to the power `e` by its absolute value.
pub open spec fn is_below(x: Single, e: int) -> bool {
    x.pattern() <= power_pattern(e)
}

/// Whether a number is at least 2 to the power `e` by its absolute value.
pub open spec fn is_above(x: Single, e: int) -> bool {
    power_pattern(e) <= x.pattern()
}

/// The product of two powers of two, in units.
proof fn lemma_power_product(e: int, f: int)
    requires
        -40 <= e <= 40,
        -40 <= f <= 40,
    ensures
        magnitude(power_pattern(e)) * magnitude(power_pattern(f)) == pow2(149) * magnitude(
            power_pattern(e + f),
        ),
{
    lemma_power(e);
    lemma_power(f);
    lemma_power(e + f);
    lemma_pow2_adds((149 + e) as nat, (149 + f) as nat);
    lemma_pow2_adds(149, (149 + e + f) as nat);
}

/// Bounds of a product.
pub proof fn lemma_product_range(x: Single, y: Single, e: int, f: int)
    requires
        x.is_finite(),
        y.is_finite(),
        -40 <= e <= 40,
        -40 <= f <= 40,
    ensures
        is_below(x, e) && is_below(y, f) ==> is_below(x * y, e + f),
        is_above(x, e) && is_above(y, f) ==> is_above(x * y, e + f),
        !(x * y).is_nan(),
        !(x * y).is_nan() ==> (x * y).negative() == (x.negative() != y.negative()),
{
    let u = pow2(149);
    let a = magnitude(x.pattern());
    let b = magnitude(y.pattern());
    let n = a * b;
    let k = nearest(n, u);
    lemma_pow2_pos(149);
    lemma_nearest_bounded(n, u);
    assert(x * y == signed(x.negative() != y.negative(), k)) by {
        reveal(Single::spec_mul);
    }
    lemma_signed(x.negative() != y.negative(), k);
    lemma_power(e);
    lemma_power(f);
    lemma_power(e + f);
    lemma_power_product(e, f);
    let p = magnitude(power_pattern(e));
    let q = magnitude(power_pattern(f));
    let m = u * magnitude(power_pattern(e + f));
    lemma_exact(m, u, power_pattern(e + f));
    if is_below(x, e) && is_below(y, f) {
        lemma_increasing(x.pattern(), power_pattern(e));
        lemma_increasing(y.pattern(), power_pattern(f));
        assert(n * u <= m * u) by (nonlinear_arith)
            requires
                n == a * b,
                a <= p,
                b <= q,
                m == p * q,
        ;
        lemma_nearest_monotone(n, u, k, m, u, power_pattern(e + f));
    }
    if is_above(x, e) && is_above(y, f) {
        lemma_increasing(power_pattern(e), x.pattern());
        lemma_increasing(power_pattern(f), y.pattern());
        assert(m * u <= n * u) by (nonlinear_arith)
            requires
                n == a * b,
                p <= a,
                q <= b,
                m == p * q,
        ;
        lemma_nearest_monotone(m, u, power_pattern(e + f), n, u, k);
    }
}

/// Bounds of a sum and of a difference.
pub proof fn lemma_sum_range(x: Single, y: Single, e: int)
    requires
        -40 <= e <= 40,
        is_below(x, e),
        is_below(y, e),
    ensures
        is_below(x + y, e + 1),
        is_below(x - y, e + 1),
{
    lemma_power(e);
    lemma_power(e + 1);
    lemma_pow2_adds((149 + e) as nat, 1);
    assert(pow2(1) == 2) by {
        vstd::arithmetic::power2::lemma2_to64();
    }
    lemma_increasing(x.pattern(), power_pattern(e));
    lemma_increasing(y.pattern(), power_pattern(e));
    lemma_opposite(y);
    lemma_sum_below(x, y, magnitude(power_pattern(e + 1)), power_pattern(e + 1));
    lemma_sum_below(x, y.opposite(), magnitude(power_pattern(e + 1)), power_pattern(e + 1));
}

proof fn lemma_sum_below(x: Single, y: Single, n: nat, m: nat)
    requires
        x.is_finite(),
        y.is_finite(),
        m < INFINITY,
        n == magnitude(m),
        abs(x.value() + y.value()) <= n,
    ensures
        (x + y).pattern() <= m,
{
    let v = x.value() + y.value();
    let a = abs(v) as nat;
    lemma_sum_value(x, y);
    lemma_rounded_parts(v);
    lemma_exact(n, 1, m);
    lemma_nearest_monotone(a, 1, nearest(a, 1), n, 1, m);
}

/// Bounds of a quotient.
pub proof fn lemma_quotient_range(x: Single, y: Single, e: int, f: int)
    requires
        x.is_finite(),
        y.is_finite(),
        !y.is_zero(),
        -40 <= e <= 40,
        -40 <= f <= 40,
    ensures
        is_below(x, e) && is_above(y, f) ==> is_below(x / y, e - f),
        is_above(x, e) && is_below(y, f) ==> is_above(x / y, e - f),
        (x / y).negative() == (x.negative() != y.negative()),
        (x / y) == signed(
            x.negative() != y.negative(),
            nearest(magnitude(x.pattern()) * pow2(149), magnitude(y.pattern())),
        ),
{
    let u = pow2(149);
    let a = magnitude(x.pattern());
    let b = magnitude(y.pattern());
    let n = a * u;
    lemma_zero(y.pattern());
    lemma_nearest_bounded(n, b);
    let k = nearest(n, b);
    assert(x / y == signed(x.negative() != y.negative(), k)) by {
        reveal(Single::spec_div);
    }
    lemma_signed(x.negative() != y.negative(), k);
    lemma_power(e);
    lemma_power(f);
    lemma_power(e - f);
    let p = magnitude(power_pattern(e));
    let q = magnitude(power_pattern(f));
    let m = magnitude(power_pattern(e - f));
    // p * u == m * q
    lemma_pow2_adds((149 + e) as nat, 149);
    lemma_pow2_adds((149 + e - f) as nat, (149 + f) as nat);
    assert(p * u == m * q);
    lemma_exact(m, 1, power_pattern(e - f));
    if is_below(x, e) && is_above(y, f) {
        lemma_increasing(x.pattern(), power_pattern(e));
        lemma_increasing(power_pattern(f), y.pattern());
        assert(n * 1 <= m * b) by (nonlinear_arith)
            requires
                n == a * u,
                a <= p,
                q <= b,
                p * u == m * q,
        ;
        lemma_nearest_monotone(n, b, k, m, 1, power_pattern(e - f));
    }
    if is_above(x, e) && is_below(y, f) {
        lemma_increasing(power_pattern(e), x.pattern());
        lemma_increasing(y.pattern(), power_pattern(f));
        assert(m * b <= n * 1) by (nonlinear_arith)
            requires
                n == a * u,
                p <= a,
                b <= q,
                p * u == m * q,
        ;
        lemma_nearest_monotone(m, 1, power_pattern(e - f), n, b, k);
    }
}

/// Whether a section is stable: its coefficients are finite and its poles lie
/// inside the unit circle, by the triangle of stability.
pub open spec fn is_stable(c: Coefficients) -> bool {
    let u = pow2(149);
    &&& c.b0.is_finite() && c.b1.is_finite() && c.b2.is_finite()
    &&& c.a1.is_finite() && c.a2.is_finite()
    &&& abs(c.a2.value()) < u
    &&& abs(c.a1.value()) < u + c.a2.value()
}

/// Whether a transfer function is stable with room for the roundings of its
/// normalization, and its taps are of moderate size.
pub open spec fn has_margin(t: Transfer) -> bool {
    let a0 = t.a0.value();
    let a1 = t.a1.value();
    let a2 = t.a2.value();
    &&& is_below(t.b0, 8) && is_below(t.b1, 8) && is_below(t.b2, 8)
    &&& is_below(t.a0, 8) && is_below(t.a1, 8) && is_below(t.a2, 8)
    &&& !t.a0.negative()
    &&& is_above(t.a0, -2)
    &&& (a0 - abs(a2)) * 0x100_0000 >= 5 * a0
    &&& (a0 + a2 - abs(a1)) * 0x100_0000 >= 5 * a0
}

/// The roundings of a normalization, in units of the square of the smallest
/// number: `w` is one, `p` the first tap, `q1` and `q2` the others times the
/// computed reciprocal, `r1` and `r2` what comes of rounding them.
proof fn lemma_margin_suffices(u: int, w: int, p: int, q1: int, q2: int, r1: int, r2: int)
    requires
        u > 0,
        u * 0x1000_0000 <= w,
        abs(p - w) * 0x100_0000 <= p,
        abs(r1 - q1) * 0x100_0000 <= abs(q1) + u * 0x80_0000,
        abs(r2 - q2) * 0x100_0000 <= abs(q2) + u * 0x80_0000,
        (p - abs(q2)) * 0x100_0000 >= 5 * p,
        (p + q2 - abs(q1)) * 0x100_0000 >= 5 * p,
    ensures
        abs(r2) < w,
        abs(r1) < w + r2,
{
}

/// A product of a bounded tap with the reciprocal, scaled.
proof fn lemma_scaled_margin(a0: int, a1: int, a2: int, i: int)
    requires
        i >= 0,
        (a0 - abs(a2)) * 0x100_0000 >= 5 * a0,
        (a0 + a2 - abs(a1)) * 0x100_0000 >= 5 * a0,
    ensures
        (a0 * i - abs(a2 * i)) * 0x100_0000 >= 5 * (a0 * i),
        (a0 * i + a2 * i - abs(a1 * i)) * 0x100_0000 >= 5 * (a0 * i),
{
    let (m1, m2) = (abs(a1), abs(a2));
    assert(abs(a1 * i) == m1 * i && abs(a2 * i) == m2 * i) by {
        lemma_abs_times(a1, i);
        lemma_abs_times(a2, i);
    }
    assert((a0 * i - m2 * i) * 0x100_0000 >= 5 * (a0 * i)) by (nonlinear_arith)
        requires
            (a0 - m2) * 0x100_0000 >= 5 * a0,
            i >= 0,
    ;
    assert((a0 * i + a2 * i - m1 * i) * 0x100_0000 >= 5 * (a0 * i)) by (nonlinear_arith)
        requires
            (a0 + a2 - m1) * 0x100_0000 >= 5 * a0,
            i >= 0,
    ;
}

/// The absolute value of a product with a number that is not negative.
proof fn lemma_abs_times(x: int, i: int)
    requires
        i >= 0,
    ensures
        abs(x * i) == abs(x) * i,
{
    assert((x >= 0 ==> x * i >= 0) && (x < 0 ==> x * i <= 0) && (-x) * i == -(x * i))
        by (nonlinear_arith)
        requires
            i >= 0,
    ;
}

/// A transfer function that is stable with a margin makes a stable section.
pub proof fn law_margin_makes_stable(t: Transfer)
    requires
        has_margin(t),
    ensures
        is_stable(t.normalized()),
{
    let one = Single { bits: ONE };
    let inv = one / t.a0;
    let c = t.normalized();
    let u = pow2(149);
    lemma_small_powers();
    lemma_power(8);
    lemma_power(-2);
    lemma_power(0);
    assert(power_pattern(0) == ONE);
    lemma_quotient_range(one, t.a0, 0, -2);
    lemma_quotient_range(one, t.a0, 0, 8);
    lemma_power(2);
    lemma_power(-8);
    lemma_power(10);
    lemma_product_range(t.b0, inv, 8, 2);
    lemma_product_range(t.b1, inv, 8, 2);
    lemma_product_range(t.b2, inv, 8, 2);
    lemma_product_range(t.a1, inv, 8, 2);
    lemma_product_range(t.a2, inv, 8, 2);
    // The reciprocal.
    let a = magnitude(t.a0.pattern());
    let k = nearest(u * u, a);
    lemma_zero(t.a0.pattern());
    lemma_nearest_bounded(u * u, a);
    lemma_signed(false, k);
    lemma_nearest_error(u * u, a, k);
    let i = magnitude(k) as int;
    law_product_error(t.a1, inv);
    law_product_error(t.a2, inv);
    lemma_scaled_margin(t.a0.value(), t.a1.value(), t.a2.value(), i);
    let w = (u * u) as int;
    assert(u * 0x1000_0000 <= w) by {
        vstd::arithmetic::power2::lemma2_to64();
        vstd::arithmetic::power2::lemma_pow2_strictly_increases(28, 149);
        assert(u * 0x1000_0000 <= w) by (nonlinear_arith)
            requires
                u >= 0x1000_0000,
                w == u * u,
        ;
    }
    let (c1, c2) = (c.a1.value(), c.a2.value());
    lemma_margin_suffices(
        u as int,
        w,
        t.a0.value() * i,
        t.a1.value() * i,
        t.a2.value() * i,
        u * c1,
        u * c2,
    );
    lemma_abs_times(c1, u as int);
    lemma_abs_times(c2, u as int);
    assert(c1 * u == u * c1 && c2 * u == u * c2) by (nonlinear_arith);
    let (m1, m2) = (abs(c1), abs(c2));
    assert(m2 < u) by (nonlinear_arith)
        requires
            m2 * u < u * u,
            u > 0,
    ;
    assert(m1 < u + c2) by (nonlinear_arith)
        requires
            m1 * u < u * u + u * c2,
            u > 0,
    ;
}

/// Whether cosine and sine are those of a frequency in use: the sine is at
/// least 2 to the power -8, the cosine at least 2 to the power -17 away from
/// one and minus one. At 192 kHz these are the frequencies from 120 Hz on.
pub open spec fn is_angle(cos_w: Single, sin_w: Single) -> bool {
    &&& cos_w.is_finite()
    &&& (pow2(149) - abs(cos_w.value())) * 0x2_0000 >= pow2(149)
    &&& !sin_w.negative()
    &&& is_above(sin_w, -8)
    &&& is_below(sin_w, 0)
}

/// Whether a quality is between one sixteenth and sixteen.
pub open spec fn is_quality(q: Single) -> bool {
    !q.negative() && is_above(q, -4) && is_below(q, 4)
}

/// Whether an amplitude is between one quarter and four: gains of up to 24 dB.
pub open spec fn is_amplitude(a: Single) -> bool {
    !a.negative() && is_above(a, -2) && is_below(a, 2)
}

/// A sum that is at least a positive number.
proof fn lemma_sum_above(x: Single, y: Single, m: nat)
    requires
        x.is_finite(),
        y.is_finite(),
        0 < m < INFINITY,
        x.value() + y.value() >= magnitude(m),
    ensures
        !(x + y).negative(),
        (x + y).pattern() >= m,
{
    let v = x.value() + y.value();
    let a = abs(v) as nat;
    lemma_zero(m);
    lemma_sum_value(x, y);
    lemma_rounded_parts(v);
    lemma_exact(magnitude(m), 1, m);
    lemma_nearest_monotone(magnitude(m), 1, m, a, 1, nearest(a, 1));
    assert(v != 0 ==> x + y == crate::single::rounded(v)) by {
        reveal(Single::spec_add);
    }
}

/// Plus and minus two times a number of moderate size.
pub proof fn lemma_two_times(x: Single)
    requires
        is_below(x, 10),
    ensures
        is_below((Single { bits: TWO }) * x, 11),
        is_below((Single { bits: MINUS_TWO }) * x, 11),
        ((Single { bits: TWO }) * x).value() == 2 * x.value(),
        ((Single { bits: MINUS_TWO }) * x).value() == -2 * x.value(),
{
    let two = Single { bits: TWO };
    lemma_power(10);
    lemma_power(11);
    lemma_power(1);
    lemma_sum_range(x, x, 10);
    lemma_times_two(x);
    law_opposite_factor(two, x);
    lemma_opposite(two * x);
    assert(two.opposite() == (Single { bits: MINUS_TWO }));
}

/// A cosine is at most one.
pub proof fn lemma_cosine(cos_w: Single)
    requires
        cos_w.is_finite(),
        abs(cos_w.value()) <= pow2(149),
    ensures
        is_below(cos_w, 0),
{
    lemma_small_powers();
    if cos_w.pattern() > ONE {
        lemma_increasing(ONE as nat, cos_w.pattern());
    }
}

/// The powers of two among the constants.
pub proof fn lemma_constants()
    ensures
        power_pattern(0) == ONE,
        power_pattern(1) == TWO,
        power_pattern(-1) == HALF,
{
}

/// The shapes whose feedback is one plus and minus a bandwidth term.
proof fn lemma_simple_margin(t: Transfer, cos_w: Single, beta: Single)
    requires
        cos_w.is_finite(),
        (pow2(149) - abs(cos_w.value())) * 0x2_0000 >= pow2(149),
        !beta.negative(),
        is_above(beta, -15),
        is_below(beta, 5),
        t.a0 == (Single { bits: ONE }) + beta,
        t.a1 == (Single { bits: MINUS_TWO }) * cos_w,
        t.a2 == (Single { bits: ONE }) - beta,
        is_below(t.b0, 8) && is_below(t.b1, 8) && is_below(t.b2, 8),
    ensures
        has_margin(t),
{
    let one = Single { bits: ONE };
    let u = pow2(149);
    lemma_small_powers();
    lemma_constants();
    lemma_cosine(cos_w);
    lemma_power(0);
    lemma_power(5);
    lemma_power(6);
    lemma_power(8);
    lemma_power(11);
    lemma_power(-2);
    lemma_power(-15);
    lemma_sum_range(one, beta, 5);
    lemma_two_times(cos_w);
    lemma_product_range(Single { bits: MINUS_TWO }, cos_w, 1, 0);
    lemma_power(1);
    lemma_zero(beta.pattern());
    lemma_sum_above(one, beta, ONE as nat);
    lemma_opposite(beta);
    lemma_sum(one, beta);
    lemma_sum(one, beta.opposite());
    // The bandwidth term between its bounds, in units.
    lemma_increasing(power_pattern(-15), beta.pattern());
    lemma_increasing(beta.pattern(), power_pattern(5));
    lemma_pow2_adds(134, 15);
    lemma_pow2_adds(149, 5);
    assert(pow2(15) == 0x8000 && pow2(5) == 32) by {
        vstd::arithmetic::power2::lemma2_to64();
    }
}

/// The bandwidth term for settings in use.
proof fn lemma_alpha(sin_w: Single, q: Single)
    requires
        !sin_w.negative(),
        is_above(sin_w, -8),
        is_below(sin_w, 0),
        is_quality(q),
    ensures
        ({
            let alpha = sin_w / ((Single { bits: TWO }) * q);
            !alpha.negative() && is_above(alpha, -13) && is_below(alpha, 3)
        }),
{
    let two = Single { bits: TWO };
    lemma_constants();
    lemma_power(0);
    lemma_power(1);
    lemma_power(4);
    lemma_power(5);
    lemma_power(-3);
    lemma_power(-4);
    lemma_power(-8);
    lemma_product_range(two, q, 1, 4);
    lemma_product_range(two, q, 1, -4);
    lemma_quotient_range(sin_w, two * q, -8, 5);
    lemma_quotient_range(sin_w, two * q, 0, -3);
}

/// The sections of the crossover are stable.
proof fn lemma_crossover_stable(
    kind: FilterKind,
    cos_w: Single,
    sin_w: Single,
    q: Single,
    a: Single,
)
    requires
        kind is LowPass || kind is HighPass || kind is AllPass,
        is_angle(cos_w, sin_w),
        is_quality(q),
    ensures
        is_stable(Transfer::of(kind, cos_w, sin_w, q, a).normalized()),
{
    let one = Single { bits: ONE };
    let half = Single { bits: HALF };
    let alpha = sin_w / ((Single { bits: TWO }) * q);
    let t = Transfer::of(kind, cos_w, sin_w, q, a);
    lemma_constants();
    lemma_power(0);
    lemma_power(1);
    lemma_power(2);
    lemma_power(8);
    lemma_power(-1);
    lemma_power(3);
    lemma_power(-13);
    lemma_alpha(sin_w, q);
    lemma_cosine(cos_w);
    lemma_sum_range(one, cos_w, 0);
    lemma_sum_range(one, alpha, 3);
    lemma_opposite(one + cos_w);
    lemma_product_range(one - cos_w, half, 1, -1);
    lemma_product_range(one + cos_w, half, 1, -1);
    lemma_product_range(Single { bits: MINUS_TWO }, cos_w, 1, 0);
    lemma_simple_margin(t, cos_w, alpha);
    law_margin_makes_stable(t);
}

/// The peak is stable.
proof fn lemma_peak_stable(cos_w: Single, sin_w: Single, q: Single, a: Single)
    requires
        is_angle(cos_w, sin_w),
        is_quality(q),
        is_amplitude(a),
    ensures
        is_stable(Transfer::of(FilterKind::Peaking, cos_w, sin_w, q, a).normalized()),
{
    let one = Single { bits: ONE };
    let alpha = sin_w / ((Single { bits: TWO }) * q);
    let beta = alpha / a;
    let t = Transfer::of(FilterKind::Peaking, cos_w, sin_w, q, a);
    lemma_constants();
    lemma_power(0);
    lemma_power(1);
    lemma_power(2);
    lemma_power(3);
    lemma_power(8);
    lemma_power(-2);
    lemma_power(5);
    lemma_power(-13);
    lemma_alpha(sin_w, q);
    lemma_cosine(cos_w);
    lemma_quotient_range(alpha, a, -13, 2);
    lemma_quotient_range(alpha, a, 3, -2);
    lemma_product_range(alpha, a, 3, 2);
    lemma_sum_range(one, alpha * a, 5);
    lemma_product_range(Single { bits: MINUS_TWO }, cos_w, 1, 0);
    lemma_simple_margin(t, cos_w, beta);
    law_margin_makes_stable(t);
}

/// Some pattern at or above `m` is the nearest to a root.
pub proof fn lemma_root_found(n: nat, m: nat)
    requires
        m <= INFINITY,
        m > 0 ==> root_passes(n, (m - 1) as nat),
    ensures
        exists|k: nat| is_nearest_root(n, k),
    decreases INFINITY - m,
{
    if m < INFINITY && root_passes(n, m) {
        lemma_root_found(n, m + 1);
    } else {
        assert(is_nearest_root(n, m));
    }
}

/// The root of an amplitude.
pub proof fn lemma_root_range(a: Single)
    requires
        is_amplitude(a),
    ensures
        !a.root().negative(),
        is_above(a.root(), -1),
        is_below(a.root(), 1),
{
    let n = magnitude(a.pattern()) * pow2(149);
    let k = nearest_root(n);
    lemma_root_found(n, 0);
    lemma_power(-2);
    lemma_power(-1);
    lemma_power(1);
    lemma_power(2);
    lemma_increasing(power_pattern(-2), a.pattern());
    lemma_increasing(a.pattern(), power_pattern(2));
    lemma_signed(false, k);
    let below = magnitude(power_pattern(-1));
    let above = magnitude(power_pattern(1));
    lemma_pow2_adds(148, 148);
    lemma_pow2_adds(147, 149);
    lemma_pow2_adds(150, 150);
    lemma_pow2_adds(151, 149);
    let u = pow2(149);
    let (x, v, w) = (magnitude(a.pattern()), pow2(147), pow2(151));
    assert(v * u <= x * u && x * u <= w * u) by (nonlinear_arith)
        requires
            v <= x <= w,
    ;
    assert(below * below <= n && n <= above * above);
    if k < power_pattern(-1) {
        let y = doubled_midpoint(k);
        lemma_increasing(k, k + 1);
        lemma_increasing(k + 1, power_pattern(-1));
        assert(4 * n > y * y) by (nonlinear_arith)
            requires
                y < 2 * below,
                below * below <= n,
        ;
    }
    if k > power_pattern(1) {
        let y = doubled_midpoint((k - 1) as nat);
        lemma_increasing(power_pattern(1), (k - 1) as nat);
        lemma_increasing((k - 1) as nat, k);
        assert(4 * n < y * y) by (nonlinear_arith)
            requires
                y > 2 * above,
                n <= above * above,
        ;
    }
}

/// The term of a shelf that holds the root of the amplitude.
proof fn lemma_shelf_term(sin_w: Single, a: Single)
    requires
        !sin_w.negative(),
        is_above(sin_w, -8),
        is_below(sin_w, 0),
        is_amplitude(a),
    ensures
        !Transfer::shelf_term(sin_w, a).negative(),
        is_above(Transfer::shelf_term(sin_w, a), -9),
        is_below(Transfer::shelf_term(sin_w, a), 2),
{
    let half = Single { bits: HALF };
    let sqrt_2 = Single { bits: SQRT_2 };
    let two = Single { bits: TWO };
    lemma_constants();
    lemma_root_range(a);
    lemma_power(0);
    lemma_power(1);
    lemma_power(2);
    lemma_power(-1);
    lemma_power(-8);
    lemma_power(-9);
    lemma_product_range(sin_w, half, -8, -1);
    lemma_product_range(sin_w, half, 0, -1);
    lemma_product_range(sin_w * half, sqrt_2, -9, 0);
    lemma_product_range(sin_w * half, sqrt_2, -1, 1);
    lemma_product_range(two, a.root(), 1, -1);
    lemma_product_range(two, a.root(), 1, 1);
    let alpha = sin_w * half * sqrt_2;
    lemma_product_range(two * a.root(), alpha, 0, -9);
    lemma_product_range(two * a.root(), alpha, 2, 0);
}

/// Whether two numbers in units of the square of the smallest number, in which
/// one is `w`, are at most `n` roundings at one apart.
spec fn is_within(x: int, y: int, n: int, w: int) -> bool {
    -(n * w) <= (x - y) * 0x100_0000 <= n * w
}

/// The rounding of a sum.
proof fn lemma_sum_scaled(x: Single, y: Single, n: int)
    requires
        x.is_finite(),
        y.is_finite(),
        (x + y).is_finite(),
        abs(x.value() + y.value()) <= n * pow2(149),
    ensures
        ({
            let u = pow2(149) as int;
            is_within((x + y).value() * u, x.value() * u + y.value() * u, n, u * u)
        }),
{
    let u = pow2(149) as int;
    lemma_sum(x, y);
    lemma_small_powers();
    let (v, a, b) = ((x + y).value(), x.value(), y.value());
    let d = v - (a + b);
    let m = n * u;
    assert(-m <= d * 0x100_0000 <= m);
    assert(v * u - (a * u + b * u) == d * u && -(m * u) <= (d * u) * 0x100_0000 <= m * u && m * u
        == n * (u * u)) by (nonlinear_arith)
        requires
            -m <= d * 0x100_0000 <= m,
            d == v - (a + b),
            m == n * u,
            u >= 0,
    ;
}

/// The rounding of a product with a cosine.
proof fn lemma_product_scaled(x: Single, c: Single, n: int)
    requires
        (x * c).is_finite(),
        0 <= n <= 8,
        abs(x.value()) <= n * pow2(149),
        abs(c.value()) <= pow2(149),
    ensures
        abs((x * c).value()) <= (n + 1) * pow2(149),
        ({
            let u = pow2(149) as int;
            is_within((x * c).value() * u, x.value() * c.value(), n + 1, u * u)
        }),
{
    let u = pow2(149) as int;
    law_product_error(x, c);
    lemma_small_powers();
    lemma_pow2_adds(24, 125);
    lemma_pow2_pos(125);
    assert(pow2(24) == 0x100_0000) by {
        vstd::arithmetic::power2::lemma2_to64();
    }
    let (k, a, b) = ((x * c).value(), x.value(), c.value());
    lemma_bounded_product(a, b, n * u, u);
    assert(u * k == k * u && n * u * u + u * u == (n + 1) * (u * u) && u * 0x80_0000 <= u * u)
        by (nonlinear_arith)
        requires
            u >= 0x100_0000,
    ;
    assert(n * u * u == n * (u * u) && (n + 1) * (u * u) == n * (u * u) + u * u && n * (u * u) <= 8
        * (u * u)) by (nonlinear_arith)
        requires
            n <= 8,
    ;
    assert(-((n + 1) * u) <= k <= (n + 1) * u) by (nonlinear_arith)
        requires
            -((n + 1) * (u * u)) <= k * u <= (n + 1) * (u * u),
            u > 0,
    ;
}

/// A product of bounded numbers.
proof fn lemma_bounded_product(a: int, b: int, n: int, m: int)
    requires
        abs(a) <= n,
        abs(b) <= m,
    ensures
        abs(a * b) <= n * m,
{
    assert(-(n * m) <= a * b <= n * m) by (nonlinear_arith)
        requires
            -n <= a <= n,
            -m <= b <= m,
    ;
}

/// The terms of a shelf that boosts, without its root, and their roundings:
/// `au`, `cu` and `ac` are the amplitude, the cosine and their product, `pu`
/// and `mu` the rounded sum and difference of the amplitude and one, `pc` and
/// `mc` their products with the cosine, `hu` and `ku` these rounded, `zu` and
/// `gu` the rounded sums.
proof fn lemma_boost_sums(
    w: int,
    au: int,
    cu: int,
    ac: int,
    pu: int,
    mu: int,
    pc: int,
    mc: int,
    hu: int,
    ku: int,
    zu: int,
    gu: int,
)
    requires
        w > 0,
        (w - cu) * 0x2_0000 >= w,
        (w + cu) * 0x2_0000 >= w,
        w - cu <= au - ac <= 4 * (w - cu),
        w + cu <= au + ac <= 4 * (w + cu),
        is_within(pu, au + w, 5, w),
        is_within(mu, au - w, 3, w),
        is_within(pc, ac + cu, 5, w),
        is_within(mc, ac - cu, 3, w),
        is_within(hu, pc, 7, w),
        is_within(ku, mc, 5, w),
        is_within(zu, pu + ku, 11, w),
        is_within(gu, mu + hu, 11, w),
    ensures
        3 * w <= 8 * zu <= 72 * w,
        (zu - gu) * 0x100_0000 >= 200 * w,
        (zu + gu) * 0x100_0000 >= 200 * w,
{
}

/// The same of a shelf that cuts. All terms are smaller, and so are their
/// roundings.
proof fn lemma_cut_sums(
    w: int,
    au: int,
    cu: int,
    ac: int,
    pu: int,
    mu: int,
    pc: int,
    mc: int,
    hu: int,
    ku: int,
    zu: int,
    gu: int,
)
    requires
        w > 0,
        (w - cu) * 0x2_0000 >= w,
        (w + cu) * 0x2_0000 >= w,
        w - cu <= 4 * (au - ac) <= 4 * (w - cu),
        w + cu <= 4 * (au + ac) <= 4 * (w + cu),
        is_within(pu, au + w, 2, w),
        is_within(mu, au - w, 1, w),
        is_within(pc, ac + cu, 2, w),
        is_within(mc, ac - cu, 1, w),
        is_within(hu, pc, 4, w),
        is_within(ku, mc, 2, w),
        is_within(zu, pu + ku, 5, w),
        is_within(gu, mu + hu, 5, w),
    ensures
        3 * w <= 8 * zu <= 24 * w,
        (zu - gu) * 0x100_0000 >= 40 * w,
        (zu + gu) * 0x100_0000 >= 40 * w,
{
}

/// A shelf that boosts, with its root: `tu` is the root's term, `xu` and `yu`
/// the rounded sum and difference with it.
proof fn lemma_boost_room(w: int, zu: int, gu: int, tu: int, xu: int, yu: int)
    requires
        w > 0,
        3 * w <= 8 * zu <= 72 * w,
        (zu - gu) * 0x100_0000 >= 200 * w,
        (zu + gu) * 0x100_0000 >= 200 * w,
        w <= 512 * tu <= 2048 * w,
        is_within(xu, zu + tu, 13, w),
        is_within(yu, zu - tu, 13, w),
    ensures
        w <= 4 * xu,
        (xu - yu) * 0x100_0000 >= 5 * xu,
        (xu + yu) * 0x100_0000 >= 5 * xu,
        (xu + yu - 2 * gu) * 0x100_0000 >= 5 * xu,
        (xu + yu + 2 * gu) * 0x100_0000 >= 5 * xu,
{
}

/// The same of a shelf that cuts.
proof fn lemma_cut_room(w: int, zu: int, gu: int, tu: int, xu: int, yu: int)
    requires
        w > 0,
        3 * w <= 8 * zu <= 24 * w,
        (zu - gu) * 0x100_0000 >= 40 * w,
        (zu + gu) * 0x100_0000 >= 40 * w,
        w <= 512 * tu <= 2048 * w,
        is_within(xu, zu + tu, 7, w),
        is_within(yu, zu - tu, 7, w),
    ensures
        w <= 4 * xu,
        (xu - yu) * 0x100_0000 >= 5 * xu,
        (xu + yu) * 0x100_0000 >= 5 * xu,
        (xu + yu - 2 * gu) * 0x100_0000 >= 5 * xu,
        (xu + yu + 2 * gu) * 0x100_0000 >= 5 * xu,
{
}

/// The feedback of a shelf, for a cosine or its opposite `s` and the term `t`
/// of the root.
proof fn lemma_shelf_feedback(s: Single, t: Single, a: Single)
    requires
        s.is_finite(),
        (pow2(149) - abs(s.value())) * 0x2_0000 >= pow2(149),
        !t.negative(),
        is_above(t, -9),
        is_below(t, 2),
        is_amplitude(a),
    ensures
        ({
            let one = Single { bits: ONE };
            let p = a + one;
            let m = a - one;
            let z = p + m * s;
            let g = m + p * s;
            let x = z + t;
            let y = z - t;
            &&& is_below(p, 3) && is_below(m, 3) && is_below(z, 4) && is_below(g, 4)
            &&& is_below(x, 5) && is_below(y, 5)
            &&& !x.negative()
            &&& is_above(x, -2)
            &&& (x.value() - abs(y.value())) * 0x100_0000 >= 5 * x.value()
            &&& (x.value() + y.value() - 2 * abs(g.value())) * 0x100_0000 >= 5 * x.value()
        }),
{
    let one = Single { bits: ONE };
    let u = pow2(149) as int;
    let w = u * u;
    let p = a + one;
    let m = a - one;
    let k = m * s;
    let h = p * s;
    let z = p + k;
    let g = m + h;
    let x = z + t;
    let y = z - t;
    lemma_small_powers();
    lemma_constants();
    lemma_cosine(s);
    lemma_shelf_ranges(s, t, a);
    lemma_opposite(one);
    lemma_opposite(t);
    let (av, sv, tv) = (a.value(), s.value(), t.value());
    // The amplitude and the term in units.
    lemma_power(-2);
    lemma_power(2);
    lemma_power(-9);
    lemma_increasing(power_pattern(-2), a.pattern());
    lemma_increasing(a.pattern(), power_pattern(2));
    lemma_increasing(power_pattern(-9), t.pattern());
    lemma_increasing(t.pattern(), power_pattern(2));
    lemma_pow2_adds(147, 2);
    lemma_pow2_adds(149, 2);
    lemma_pow2_adds(140, 9);
    assert(pow2(2) == 4 && pow2(9) == 512) by {
        vstd::arithmetic::power2::lemma2_to64();
    }
    lemma_sum(a, one);
    lemma_sum(a, one.opposite());
    let (pv, mv) = (p.value(), m.value());
    let (kv, hv) = (k.value(), h.value());
    let (zv, gv) = (z.value(), g.value());
    let (xv, yv) = (x.value(), y.value());
    assert((-u) * u == -w && (-tv) * u == -(tv * u)) by (nonlinear_arith)
        requires
            w == u * u,
    ;
    assert(w > 0) by (nonlinear_arith)
        requires
            w == u * u,
            u > 0,
    ;
    if av >= u {
        lemma_sum_scaled(a, one, 5);
        lemma_sum_scaled(a, one.opposite(), 3);
        lemma_product_scaled(p, s, 6);
        lemma_product_scaled(m, s, 4);
        lemma_cosine_products(av, sv, pv, mv, 5, 3, u);
        lemma_sum_scaled(p, k, 11);
        lemma_sum_scaled(m, h, 11);
        lemma_boost_sums(
            w,
            av * u,
            sv * u,
            av * sv,
            pv * u,
            mv * u,
            pv * sv,
            mv * sv,
            hv * u,
            kv * u,
            zv * u,
            gv * u,
        );
        lemma_shelf_units(w, tv, zv, 72, u);
        lemma_sum_scaled(z, t, 13);
        lemma_sum_scaled(z, t.opposite(), 13);
        lemma_boost_room(w, zv * u, gv * u, tv * u, xv * u, yv * u);
    } else {
        lemma_sum_scaled(a, one, 2);
        lemma_sum_scaled(a, one.opposite(), 1);
        lemma_product_scaled(p, s, 3);
        lemma_product_scaled(m, s, 1);
        lemma_cosine_products(av, sv, pv, mv, 2, 1, u);
        lemma_sum_scaled(p, k, 5);
        lemma_sum_scaled(m, h, 5);
        lemma_cut_sums(
            w,
            av * u,
            sv * u,
            av * sv,
            pv * u,
            mv * u,
            pv * sv,
            mv * sv,
            hv * u,
            kv * u,
            zv * u,
            gv * u,
        );
        lemma_shelf_units(w, tv, zv, 24, u);
        lemma_sum_scaled(z, t, 7);
        lemma_sum_scaled(z, t.opposite(), 7);
        lemma_cut_room(w, zv * u, gv * u, tv * u, xv * u, yv * u);
    }
    lemma_room_unscaled(xv, yv, gv, u);
    if x.pattern() < power_pattern(-2) {
        lemma_increasing(x.pattern(), power_pattern(-2));
    }
}

/// The sizes of a term `t` and of a sum `z`, in units and scaled.
proof fn lemma_shelf_units(w: int, t: int, z: int, n: int, u: int)
    requires
        u > 0,
        w == u * u,
        u <= 512 * t <= 2048 * u,
        3 * w <= 8 * (z * u) <= n * w,
    ensures
        w <= 512 * (t * u) <= 2048 * w,
        0 <= 8 * z <= n * u,
{
    assert(w <= 512 * (t * u) <= 2048 * w) by (nonlinear_arith)
        requires
            u <= 512 * t <= 2048 * u,
            w == u * u,
            u > 0,
    ;
    assert(0 <= 8 * z <= n * u) by (nonlinear_arith)
        requires
            0 <= 8 * (z * u) <= n * w,
            w == u * u,
            u > 0,
    ;
}

/// The room of a shelf, from scaled numbers back to units.
proof fn lemma_room_unscaled(x: int, y: int, g: int, u: int)
    requires
        u > 0,
        u * u <= 4 * (x * u),
        (x * u - y * u) * 0x100_0000 >= 5 * (x * u),
        (x * u + y * u) * 0x100_0000 >= 5 * (x * u),
        (x * u + y * u - 2 * (g * u)) * 0x100_0000 >= 5 * (x * u),
        (x * u + y * u + 2 * (g * u)) * 0x100_0000 >= 5 * (x * u),
    ensures
        u <= 4 * x,
        (x - y) * 0x100_0000 >= 5 * x,
        (x + y) * 0x100_0000 >= 5 * x,
        (x + y - 2 * g) * 0x100_0000 >= 5 * x,
        (x + y + 2 * g) * 0x100_0000 >= 5 * x,
{
    lemma_unscale(4 * x, u, u);
    lemma_unscale((x - y) * 0x100_0000, 5 * x, u);
    lemma_unscale((x + y) * 0x100_0000, 5 * x, u);
    lemma_unscale((x + y - 2 * g) * 0x100_0000, 5 * x, u);
    lemma_unscale((x + y + 2 * g) * 0x100_0000, 5 * x, u);
    assert((4 * x) * u == 4 * (x * u) && (5 * x) * u == 5 * (x * u)) by (nonlinear_arith);
    assert(((x - y) * 0x100_0000) * u == (x * u - y * u) * 0x100_0000 && ((x + y) * 0x100_0000) * u
        == (x * u + y * u) * 0x100_0000) by (nonlinear_arith);
    assert(((x + y - 2 * g) * 0x100_0000) * u == (x * u + y * u - 2 * (g * u)) * 0x100_0000)
        by (nonlinear_arith);
    assert(((x + y + 2 * g) * 0x100_0000) * u == (x * u + y * u + 2 * (g * u)) * 0x100_0000)
        by (nonlinear_arith);
}

/// Division by a positive number on both sides.
proof fn lemma_unscale(x: int, y: int, u: int)
    requires
        u > 0,
    ensures
        x * u >= y * u ==> x >= y,
{
    assert(x * u >= y * u ==> x >= y) by (nonlinear_arith)
        requires
            u > 0,
    ;
}

/// The products of a shelf with the cosine, by the bounds of their factors and
/// the roundings `np` and `nm` of the sum and the difference.
proof fn lemma_cosine_products(
    av: int,
    sv: int,
    pv: int,
    mv: int,
    np: int,
    nm: int,
    u: int,
)
    requires
        u > 0,
        u <= 4 * av <= 16 * u,
        (u - abs(sv)) * 0x2_0000 >= u,
        abs(pv - (av + u)) * 0x100_0000 <= np * u,
        abs(mv - (av - u)) * 0x100_0000 <= nm * u,
    ensures
        ({
            let w = u * u;
            let (au, su, b) = (av * u, sv * u, av * sv);
            &&& (w - su) * 0x2_0000 >= w
            &&& (w + su) * 0x2_0000 >= w
            &&& w - su <= 4 * (au - b) <= 16 * (w - su)
            &&& w + su <= 4 * (au + b) <= 16 * (w + su)
            &&& av <= u ==> au - b <= w - su && au + b <= w + su
            &&& av >= u ==> au - b >= w - su && au + b >= w + su
            &&& is_within(pv * sv, b + su, np, w)
            &&& is_within(mv * sv, b - su, nm, w)
        }),
{
    let w = u * u;
    let d = u - sv;
    let e = u + sv;
    assert((w - sv * u) == u * d && (w + sv * u) == u * e && av * u - av * sv == av * d && av * u
        + av * sv == av * e) by (nonlinear_arith)
        requires
            w == u * u,
            d == u - sv,
            e == u + sv,
    ;
    assert(u * d * 0x2_0000 >= w && u * e * 0x2_0000 >= w) by (nonlinear_arith)
        requires
            d * 0x2_0000 >= u,
            e * 0x2_0000 >= u,
            w == u * u,
            u > 0,
    ;
    lemma_between(av, u, d);
    lemma_between(av, u, e);
    let x = pv - (av + u);
    let y = mv - (av - u);
    lemma_bounded_product(x * 0x100_0000, sv, np * u, u);
    lemma_bounded_product(y * 0x100_0000, sv, nm * u, u);
    assert(pv * sv - (av * sv + sv * u) == x * sv && mv * sv - (av * sv - sv * u) == y * sv && (x
        * 0x100_0000) * sv == (x * sv) * 0x100_0000 && (y * 0x100_0000) * sv == (y * sv)
        * 0x100_0000 && np * u * u == np * w && nm * u * u == nm * w) by (nonlinear_arith)
        requires
            w == u * u,
            x == pv - (av + u),
            y == mv - (av - u),
    ;
}

/// An amplitude times a number that is not negative.
proof fn lemma_between(av: int, u: int, d: int)
    requires
        u <= 4 * av <= 16 * u,
        d >= 0,
    ensures
        u * d <= 4 * (av * d) <= 16 * (u * d),
        av <= u ==> av * d <= u * d,
        av >= u ==> av * d >= u * d,
{
    assert(u * d <= 4 * (av * d) <= 16 * (u * d)) by (nonlinear_arith)
        requires
            u <= 4 * av <= 16 * u,
            d >= 0,
    ;
    assert((av <= u ==> av * d <= u * d) && (av >= u ==> av * d >= u * d)) by (nonlinear_arith)
        requires
            d >= 0,
    ;
}

/// The sizes of the terms of a shelf.
proof fn lemma_shelf_ranges(s: Single, t: Single, a: Single)
    requires
        is_below(s, 0),
        is_below(t, 2),
        is_below(a, 2),
    ensures
        ({
            let one = Single { bits: ONE };
            let p = a + one;
            let m = a - one;
            let z = p + m * s;
            let g = m + p * s;
            &&& is_below(p, 3) && is_below(m, 3) && is_below(m * s, 3) && is_below(p * s, 3)
            &&& is_below(z, 4) && is_below(g, 4)
            &&& is_below(z + t, 5) && is_below(z - t, 5)
            &&& forall|x: Single| is_below(x, 5) ==> #[trigger] x.is_finite()
        }),
{
    let one = Single { bits: ONE };
    let p = a + one;
    let m = a - one;
    lemma_constants();
    lemma_power(0);
    lemma_power(2);
    lemma_power(3);
    lemma_power(4);
    lemma_power(5);
    lemma_sum_range(a, one, 2);
    lemma_product_range(m, s, 3, 0);
    lemma_product_range(p, s, 3, 0);
    lemma_sum_range(p, m * s, 3);
    lemma_sum_range(m, p * s, 3);
    lemma_sum_range(p + m * s, t, 4);
}

/// A shelf is stable.
proof fn lemma_shelf_stable(kind: FilterKind, cos_w: Single, sin_w: Single, q: Single, a: Single)
    requires
        kind is LowShelf || kind is HighShelf,
        is_angle(cos_w, sin_w),
        is_amplitude(a),
    ensures
        is_stable(Transfer::of(kind, cos_w, sin_w, q, a).normalized()),
{
    let one = Single { bits: ONE };
    let two = Single { bits: TWO };
    let minus_two = Single { bits: MINUS_TWO };
    let t = Transfer::of(kind, cos_w, sin_w, q, a);
    let root = Transfer::shelf_term(sin_w, a);
    let p = a + one;
    let m = a - one;
    let s = if kind is LowShelf {
        cos_w
    } else {
        cos_w.opposite()
    };
    lemma_constants();
    lemma_power(0);
    lemma_power(1);
    lemma_power(2);
    lemma_power(3);
    lemma_power(4);
    lemma_power(8);
    lemma_cosine(cos_w);
    lemma_opposite(cos_w);
    lemma_shelf_term(sin_w, a);
    lemma_shelf_ranges(cos_w, root, a);
    lemma_shelf_feedback(s, root, a);
    lemma_product_range(m, cos_w, 3, 0);
    lemma_product_range(p, cos_w, 3, 0);
    law_opposite_factor(m, cos_w);
    law_opposite_factor(p, cos_w);
    let g = m + p * s;
    lemma_two_times(g);
    lemma_product_range(two, g, 1, 4);
    lemma_product_range(minus_two, g, 1, 4);
    // The taps of the input.
    lemma_sum_range(p, m * cos_w, 3);
    lemma_sum_range(m, p * cos_w, 3);
    let z = if kind is LowShelf {
        p - m * cos_w
    } else {
        p + m * cos_w
    };
    lemma_sum_range(z, root, 4);
    lemma_power(5);
    lemma_product_range(a, z + root, 2, 5);
    lemma_product_range(a, z - root, 2, 5);
    lemma_product_range(two, a, 1, 2);
    lemma_product_range(minus_two, a, 1, 2);
    lemma_product_range(two * a, m - p * cos_w, 3, 4);
    lemma_product_range(minus_two * a, m + p * cos_w, 3, 4);
    law_margin_makes_stable(t);
}

/// Whether these settings are in use: a frequency that is not too close to
/// zero or to half the sample rate, and a quality and an amplitude in range
/// where the shape takes them.
pub open spec fn is_in_use(
    kind: FilterKind,
    cos_w: Single,
    sin_w: Single,
    q: Single,
    a: Single,
) -> bool {
    &&& is_angle(cos_w, sin_w)
    &&& kind is LowShelf || kind is HighShelf || is_quality(q)
    &&& kind.takes_gain() ==> is_amplitude(a)
}

/// Every section is stable as it is computed, for settings in use.
pub proof fn law_sections_stable(
    kind: FilterKind,
    cos_w: Single,
    sin_w: Single,
    q: Single,
    a: Single,
)
    requires
        is_in_use(kind, cos_w, sin_w, q, a),
    ensures
        is_stable(Transfer::of(kind, cos_w, sin_w, q, a).normalized()),
{
    match kind {
        FilterKind::LowShelf => lemma_shelf_stable(kind, cos_w, sin_w, q, a),
        FilterKind::HighShelf => lemma_shelf_stable(kind, cos_w, sin_w, q, a),
        FilterKind::Peaking => lemma_peak_stable(cos_w, sin_w, q, a),
        FilterKind::LowPass => lemma_crossover_stable(kind, cos_w, sin_w, q, a),
        FilterKind::HighPass => lemma_crossover_stable(kind, cos_w, sin_w, q, a),
        FilterKind::AllPass => lemma_crossover_stable(kind, cos_w, sin_w, q, a),
    }
}

/// Whether the host's cosines and sines of `w` are those of a frequency in use.
pub open spec fn tells_frequency<M: Elementary>(math: &M, w: Single) -> bool {
    forall|c: Single, s: Single| #[trigger]
        cos_gives(math, w, c) && #[trigger] sin_gives(math, w, s) ==> is_angle(c, s)
}

/// Whether the host's amplitudes for a gain are in range.
pub open spec fn tells_amplitude<M: Elementary>(math: &M, gain_db: Single) -> bool {
    forall|y: Single| #[trigger]
        powf_gives(math, Single { bits: TEN }, amplitude_exponent(gain_db), y) ==> is_amplitude(y)
}

/// The coefficients that a host's answers in range make are stable.
pub proof fn law_tuned_stable<M: Elementary>(
    c: Coefficients,
    math: &M,
    kind: FilterKind,
    f0: Single,
    q: Single,
    gain_db: Single,
    fs: Single,
)
    requires
        c.tuned(math, kind, f0, q, gain_db, fs),
        tells_frequency(math, angular_frequency(f0, fs)),
        kind is LowShelf || kind is HighShelf || is_quality(q),
        kind.takes_gain() ==> tells_amplitude(math, gain_db),
    ensures
        is_stable(c),
{
    let w = angular_frequency(f0, fs);
    let (cos_w, sin_w, a) = choose|cos_w: Single, sin_w: Single, a: Single|
        {
            &&& #[trigger] cos_gives(math, w, cos_w)
            &&& #[trigger] sin_gives(math, w, sin_w)
            &&& kind.takes_gain() ==> powf_gives(
                math,
                Single { bits: TEN },
                amplitude_exponent(gain_db),
                a,
            )
            &&& c == (#[trigger] Transfer::of(kind, cos_w, sin_w, q, a)).normalized()
        };
    law_sections_stable(kind, cos_w, sin_w, q, a);
}

/// Whether the sections of the low band are stable.
pub open spec fn is_stable_low(b: LowBand) -> bool {
    &&& is_stable(b.first.coefficients)
    &&& is_stable(b.second.coefficients)
    &&& is_stable(b.third.coefficients)
}

/// Whether the sections of a band are stable.
pub open spec fn is_stable_band(b: Band) -> bool {
    &&& is_stable(b.first.coefficients)
    &&& is_stable(b.second.coefficients)
    &&& is_stable(b.third.coefficients)
    &&& is_stable(b.fourth.coefficients)
}

/// Whether all sections of a chain are stable.
pub open spec fn is_stable_chain(c: Chain) -> bool {
    &&& is_stable(c.low_eq.coefficients)
    &&& is_stable(c.mid_eq.coefficients)
    &&& is_stable(c.high_eq.coefficients)
    &&& is_stable_low(c.low)
    &&& is_stable_band(c.mid)
    &&& is_stable_band(c.high)
}

/// Whether the host's answers for all frequencies of the chain are in range at
/// this sample rate.
pub open spec fn tells_frequencies<M: Elementary>(math: &M, fs: Single) -> bool {
    &&& tells_frequency(math, angular_frequency(Single { bits: F_LOW_SHELF }, fs))
    &&& tells_frequency(math, angular_frequency(Single { bits: F_PEAK }, fs))
    &&& tells_frequency(math, angular_frequency(Single { bits: F_HIGH_SHELF }, fs))
    &&& tells_frequency(math, angular_frequency(Single { bits: F_LOW_MID }, fs))
    &&& tells_frequency(math, angular_frequency(Single { bits: F_MID_HIGH }, fs))
}

/// The qualities of the chain are in range.
proof fn lemma_qualities()
    ensures
        is_quality(Single { bits: Q_LR }),
        is_quality(Single { bits: Q_PEAK }),
{
}

/// A new section of the crossover is stable.
proof fn lemma_fresh_stage_stable<M: Elementary>(
    b: Biquad,
    math: &M,
    stage: (FilterKind, u32),
    fs: Single,
)
    requires
        is_fresh_stage(b, math, stage, fs),
        !stage.0.takes_gain(),
        tells_frequency(math, angular_frequency(Single { bits: stage.1 }, fs)),
    ensures
        is_stable(b.coefficients),
{
    lemma_qualities();
    law_tuned_stable(
        b.coefficients,
        math,
        stage.0,
        Single { bits: stage.1 },
        Single { bits: Q_LR },
        Single { bits: ZERO },
        fs,
    );
}

/// All sections of a new chain are stable, for a host whose answers are in
/// range.
pub proof fn law_stable_at_first<M: Elementary>(c: Chain, math: &M, fs: Single)
    requires
        is_fresh_chain(c, math, fs),
        tells_frequencies(math, fs),
        tells_amplitude(math, Single { bits: ZERO }),
    ensures
        is_stable_chain(c),
{
    let zero = Single { bits: ZERO };
    lemma_qualities();
    law_tuned_stable(
        c.low_eq.coefficients,
        math,
        FilterKind::LowShelf,
        Single { bits: F_LOW_SHELF },
        Single { bits: Q_LR },
        zero,
        fs,
    );
    law_tuned_stable(
        c.mid_eq.coefficients,
        math,
        FilterKind::Peaking,
        Single { bits: F_PEAK },
        Single { bits: Q_PEAK },
        zero,
        fs,
    );
    law_tuned_stable(
        c.high_eq.coefficients,
        math,
        FilterKind::HighShelf,
        Single { bits: F_HIGH_SHELF },
        Single { bits: Q_LR },
        zero,
        fs,
    );
    reveal(is_fresh_low);
    reveal(is_fresh_band);
    lemma_fresh_stage_stable(c.low.first, math, low_plan().0, fs);
    lemma_fresh_stage_stable(c.low.second, math, low_plan().1, fs);
    lemma_fresh_stage_stable(c.low.third, math, low_plan().2, fs);
    lemma_fresh_stage_stable(c.mid.first, math, mid_plan().0, fs);
    lemma_fresh_stage_stable(c.mid.second, math, mid_plan().1, fs);
    lemma_fresh_stage_stable(c.mid.third, math, mid_plan().2, fs);
    lemma_fresh_stage_stable(c.mid.fourth, math, mid_plan().3, fs);
    lemma_fresh_stage_stable(c.high.first, math, high_plan().0, fs);
    lemma_fresh_stage_stable(c.high.second, math, high_plan().1, fs);
    lemma_fresh_stage_stable(c.high.third, math, high_plan().2, fs);
    lemma_fresh_stage_stable(c.high.fourth, math, high_plan().3, fs);
}

/// A parameter write leaves all sections stable, for a host whose answers are
/// in range.
pub proof fn law_stable_over_a_write<M: Elementary>(
    c: Chain,
    math: &M,
    id: u32,
    v: Single,
    fs: Single,
    change: Change,
)
    requires
        is_stable_chain(c),
        means(change, math, id, v, fs),
        tells_frequencies(math, fs),
        id <= 2 ==> tells_amplitude(math, v),
    ensures
        is_stable_chain(c.changed(change)),
{
    lemma_qualities();
    match change {
        Change::LowEq(d) => law_tuned_stable(
            d,
            math,
            FilterKind::LowShelf,
            Single { bits: F_LOW_SHELF },
            Single { bits: Q_LR },
            v,
            fs,
        ),
        Change::MidEq(d) => law_tuned_stable(
            d,
            math,
            FilterKind::Peaking,
            Single { bits: F_PEAK },
            Single { bits: Q_PEAK },
            v,
            fs,
        ),
        Change::HighEq(d) => law_tuned_stable(
            d,
            math,
            FilterKind::HighShelf,
            Single { bits: F_HIGH_SHELF },
            Single { bits: Q_LR },
            v,
            fs,
        ),
        _ => {},
    }
}

/// Whether some write means this change, with amplitudes of the host in range
/// where it is one to the equalizer.
pub open spec fn is_moderate<M: Elementary>(math: &M, fs: Single, change: Change) -> bool {
    exists|id: u32, v: Single| #[trigger]
        means(change, math, id, v, fs) && (id <= 2 ==> tells_amplitude(math, v))
}

/// Over any history of writes and frames all sections stay stable, for a host
/// whose answers are in range.
pub proof fn law_stable_over_any_history<M: Elementary>(
    c: Chain,
    math: &M,
    fs: Single,
    events: Seq<Event>,
)
    requires
        is_stable_chain(c),
        tells_frequencies(math, fs),
        forall|i: int|
            0 <= i < events.len() ==> (#[trigger] events[i] matches Event::Written(change)
                ==> is_moderate(math, fs, change)),
    ensures
        is_stable_chain(after(c, events)),
    decreases events.len(),
{
    if events.len() > 0 {
        let before = events.drop_last();
        assert forall|i: int| 0 <= i < before.len() implies (#[trigger] before[i] matches
            Event::Written(change) ==> is_moderate(math, fs, change)) by {
            assert(before[i] == events[i]);
        }
        law_stable_over_any_history(c, math, fs, before);
        let d = after(c, before);
        assert(events.last() == events[events.len() - 1]);
        match events.last() {
            Event::Written(change) => {
                let (id, v) = choose|id: u32, v: Single| #[trigger]
                    means(change, math, id, v, fs) && (id <= 2 ==> tells_amplitude(math, v));
                law_stable_over_a_write(d, math, id, v, fs, change);
            },
            Event::Ran(l, r, n) => law_coefficients_kept_over_a_run(d, l, r, n),
        }
    }
}

/// Over any history of writes and frames, a new chain keeps all sections
/// stable, a finite target for every smoother, and the share of the crossover
/// between nothing and everything, for a host whose answers are in range.
pub proof fn law_fresh_chain_over_any_history<M: Elementary>(
    c: Chain,
    math: &M,
    fs: Single,
    events: Seq<Event>,
)
    requires
        is_fresh_chain(c, math, fs),
        tells_frequencies(math, fs),
        tells_amplitude(math, Single { bits: ZERO }),
        forall|y: Single| #[trigger]
            exp_gives(math, Smoother::exponent(fs, Single { bits: T_SLOW }), y) ==> between(
                Single { bits: HALF },
                y,
                Single { bits: ONE },
            ),
        forall|i: int|
            0 <= i < events.len() ==> (#[trigger] events[i] matches Event::Written(change)
                ==> is_written(math, fs, change) && is_moderate(math, fs, change)),
    ensures
        is_stable_chain(after(c, events)),
        targets_finite(after(c, events)),
        is_switch(after(c, events).mb_wet),
{
    law_stable_at_first(c, math, fs);
    law_targets_finite_at_first(c, math, fs);
    law_share_in_range_at_first(c, math, fs);
    law_stable_over_any_history(c, math, fs, events);
    law_in_range_over_any_history(c, math, fs, events);
}

} // verus!
