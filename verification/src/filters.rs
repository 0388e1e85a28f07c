//! What holds of the filters' coefficients as they are computed.
use vstd::arithmetic::power2::{lemma_pow2_adds, lemma_pow2_pos, pow2};
use vstd::prelude::*;

use crate::arithmetic::{
    abs, doubled_pattern, law_add_zero, law_alike, law_commutative, law_double, law_finite_terms,
    law_from_zero, law_half, law_minus_itself, law_opposite_factor, law_product_error,
    law_times_one, law_times_zero, lemma_doubled_pattern, lemma_nearest_bounded,
    lemma_nearest_error, lemma_one_and_one, lemma_opposite, lemma_results_canonical,
    lemma_rounded_parts, lemma_signed, lemma_small_powers, lemma_sum, lemma_sum_value,
    lemma_taken_apart,
};
use crate::biquad::{
    amplitude_exponent, angular_frequency, Coefficients, FilterKind, History, Transfer,
};
use crate::chain::Chain;
use crate::constants::{FORTY, HALF, MINUS_TWO, ONE, SQRT_2, TEN, TWO, ZERO};
use crate::elementary::{cos_gives, powf_gives, sin_gives, Elementary};
use crate::engine::{is_fresh_chain, F_HIGH_SHELF, F_LOW_SHELF, F_PEAK, Q_LR, Q_PEAK};
use crate::grid::{
    doubled_midpoint, is_nearest_root, lemma_compose, lemma_exact, lemma_increasing,
    lemma_nearest_monotone, lemma_nearest_root_unique, lemma_step, lemma_zero, magnitude, nearest,
    BINADE, INFINITY,
};
use crate::scaling::{is_clear, law_product_doubles};
use crate::single::{signed, Single};

verus! {

/// Whether numerator and denominator of a transfer function are equal, and the
/// function can be normalized: the filter does nothing.
pub open spec fn is_flat(t: Transfer) -> bool {
    &&& t.a0.is_finite()
    &&& !t.a0.is_zero()
    &&& t.b0 == t.a0
    &&& !t.b2.is_nan()
    &&& t.b2 == t.a2
    &&& !t.b1.is_nan()
    &&& !t.a1.is_nan()
    &&& t.b1.value() == t.a1.value()
}

/// Twice a number, computed from either side of zero: once as the opposite of
/// a difference from zero and once directly.
proof fn lemma_shelf_middle(cos_w: Single)
    requires
        cos_w.is_finite(),
    ensures
        ({
            let y = (Single { bits: TWO }) * cos_w;
            let zero = Single { bits: ZERO };
            let p = (Single { bits: TWO }) * (zero - y);
            let q = (Single { bits: MINUS_TWO }) * (zero + y);
            !p.is_nan() && !q.is_nan() && p.value() == q.value()
        }),
{
    let two = Single { bits: TWO };
    let zero = Single { bits: ZERO };
    let y = two * cos_w;
    lemma_product_is_number(two, cos_w);
    if y.is_zero() {
        lemma_opposite(y);
        lemma_zero_sum(zero, y);
        lemma_zero_sum(zero, y.opposite());
        law_times_zero(two, zero - y);
        law_times_zero(Single { bits: MINUS_TWO }, zero + y);
        lemma_zero(0);
    } else {
        law_from_zero(y);
        law_opposite_factor(two, y);
        lemma_product_is_number(two, y);
        lemma_opposite(two * y);
    }
}

/// Two zeros add up to zero.
proof fn lemma_zero_sum(x: Single, y: Single)
    requires
        x.is_zero(),
        y.is_zero(),
    ensures
        (x + y).is_zero(),
{
    reveal(Single::spec_add);
    lemma_zero(0);
}

/// A product with two is a number if the other factor is.
proof fn lemma_product_is_number(two: Single, x: Single)
    requires
        two.bits == TWO,
        !x.is_nan(),
    ensures
        !(two * x).is_nan(),
{
    reveal(Single::spec_mul);
    lemma_nearest_bounded(
        magnitude(two.pattern()) * magnitude(x.pattern()),
        pow2(149),
    );
}

/// At a gain of 0 dB, for which the amplitude is one, every band of the
/// equalizer is flat, wherever its first feedback tap can be divided by.
pub proof fn law_flat_at_unity(kind: FilterKind, cos_w: Single, sin_w: Single, q: Single)
    requires
        kind.takes_gain(),
        cos_w.is_finite(),
        Transfer::of(kind, cos_w, sin_w, q, Single { bits: ONE }).a0.is_finite(),
        !Transfer::of(kind, cos_w, sin_w, q, Single { bits: ONE }).a0.is_zero(),
    ensures
        is_flat(Transfer::of(kind, cos_w, sin_w, q, Single { bits: ONE })),
{
    let one = Single { bits: ONE };
    let two = Single { bits: TWO };
    let zero = Single { bits: ZERO };
    let minus_two = Single { bits: MINUS_TWO };
    if kind is Peaking {
        let alpha = sin_w / (two * q);
        lemma_results_canonical(sin_w, two * q);
        law_times_one(alpha);
        lemma_product_is_number(two, cos_w);
        law_opposite_factor(two, cos_w);
        lemma_opposite(two * cos_w);
        lemma_sum_and_difference(one, alpha);
    } else {
        let t = Transfer::shelf_term(sin_w, one);
        let z = zero * cos_w;
        lemma_one_and_one();
        law_minus_itself(one);
        law_commutative(zero, cos_w);
        law_times_zero(cos_w, zero);
        lemma_opposite(z);
        law_add_zero(two, z);
        law_add_zero(two, z.opposite());
        law_times_one(two);
        law_times_one(minus_two);
        lemma_results_canonical(two, t);
        law_times_one(two + t);
        law_times_one(two - t);
        lemma_shelf_middle(cos_w);
        lemma_sum_and_difference(two, t);
    }
}

/// Where a sum is finite, the difference is a number.
proof fn lemma_sum_and_difference(x: Single, y: Single)
    requires
        (x + y).is_finite(),
    ensures
        !(x - y).is_nan(),
{
    law_finite_terms(x, y);
    lemma_opposite(y);
    lemma_sum_value(x, y.opposite());
    lemma_rounded_parts(x.value() - y.value());
}

/// The shelves have a fixed slope and ignore the quality; the shapes without a
/// gain ignore the amplitude.
pub proof fn law_ignored_arguments(
    kind: FilterKind,
    cos_w: Single,
    sin_w: Single,
    q1: Single,
    q2: Single,
    a1: Single,
    a2: Single,
)
    ensures
        kind is LowShelf || kind is HighShelf ==> Transfer::of(kind, cos_w, sin_w, q1, a1)
            == Transfer::of(kind, cos_w, sin_w, q2, a1),
        !kind.takes_gain() ==> Transfer::of(kind, cos_w, sin_w, q1, a1) == Transfer::of(
            kind,
            cos_w,
            sin_w,
            q1,
            a2,
        ),
{
}

/// The numerator of an all-pass is its denominator read backwards, so that it
/// shifts phases and keeps magnitudes. Normalized, its last tap is nearly one.
pub proof fn law_all_pass_mirrors(cos_w: Single, sin_w: Single, q: Single, a: Single)
    ensures
        ({
            let t = Transfer::of(FilterKind::AllPass, cos_w, sin_w, q, a);
            let c = t.normalized();
            &&& t.b0 == t.a2 && t.b1 == t.a1 && t.b2 == t.a0
            &&& c.b0 == c.a2 && c.b1 == c.a1
            &&& is_invertible(t.a0) ==> is_nearly_one(c.b2)
        }),
{
    let t = Transfer::of(FilterKind::AllPass, cos_w, sin_w, q, a);
    if is_invertible(t.a0) {
        law_reciprocal(t.a0);
    }
}

/// At one frequency and quality, the low-pass, the high-pass and the all-pass
/// have the same denominator: the two sides of a crossover point and the
/// all-pass that makes up for it turn the phase by the same poles.
pub proof fn law_crossover_shares_poles(cos_w: Single, sin_w: Single, q: Single, a: Single)
    ensures
        ({
            let low = Transfer::of(FilterKind::LowPass, cos_w, sin_w, q, a);
            let high = Transfer::of(FilterKind::HighPass, cos_w, sin_w, q, a);
            let all = Transfer::of(FilterKind::AllPass, cos_w, sin_w, q, a);
            &&& low.a0 == high.a0 && low.a1 == high.a1 && low.a2 == high.a2
            &&& low.a0 == all.a0 && low.a1 == all.a1 && low.a2 == all.a2
            &&& low.normalized().a1 == high.normalized().a1
            &&& low.normalized().a1 == all.normalized().a1
            &&& low.normalized().a2 == high.normalized().a2
            &&& low.normalized().a2 == all.normalized().a2
        }),
{
}

/// The taps of a high-pass cancel on a constant signal, those of a low-pass on
/// one that alternates at half the sample rate, before and after they are
/// normalized. Only an odd multiple of the smallest number has no exact half,
/// and only in the subnormal range can normalized taps differ by a rounding.
pub proof fn law_passes_block(cos_w: Single, sin_w: Single, q: Single, a: Single)
    ensures
        ({
            let one = Single { bits: ONE };
            let low = Transfer::of(FilterKind::LowPass, cos_w, sin_w, q, a);
            let high = Transfer::of(FilterKind::HighPass, cos_w, sin_w, q, a);
            let c = low.normalized();
            let d = high.normalized();
            &&& low.b0 == low.b2 && high.b0 == high.b2 && c.b0 == c.b2 && d.b0 == d.b2
            &&& low.b1.is_finite() && low.b1.value() % 2 == 0 ==> {
                &&& low.b1.value() == 2 * low.b0.value()
                &&& is_clear(low.b0, one / low.a0) && c.b1.is_finite() ==> c.b1.value() == 2
                    * c.b0.value()
            }
            &&& high.b1.is_finite() && high.b1.value() % 2 == 0 ==> {
                &&& high.b1.value() == -2 * high.b0.value()
                &&& is_clear(high.b0, one / high.a0) && d.b1.is_finite() ==> d.b1.value() == -2
                    * d.b0.value()
            }
        }),
{
    let one = Single { bits: ONE };
    let low = Transfer::of(FilterKind::LowPass, cos_w, sin_w, q, a);
    let high = Transfer::of(FilterKind::HighPass, cos_w, sin_w, q, a);
    let e = one + cos_w;
    lemma_opposite(e);
    if low.b1.is_finite() && low.b1.value() % 2 == 0 {
        lemma_halved_tap(one - cos_w, one / low.a0);
    }
    if high.b1.is_finite() && high.b1.value() % 2 == 0 {
        lemma_halved_tap(e, one / high.a0);
        lemma_opposite_first(e, one / high.a0);
    }
}

/// The opposite of the first factor gives a product of the opposite value.
proof fn lemma_opposite_first(x: Single, y: Single)
    ensures
        (x.opposite() * y).is_finite() ==> (x * y).is_finite(),
        (x.opposite() * y).value() == -(x * y).value() || (x * y).is_nan(),
{
    law_opposite_factor(x, y);
    lemma_opposite(x * y);
}

/// A tap, its half, and both after a multiplication.
proof fn lemma_halved_tap(x: Single, inv: Single)
    requires
        x.is_finite(),
        x.value() % 2 == 0,
    ensures
        ({
            let h = x * (Single { bits: HALF });
            &&& x.value() == 2 * h.value()
            &&& is_clear(h, inv) && (x * inv).is_finite() ==> (x * inv).value() == 2 * (h
                * inv).value()
        }),
{
    let half = Single { bits: HALF };
    let h = x * half;
    law_commutative(x, half);
    law_half(x);
    law_double(h);
    lemma_zero(x.pattern());
    lemma_zero(h.pattern());
    if is_clear(h, inv) && (x * inv).is_finite() {
        lemma_clear_either(h, inv);
        if x.is_zero() {
            law_finite_terms(x, inv);
            law_commutative(h, inv);
            law_times_zero(inv, h);
            law_commutative(x, inv);
            law_times_zero(inv, x);
            lemma_signed(inv.negative() != h.negative(), 0);
            lemma_signed(inv.negative() != x.negative(), 0);
            lemma_zero(0);
        } else {
            lemma_same_value(h, x);
            law_commutative(inv, h);
            law_commutative(inv, x);
            law_product_doubles(inv, h);
            law_double(inv * h);
        }
    }
}

/// The order of the factors does not matter.
proof fn lemma_clear_either(x: Single, y: Single)
    ensures
        is_clear(x, y) == is_clear(y, x),
{
    vstd::arithmetic::mul::lemma_mul_is_commutative(
        magnitude(x.pattern()) as int,
        magnitude(y.pattern()) as int,
    );
}

/// A number of twice the value is the doubled number.
proof fn lemma_same_value(h: Single, x: Single)
    requires
        h.is_finite(),
        x.is_finite(),
        !x.is_zero(),
        x.value() == 2 * h.value(),
    ensures
        h + h == x,
{
    let m = h.pattern();
    let j = doubled_pattern(m);
    lemma_doubled_pattern(m);
    lemma_zero(x.pattern());
    lemma_zero(m);
    law_double(h);
    lemma_taken_apart(x);
    if j < x.pattern() {
        lemma_increasing(j, x.pattern());
    } else {
        lemma_increasing(x.pattern(), j);
    }
}

/// Whether dividing by a number loses no precision: its reciprocal is finite
/// and not subnormal.
pub open spec fn is_invertible(x: Single) -> bool {
    &&& x.is_finite()
    &&& !x.is_zero()
    &&& BINADE <= ((Single { bits: ONE }) / x).pattern() < INFINITY
}

/// Whether a number is one to within one part in 2 to the 22.
pub open spec fn is_nearly_one(x: Single) -> bool {
    &&& x.is_finite()
    &&& abs(x.value() - pow2(149)) * 0x40_0000 <= pow2(149)
}

/// How the errors of a reciprocal and of a product with it add up.
proof fn lemma_reciprocal_errors(p: int, q: int, r: int, u: int)
    requires
        abs(p - q) * 0x100_0000 <= p,
        abs(r - p) * 0x100_0000 <= p + u * 0x80_0000,
        u * 0x100_0000 <= q,
        u >= 0,
    ensures
        abs(r - q) * 0x40_0000 <= q,
        p <= 2 * q,
{
}

/// A number times its reciprocal is nearly one.
pub proof fn law_reciprocal(x: Single)
    requires
        is_invertible(x),
    ensures
        is_nearly_one(x * ((Single { bits: ONE }) / x)),
{
    let one = Single { bits: ONE };
    let inv = one / x;
    let a = magnitude(x.pattern());
    let u = pow2(149);
    lemma_small_powers();
    lemma_zero(x.pattern());
    let k = nearest(u * u, a);
    lemma_nearest_bounded(u * u, a);
    assert(inv == signed(x.negative(), k)) by {
        reveal(Single::spec_div);
    }
    lemma_signed(x.negative(), k);
    lemma_nearest_error(u * u, a, k);
    let i = magnitude(k);
    lemma_zero(k);
    let p = a * i;
    let q = u * u;
    lemma_nearest_bounded(p, u);
    let j = nearest(p, u);
    assert(x * inv == signed(false, j)) by {
        reveal(Single::spec_mul);
    }
    lemma_signed(false, j);
    assert(u >= 0x100_0000) by {
        vstd::arithmetic::power2::lemma2_to64();
        vstd::arithmetic::power2::lemma_pow2_strictly_increases(24, 149);
    }
    assert(u * 0x100_0000 <= q) by (nonlinear_arith)
        requires
            u >= 0x100_0000,
            q == u * u,
    ;
    assert(p * u <= 2 * u * u * u) by (nonlinear_arith)
        requires
            p <= 2 * q,
            q == u * u,
    ;
    // The product is below two, so it is finite.
    assert(j <= TWO) by {
        let n = 2 * u * u;
        assert(n == u * magnitude(TWO as nat)) by (nonlinear_arith)
            requires
                n == 2 * u * u,
                magnitude(TWO as nat) == 2 * u,
        ;
        lemma_exact(n, u, TWO as nat);
        lemma_nearest_monotone(p, u, j, n, u, TWO as nat);
    }
    lemma_nearest_error(p, u, j);
    let v = magnitude(j);
    lemma_reciprocal_errors(p as int, q as int, (u * v) as int, u as int);
    let t = abs(v - u);
    if v >= u {
        assert(u * v - u * u == u * t) by (nonlinear_arith)
            requires
                t == v - u,
        ;
    } else {
        assert(u * u - u * v == u * t) by (nonlinear_arith)
            requires
                t == u - v,
        ;
    }
    assert(t * 0x40_0000 <= u) by (nonlinear_arith)
        requires
            (u * t) * 0x40_0000 <= u * u,
            u > 0,
    ;
}

/// Whether the coefficients of a section are nearly those of one that does
/// nothing: feedback and feedforward agree, and the first tap is nearly one.
pub open spec fn is_nearly_neutral(c: Coefficients) -> bool {
    &&& is_nearly_one(c.b0)
    &&& !c.b1.is_nan()
    &&& !c.a1.is_nan()
    &&& c.b1.value() == c.a1.value()
    &&& !c.b2.is_nan()
    &&& c.b2 == c.a2
}

/// A number times a finite number other than zero is a number.
proof fn lemma_stays_number(x: Single, y: Single)
    requires
        !x.is_nan(),
        y.is_finite(),
        !y.is_zero(),
    ensures
        !(x * y).is_nan(),
{
    reveal(Single::spec_mul);
    lemma_nearest_bounded(magnitude(x.pattern()) * magnitude(y.pattern()), pow2(149));
}

/// A flat transfer function is nearly neutral once it is normalized.
pub proof fn law_flat_is_nearly_neutral(t: Transfer)
    requires
        is_flat(t),
        is_invertible(t.a0),
    ensures
        is_nearly_neutral(t.normalized()),
{
    let inv = Single { bits: ONE } / t.a0;
    law_reciprocal(t.a0);
    lemma_zero(t.b1.pattern());
    lemma_zero(t.a1.pattern());
    lemma_equal_values(t.b1, t.a1);
    lemma_stays_number(t.b1, inv);
    lemma_stays_number(t.a1, inv);
    lemma_stays_number(t.b2, inv);
    law_alike(t.b1, t.a1, inv, inv);
    lemma_zero(0);
}

/// Numbers of equal value are alike.
proof fn lemma_equal_values(x: Single, y: Single)
    requires
        !x.is_nan(),
        !y.is_nan(),
        x.value() == y.value(),
    ensures
        x == y || x.is_zero() && y.is_zero(),
{
    let (m, k) = (x.pattern(), y.pattern());
    lemma_zero(m);
    lemma_zero(k);
    lemma_taken_apart(x);
    lemma_taken_apart(y);
    if m < k {
        lemma_increasing(m, k);
    } else {
        lemma_increasing(k, m);
    }
}

/// What goes into an output of a section, each product by its absolute value.
pub open spec fn effort(h: History, c: Coefficients, x: Single) -> int {
    abs(c.b0.value() * x.value()) + abs(c.b1.value() * h.x1.value()) + abs(
        c.b2.value() * h.x2.value(),
    ) + abs(c.a1.value() * h.y1.value()) + abs(c.a2.value() * h.y2.value())
}

/// How the rounding errors of an output add up: `d` those of the products
/// together, `e` those of the sums, `w` the computed products and `t` the exact
/// ones by their absolute values.
proof fn lemma_errors_add_up(u: int, t: int, d: int, w: int, e0: int, e1: int, e2: int, e3: int)
    requires
        u >= 0,
        t >= 0,
        d * 0x100_0000 <= t + 5 * u * 0x80_0000,
        w <= t + d,
        e0 * 0x100_0000 <= w,
        e1 * 0x100_0000 <= w + e0,
        e2 * 0x100_0000 <= w + e0 + e1,
        e3 * 0x100_0000 <= w + e0 + e1 + e2,
    ensures
        (d + e0 + e1 + e2 + e3) * 0x100_0000 <= 8 * t + 3 * u * 0x100_0000,
{
}

/// The triangle inequality.
proof fn lemma_triangle(x: int, y: int)
    ensures
        abs(x) <= abs(y) + abs(x - y),
        abs(x + y) <= abs(x) + abs(y),
        abs(x - y) <= abs(x) + abs(y),
{
}

/// The error of one product, in units of the square of the smallest number.
proof fn lemma_product_part(c: Single, x: Single)
    requires
        (c * x).is_finite(),
    ensures
        ({
            let p = pow2(149) * (c * x).value();
            let q = c.value() * x.value();
            &&& abs(p - q) * 0x100_0000 <= abs(q) + pow2(149) * 0x80_0000
            &&& abs(p) <= abs(q) + abs(p - q)
        }),
{
    law_product_error(c, x);
    lemma_triangle(pow2(149) * (c * x).value(), c.value() * x.value());
}

/// The error of one sum, in the same units.
proof fn lemma_sum_part(x: Single, y: Single)
    requires
        (x + y).is_finite(),
    ensures
        ({
            let u = pow2(149);
            let e = u * (x + y).value() - (u * x.value() + u * y.value());
            &&& abs(e) * 0x100_0000 <= abs(u * x.value()) + abs(u * y.value())
            &&& abs(u * (x + y).value()) <= abs(u * x.value()) + abs(u * y.value()) + abs(e)
        }),
{
    law_finite_terms(x, y);
    lemma_sum(x, y);
    let u = pow2(149) as int;
    let (a, b, s) = (x.value(), y.value(), (x + y).value());
    let g = s - (a + b);
    assert(u * s - (u * a + u * b) == u * g) by (nonlinear_arith)
        requires
            g == s - (a + b),
    ;
    assert(u * (a + b) == u * a + u * b) by (nonlinear_arith);
    lemma_abs_product(u, g);
    lemma_abs_product(u, a + b);
    let (ag, ab) = (abs(g), abs(a + b));
    assert((u * ag) * 0x100_0000 <= u * ab) by (nonlinear_arith)
        requires
            ag * 0x100_0000 <= ab,
            u >= 0,
    ;
    lemma_triangle(u * a, u * b);
    lemma_triangle(u * s, u * a + u * b);
}

/// The absolute value of a product with a natural number.
proof fn lemma_abs_product(u: int, x: int)
    requires
        u >= 0,
    ensures
        abs(u * x) == u * abs(x),
{
    assert((x >= 0 ==> u * x >= 0) && (x < 0 ==> u * x <= 0) && u * (-x) == -(u * x))
        by (nonlinear_arith)
        requires
            u >= 0,
    ;
}

/// The error of a difference, in the same units.
proof fn lemma_difference_part(x: Single, y: Single)
    requires
        (x - y).is_finite(),
    ensures
        ({
            let u = pow2(149);
            let e = u * (x - y).value() - (u * x.value() - u * y.value());
            &&& abs(e) * 0x100_0000 <= abs(u * x.value()) + abs(u * y.value())
            &&& abs(u * (x - y).value()) <= abs(u * x.value()) + abs(u * y.value()) + abs(e)
        }),
{
    law_finite_terms(x, y);
    lemma_opposite(y);
    lemma_sum_part(x, y.opposite());
    let u = pow2(149) as int;
    let b = y.value();
    assert(u * (-b) == -(u * b)) by (nonlinear_arith);
}

/// A finite output is the exact one to within one part in 2 to the 21 of all
/// that goes into it, and three smallest units.
pub proof fn law_output_error(h: History, c: Coefficients, x: Single)
    requires
        h.output(c, x).is_finite(),
    ensures
        ({
            let u = pow2(149);
            let exact = c.b0.value() * x.value() + c.b1.value() * h.x1.value() + c.b2.value()
                * h.x2.value() - c.a1.value() * h.y1.value() - c.a2.value() * h.y2.value();
            abs(u * h.output(c, x).value() - exact) * 0x20_0000 <= effort(h, c, x) + 3 * u
                * 0x20_0000
        }),
{
    let u = pow2(149) as int;
    let (p0, p1, p2, p3, p4) = (c.b0 * x, c.b1 * h.x1, c.b2 * h.x2, c.a1 * h.y1, c.a2 * h.y2);
    let s0 = p0 + p1;
    let s1 = s0 + p2;
    let s2 = s1 - p3;
    let s3 = s2 - p4;
    law_finite_terms(s2, p4);
    law_finite_terms(s1, p3);
    law_finite_terms(s0, p2);
    law_finite_terms(p0, p1);
    lemma_product_part(c.b0, x);
    lemma_product_part(c.b1, h.x1);
    lemma_product_part(c.b2, h.x2);
    lemma_product_part(c.a1, h.y1);
    lemma_product_part(c.a2, h.y2);
    lemma_sum_part(p0, p1);
    lemma_sum_part(s0, p2);
    lemma_difference_part(s1, p3);
    lemma_difference_part(s2, p4);
    lemma_collect(
        u,
        (
            c.b0.value() * x.value(),
            c.b1.value() * h.x1.value(),
            c.b2.value() * h.x2.value(),
            c.a1.value() * h.y1.value(),
            c.a2.value() * h.y2.value(),
        ),
        (u * p0.value(), u * p1.value(), u * p2.value(), u * p3.value(), u * p4.value()),
        (u * s0.value(), u * s1.value(), u * s2.value(), u * s3.value()),
    );
}

/// Collects the errors of five products `p` of exact values `q` and of the
/// partial sums `s`.
proof fn lemma_collect(
    u: int,
    q: (int, int, int, int, int),
    p: (int, int, int, int, int),
    s: (int, int, int, int),
)
    requires
        u >= 0,
        abs(p.0 - q.0) * 0x100_0000 <= abs(q.0) + u * 0x80_0000,
        abs(p.1 - q.1) * 0x100_0000 <= abs(q.1) + u * 0x80_0000,
        abs(p.2 - q.2) * 0x100_0000 <= abs(q.2) + u * 0x80_0000,
        abs(p.3 - q.3) * 0x100_0000 <= abs(q.3) + u * 0x80_0000,
        abs(p.4 - q.4) * 0x100_0000 <= abs(q.4) + u * 0x80_0000,
        abs(p.0) <= abs(q.0) + abs(p.0 - q.0),
        abs(p.1) <= abs(q.1) + abs(p.1 - q.1),
        abs(p.2) <= abs(q.2) + abs(p.2 - q.2),
        abs(p.3) <= abs(q.3) + abs(p.3 - q.3),
        abs(p.4) <= abs(q.4) + abs(p.4 - q.4),
        abs(s.0 - (p.0 + p.1)) * 0x100_0000 <= abs(p.0) + abs(p.1),
        abs(s.0) <= abs(p.0) + abs(p.1) + abs(s.0 - (p.0 + p.1)),
        abs(s.1 - (s.0 + p.2)) * 0x100_0000 <= abs(s.0) + abs(p.2),
        abs(s.1) <= abs(s.0) + abs(p.2) + abs(s.1 - (s.0 + p.2)),
        abs(s.2 - (s.1 - p.3)) * 0x100_0000 <= abs(s.1) + abs(p.3),
        abs(s.2) <= abs(s.1) + abs(p.3) + abs(s.2 - (s.1 - p.3)),
        abs(s.3 - (s.2 - p.4)) * 0x100_0000 <= abs(s.2) + abs(p.4),
    ensures
        abs(s.3 - (q.0 + q.1 + q.2 - q.3 - q.4)) * 0x20_0000 <= abs(q.0) + abs(q.1) + abs(q.2)
            + abs(q.3) + abs(q.4) + 3 * u * 0x20_0000,
{
    let (d0, d1, d2, d3, d4) = (
        abs(p.0 - q.0),
        abs(p.1 - q.1),
        abs(p.2 - q.2),
        abs(p.3 - q.3),
        abs(p.4 - q.4),
    );
    let (e0, e1, e2, e3) = (
        abs(s.0 - (p.0 + p.1)),
        abs(s.1 - (s.0 + p.2)),
        abs(s.2 - (s.1 - p.3)),
        abs(s.3 - (s.2 - p.4)),
    );
    let t = abs(q.0) + abs(q.1) + abs(q.2) + abs(q.3) + abs(q.4);
    let w = abs(p.0) + abs(p.1) + abs(p.2) + abs(p.3) + abs(p.4);
    lemma_collect_sums(
        t,
        w,
        (abs(q.0), abs(q.1), abs(q.2), abs(q.3), abs(q.4)),
        (abs(p.0), abs(p.1), abs(p.2), abs(p.3), abs(p.4)),
        (d0, d1, d2, d3, d4),
        (abs(s.0), abs(s.1), abs(s.2)),
        (e0, e1, e2, e3),
        u,
    );
    lemma_distance(s.3, s.2 - p.4, s.1 - p.3 - p.4, e3, e2);
    lemma_distance(s.3, s.1 - p.3 - p.4, s.0 + p.2 - p.3 - p.4, e3 + e2, e1);
    lemma_distance(s.3, s.0 + p.2 - p.3 - p.4, p.0 + p.1 + p.2 - p.3 - p.4, e3 + e2 + e1, e0);
    let e = e3 + e2 + e1 + e0;
    lemma_distance(
        s.3,
        p.0 + p.1 + p.2 - p.3 - p.4,
        q.0 + p.1 + p.2 - p.3 - p.4,
        e,
        d0,
    );
    lemma_distance(
        s.3,
        q.0 + p.1 + p.2 - p.3 - p.4,
        q.0 + q.1 + p.2 - p.3 - p.4,
        e + d0,
        d1,
    );
    lemma_distance(
        s.3,
        q.0 + q.1 + p.2 - p.3 - p.4,
        q.0 + q.1 + q.2 - p.3 - p.4,
        e + d0 + d1,
        d2,
    );
    lemma_distance(
        s.3,
        q.0 + q.1 + q.2 - p.3 - p.4,
        q.0 + q.1 + q.2 - q.3 - p.4,
        e + d0 + d1 + d2,
        d3,
    );
    lemma_distance(
        s.3,
        q.0 + q.1 + q.2 - q.3 - p.4,
        q.0 + q.1 + q.2 - q.3 - q.4,
        e + d0 + d1 + d2 + d3,
        d4,
    );
}

/// A distance by way of a point between.
proof fn lemma_distance(x: int, y: int, z: int, a: int, b: int)
    requires
        abs(x - y) <= a,
        abs(y - z) <= b,
    ensures
        abs(x - z) <= a + b,
{
}

/// The bounds of [`lemma_collect`], free of signs.
proof fn lemma_collect_sums(
    t: int,
    w: int,
    q: (int, int, int, int, int),
    p: (int, int, int, int, int),
    d: (int, int, int, int, int),
    s: (int, int, int),
    e: (int, int, int, int),
    u: int,
)
    requires
        u >= 0,
        q.0 >= 0 && q.1 >= 0 && q.2 >= 0 && q.3 >= 0 && q.4 >= 0,
        p.0 >= 0 && p.1 >= 0 && p.2 >= 0 && p.3 >= 0 && p.4 >= 0,
        t == q.0 + q.1 + q.2 + q.3 + q.4,
        w == p.0 + p.1 + p.2 + p.3 + p.4,
        d.0 * 0x100_0000 <= q.0 + u * 0x80_0000,
        d.1 * 0x100_0000 <= q.1 + u * 0x80_0000,
        d.2 * 0x100_0000 <= q.2 + u * 0x80_0000,
        d.3 * 0x100_0000 <= q.3 + u * 0x80_0000,
        d.4 * 0x100_0000 <= q.4 + u * 0x80_0000,
        p.0 <= q.0 + d.0,
        p.1 <= q.1 + d.1,
        p.2 <= q.2 + d.2,
        p.3 <= q.3 + d.3,
        p.4 <= q.4 + d.4,
        e.0 * 0x100_0000 <= p.0 + p.1,
        s.0 <= p.0 + p.1 + e.0,
        e.1 * 0x100_0000 <= s.0 + p.2,
        s.1 <= s.0 + p.2 + e.1,
        e.2 * 0x100_0000 <= s.1 + p.3,
        s.2 <= s.1 + p.3 + e.2,
        e.3 * 0x100_0000 <= s.2 + p.4,
    ensures
        (d.0 + d.1 + d.2 + d.3 + d.4 + e.0 + e.1 + e.2 + e.3) * 0x20_0000 <= t + 3 * u * 0x20_0000,
{
    lemma_errors_add_up(
        u,
        t,
        d.0 + d.1 + d.2 + d.3 + d.4,
        w,
        e.0,
        e.1,
        e.2,
        e.3,
    );
}

/// A section that is nearly neutral follows its input: an output differs from
/// the input by no more than the coefficients carry on of the differences
/// before it, one part in 2 to the 20 of all that goes into it, and three
/// smallest units.
pub proof fn law_nearly_neutral_follows(h: History, c: Coefficients, x: Single)
    requires
        is_nearly_neutral(c),
        h.output(c, x).is_finite(),
    ensures
        ({
            let u = pow2(149);
            let carried = abs(c.a1.value() * (h.y1.value() - h.x1.value())) + abs(
                c.a2.value() * (h.y2.value() - h.x2.value()),
            );
            u * abs(h.output(c, x).value() - x.value()) * 0x10_0000 <= carried * 0x10_0000 + effort(
                h,
                c,
                x,
            ) + 3 * u * 0x10_0000
        }),
{
    let u = pow2(149) as int;
    law_output_error(h, c, x);
    let y = h.output(c, x).value();
    let (v, x1, x2, y1, y2) = (x.value(), h.x1.value(), h.x2.value(), h.y1.value(), h.y2.value());
    let (b0, a1, a2) = (c.b0.value(), c.a1.value(), c.a2.value());
    let exact = b0 * v + a1 * x1 + a2 * x2 - a1 * y1 - a2 * y2;
    // The error of the first tap, against what the tap contributes.
    let g = b0 - u;
    assert(b0 * v - u * v == v * g) by (nonlinear_arith)
        requires
            g == b0 - u,
    ;
    let k = abs(v);
    lemma_abs_any(v, g);
    lemma_abs_any(v, b0);
    assert(b0 * v == v * b0) by (nonlinear_arith);
    assert(k * abs(g) * 0x20_0000 <= k * abs(b0)) by (nonlinear_arith)
        requires
            abs(g) * 0x20_0000 <= abs(b0),
            k >= 0,
    ;
    let f1 = a1 * (y1 - x1);
    let f2 = a2 * (y2 - x2);
    assert(a1 * x1 - a1 * y1 == -f1 && a2 * x2 - a2 * y2 == -f2) by (nonlinear_arith)
        requires
            f1 == a1 * (y1 - x1),
            f2 == a2 * (y2 - x2),
    ;
    let carried = abs(f1) + abs(f2);
    assert(exact - u * v == v * g - f1 - f2);
    lemma_triangle(v * g, f1);
    lemma_triangle(v * g - f1, f2);
    assert(abs(exact - u * v) <= k * abs(g) + carried);
    lemma_distance(u * y, exact, u * v, abs(u * y - exact), k * abs(g) + carried);
    assert(u * y - u * v == u * (y - v)) by (nonlinear_arith);
    lemma_abs_product(u, y - v);
    let z = u * abs(y - v);
    let t = effort(h, c, x);
    let r = abs(u * y - exact);
    assert(k * abs(b0) <= t);
    lemma_halve(z, r, k * abs(g), carried, t, u);
}

/// The last step of [`law_nearly_neutral_follows`].
proof fn lemma_halve(z: int, r: int, f: int, carried: int, t: int, u: int)
    requires
        z <= r + f + carried,
        r * 0x20_0000 <= t + 3 * u * 0x20_0000,
        f * 0x20_0000 <= t,
    ensures
        z * 0x10_0000 <= carried * 0x10_0000 + t + 3 * u * 0x10_0000,
{
}

/// The absolute value of a product.
proof fn lemma_abs_any(x: int, y: int)
    ensures
        abs(x * y) == abs(x) * abs(y),
{
    assert((-x) * y == -(x * y) && x * (-y) == -(x * y) && (-x) * (-y) == x * y)
        by (nonlinear_arith);
    assert((x >= 0 && y >= 0 ==> x * y >= 0) && (x >= 0 && y < 0 ==> x * y <= 0) && (x < 0 && y >= 0
        ==> x * y <= 0) && (x < 0 && y < 0 ==> x * y >= 0)) by (nonlinear_arith);
}

/// The square root of one is one.
proof fn lemma_root_of_one()
    ensures
        (Single { bits: ONE }).root() == (Single { bits: ONE }),
{
    let m = ONE as nat;
    let u = pow2(149);
    let p = (ONE - 1) as nat;
    lemma_small_powers();
    lemma_step(m);
    lemma_step(p);
    let x = doubled_midpoint(p);
    let y = doubled_midpoint(m);
    assert(4 * (u * u) > x * x && 4 * (u * u) < y * y) by (nonlinear_arith)
        requires
            x < 2 * u < y,
    ;
    assert(is_nearest_root(u * u, m));
    lemma_nearest_root_unique(u * u, m);
}

/// A product with a factor between zero and one is at most the other factor.
proof fn lemma_shrinks(x: Single, y: Single)
    requires
        !x.negative(),
        x.pattern() <= ONE,
        !y.negative(),
        y.is_finite(),
    ensures
        !(x * y).negative(),
        (x * y).pattern() <= y.pattern(),
{
    let u = pow2(149);
    let a = magnitude(x.pattern());
    let b = magnitude(y.pattern());
    lemma_small_powers();
    lemma_increasing(x.pattern(), ONE as nat);
    lemma_nearest_bounded(a * b, u);
    assert(u * b == b * u && a * b * u <= u * b * u) by (nonlinear_arith)
        requires
            a <= u,
    ;
    lemma_exact(u * b, u, y.pattern());
    lemma_nearest_monotone(a * b, u, nearest(a * b, u), u * b, u, y.pattern());
    reveal(Single::spec_mul);
    lemma_signed(false, nearest(a * b, u));
}

/// The reciprocal of a number between one and eight is not subnormal.
proof fn lemma_invertible(x: Single)
    requires
        !x.negative(),
        ONE <= x.pattern() <= 0x4100_0000,
    ensures
        is_invertible(x),
{
    let u = pow2(149);
    let a = magnitude(x.pattern());
    lemma_small_powers();
    lemma_increasing(ONE as nat, x.pattern());
    lemma_increasing(x.pattern(), 0x4100_0000);
    // An eighth and eight.
    lemma_compose(123, BINADE as nat);
    lemma_compose(129, BINADE as nat);
    assert(pow2(23) == BINADE) by {
        vstd::arithmetic::power2::lemma2_to64();
    }
    lemma_pow2_adds(23, 123);
    lemma_pow2_adds(23, 129);
    lemma_pow2_adds(146, 3);
    lemma_pow2_adds(149, 3);
    assert(pow2(3) == 8) by {
        vstd::arithmetic::power2::lemma2_to64();
    }
    let e = pow2(146);
    let k = nearest(u * u, a);
    lemma_nearest_bounded(u * u, a);
    lemma_pow2_pos(146);
    let low = 0x3e00_0000nat;
    assert(magnitude(low) == e);
    lemma_exact(e, 1, low);
    assert(e * a <= u * u * 1) by (nonlinear_arith)
        requires
            a <= 8 * u,
            u == 8 * e,
    ;
    lemma_nearest_monotone(e, 1, low, u * u, a, k);
    lemma_exact(u, 1, ONE as nat);
    assert(u * u * 1 <= u * a) by (nonlinear_arith)
        requires
            u <= a,
    ;
    lemma_nearest_monotone(u * u, a, k, u, 1, ONE as nat);
    reveal(Single::spec_div);
    lemma_signed(false, k);
}

/// A sum of two positive numbers up to four is at least either and at most
/// eight.
proof fn lemma_small_sum(x: Single, y: Single)
    requires
        !x.negative(),
        !y.negative(),
        ONE <= x.pattern() <= 0x4080_0000,
        y.pattern() <= 0x4080_0000,
    ensures
        !(x + y).negative(),
        ONE <= (x + y).pattern() <= 0x4100_0000,
{
    let v = x.value() + y.value();
    lemma_small_powers();
    lemma_increasing(ONE as nat, x.pattern());
    lemma_increasing(x.pattern(), 0x4080_0000);
    lemma_increasing(y.pattern(), 0x4080_0000);
    let f = 0x4080_0000nat;
    lemma_doubled_pattern(f);
    lemma_nearest_bounded(v as nat, 1);
    let k = nearest(v as nat, 1);
    lemma_exact(pow2(149), 1, ONE as nat);
    lemma_nearest_monotone(pow2(149), 1, ONE as nat, v as nat, 1, k);
    lemma_exact(2 * magnitude(f), 1, 0x4100_0000);
    lemma_nearest_monotone(v as nat, 1, k, 2 * magnitude(f), 1, 0x4100_0000);
    reveal(Single::spec_add);
    lemma_signed(false, k);
}

/// The first feedback tap of a shelf at unity, for a sine between zero and one.
proof fn lemma_shelf_invertible(sin_w: Single)
    requires
        !sin_w.negative(),
        sin_w.pattern() <= ONE,
    ensures
        is_invertible((Single { bits: TWO }) + Transfer::shelf_term(sin_w, Single { bits: ONE })),
{
    let one = Single { bits: ONE };
    let two = Single { bits: TWO };
    let half = Single { bits: HALF };
    let alpha = sin_w * half * (Single { bits: SQRT_2 });
    lemma_root_of_one();
    law_times_one(two);
    lemma_shrinks(sin_w, half);
    lemma_shrinks(sin_w * half, Single { bits: SQRT_2 });
    // Twice a number below two is below four.
    let u = pow2(149);
    let b = magnitude(alpha.pattern());
    lemma_small_powers();
    lemma_increasing(alpha.pattern(), TWO as nat);
    lemma_doubled_pattern(TWO as nat);
    let n = 2 * u * b;
    lemma_nearest_bounded(n, u);
    let four = 0x4080_0000nat;
    assert(u * magnitude(four) == 4 * u * u) by (nonlinear_arith)
        requires
            magnitude(four) == 4 * u,
    ;
    lemma_exact(4 * u * u, u, four);
    assert(n * u <= 4 * u * u * u) by (nonlinear_arith)
        requires
            n == 2 * u * b,
            b <= 2 * u,
    ;
    lemma_nearest_monotone(n, u, nearest(n, u), 4 * u * u, u, four);
    let t = Transfer::shelf_term(sin_w, one);
    assert(t == signed(false, nearest(n, u))) by {
        reveal(Single::spec_mul);
        assert(t == two * alpha);
    }
    lemma_signed(false, nearest(n, u));
    lemma_small_sum(two, t);
    lemma_invertible(two + t);
}

/// The first feedback tap of a peak at unity, for a sine between zero and one
/// and a quality between one half and one.
proof fn lemma_peak_invertible(sin_w: Single, q: Single)
    requires
        !sin_w.negative(),
        sin_w.pattern() <= ONE,
        !q.negative(),
        HALF <= q.pattern() <= ONE,
    ensures
        is_invertible((Single { bits: ONE }) + sin_w / ((Single { bits: TWO }) * q)),
{
    let one = Single { bits: ONE };
    let two = Single { bits: TWO };
    let u = pow2(149);
    lemma_small_powers();
    let a = magnitude(q.pattern());
    lemma_increasing(HALF as nat, q.pattern());
    lemma_increasing(q.pattern(), ONE as nat);
    // The divisor is at least one.
    let n = 2 * u * a;
    let m = nearest(n, u);
    lemma_nearest_bounded(n, u);
    lemma_exact(u * u, u, ONE as nat);
    assert(u * u * u <= n * u && n * u <= 2 * u * u * u) by (nonlinear_arith)
        requires
            n == 2 * u * a,
            u <= 2 * a,
            a <= u,
    ;
    lemma_nearest_monotone(u * u, u, ONE as nat, n, u, m);
    assert(u * magnitude(TWO as nat) == 2 * u * u) by (nonlinear_arith)
        requires
            magnitude(TWO as nat) == 2 * u,
    ;
    lemma_exact(2 * u * u, u, TWO as nat);
    lemma_nearest_monotone(n, u, m, 2 * u * u, u, TWO as nat);
    let d = two * q;
    assert(d == signed(false, m)) by {
        reveal(Single::spec_mul);
    }
    lemma_signed(false, m);
    // So the quotient is at most one.
    let b = magnitude(sin_w.pattern());
    let c = magnitude(m);
    lemma_increasing(sin_w.pattern(), ONE as nat);
    lemma_increasing(ONE as nat, m);
    let k = nearest(b * u, c);
    lemma_nearest_bounded(b * u, c);
    lemma_exact(u, 1, ONE as nat);
    assert(b * u * 1 <= u * c) by (nonlinear_arith)
        requires
            b <= u,
            u <= c,
    ;
    lemma_nearest_monotone(b * u, c, k, u, 1, ONE as nat);
    let alpha = sin_w / d;
    assert(alpha == signed(false, k)) by {
        reveal(Single::spec_div);
    }
    lemma_signed(false, k);
    lemma_small_sum(one, alpha);
    lemma_invertible(one + alpha);
}

/// Whether the host's answers for an angle between zero and half a turn can be
/// worked with: cosines are finite, sines between zero and one.
pub open spec fn tells_angle<M: Elementary>(math: &M, w: Single) -> bool {
    &&& forall|y: Single| #[trigger] cos_gives(math, w, y) ==> y.is_finite()
    &&& forall|y: Single| #[trigger]
        sin_gives(math, w, y) ==> !y.negative() && (Single { bits: ONE }).at_least(y)
}

/// Whether the host takes ten to the power of zero for one.
pub open spec fn tells_unity<M: Elementary>(math: &M) -> bool {
    forall|y: Single| #[trigger]
        powf_gives(math, Single { bits: TEN }, Single { bits: ZERO }, y) ==> y == (Single {
            bits: ONE,
        })
}

/// A band of the equalizer at 0 dB is nearly neutral.
proof fn lemma_tuned_flat<M: Elementary>(
    c: Coefficients,
    math: &M,
    kind: FilterKind,
    f0: Single,
    q: Single,
    fs: Single,
)
    requires
        kind.takes_gain(),
        c.tuned(math, kind, f0, q, Single { bits: ZERO }, fs),
        tells_unity(math),
        tells_angle(math, angular_frequency(f0, fs)),
        kind is Peaking ==> !q.negative() && HALF <= q.pattern() <= ONE,
    ensures
        is_nearly_neutral(c),
{
    let w = angular_frequency(f0, fs);
    let zero = Single { bits: ZERO };
    let one = Single { bits: ONE };
    let two = Single { bits: TWO };
    let (cos_w, sin_w, a) = choose|cos_w: Single, sin_w: Single, a: Single|
        {
            &&& #[trigger] cos_gives(math, w, cos_w)
            &&& #[trigger] sin_gives(math, w, sin_w)
            &&& kind.takes_gain() ==> powf_gives(
                math,
                Single { bits: TEN },
                amplitude_exponent(zero),
                a,
            )
            &&& c == (#[trigger] Transfer::of(kind, cos_w, sin_w, q, a)).normalized()
        };
    lemma_zero_over(Single { bits: FORTY });
    assert(a == one);
    lemma_small_powers();
    if sin_w.pattern() > ONE {
        lemma_increasing(ONE as nat, sin_w.pattern());
    }
    let t = Transfer::of(kind, cos_w, sin_w, q, one);
    if kind is Peaking {
        let alpha = sin_w / (two * q);
        lemma_peak_invertible(sin_w, q);
        lemma_results_canonical(sin_w, two * q);
        law_times_one(alpha);
        assert(t.a0 == one + alpha);
    } else {
        lemma_shelf_invertible(sin_w);
        lemma_shelf_first_tap(kind, cos_w, sin_w, q);
    }
    law_flat_at_unity(kind, cos_w, sin_w, q);
    law_flat_is_nearly_neutral(t);
}

/// The first feedback tap of a shelf at unity.
proof fn lemma_shelf_first_tap(kind: FilterKind, cos_w: Single, sin_w: Single, q: Single)
    requires
        kind is LowShelf || kind is HighShelf,
        cos_w.is_finite(),
    ensures
        Transfer::of(kind, cos_w, sin_w, q, Single { bits: ONE }).a0 == (Single { bits: TWO })
            + Transfer::shelf_term(sin_w, Single { bits: ONE }),
{
    let one = Single { bits: ONE };
    let two = Single { bits: TWO };
    let zero = Single { bits: ZERO };
    let z = zero * cos_w;
    lemma_one_and_one();
    law_minus_itself(one);
    law_commutative(zero, cos_w);
    law_times_zero(cos_w, zero);
    lemma_opposite(z);
    law_add_zero(two, z);
    law_add_zero(two, z.opposite());
}

/// The equalizer of a new chain is nearly neutral, for a host whose cosines are
/// finite, whose sines are between zero and one, and that takes ten to the
/// power of zero for one.
pub proof fn law_fresh_equalizer_is_nearly_neutral<M: Elementary>(c: Chain, math: &M, fs: Single)
    requires
        is_fresh_chain(c, math, fs),
        tells_unity(math),
        tells_angle(math, angular_frequency(Single { bits: F_LOW_SHELF }, fs)),
        tells_angle(math, angular_frequency(Single { bits: F_PEAK }, fs)),
        tells_angle(math, angular_frequency(Single { bits: F_HIGH_SHELF }, fs)),
    ensures
        is_nearly_neutral(c.low_eq.coefficients),
        is_nearly_neutral(c.mid_eq.coefficients),
        is_nearly_neutral(c.high_eq.coefficients),
{
    lemma_tuned_flat(
        c.low_eq.coefficients,
        math,
        FilterKind::LowShelf,
        Single { bits: F_LOW_SHELF },
        Single { bits: Q_LR },
        fs,
    );
    lemma_tuned_flat(
        c.mid_eq.coefficients,
        math,
        FilterKind::Peaking,
        Single { bits: F_PEAK },
        Single { bits: Q_PEAK },
        fs,
    );
    lemma_tuned_flat(
        c.high_eq.coefficients,
        math,
        FilterKind::HighShelf,
        Single { bits: F_HIGH_SHELF },
        Single { bits: Q_LR },
        fs,
    );
}

/// Zero over a positive number is zero.
pub proof fn lemma_zero_over(d: Single)
    requires
        d.is_finite(),
        !d.is_zero(),
        !d.negative(),
    ensures
        (Single { bits: ZERO }) / d == (Single { bits: ZERO }),
{
    reveal(Single::spec_div);
    lemma_zero(d.pattern());
    vstd::arithmetic::mul::lemma_mul_by_zero_is_zero(pow2(149) as int);
    vstd::arithmetic::mul::lemma_mul_by_zero_is_zero(magnitude(d.pattern()) as int);
    lemma_exact(0, magnitude(d.pattern()), 0);
}

} // verus!
