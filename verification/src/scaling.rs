//! Sections are linear: a signal of twice the size comes out twice the size.
use vstd::arithmetic::power2::{lemma_pow2_pos, pow2};
use vstd::prelude::*;

use crate::arithmetic::{
    capped, doubled_pattern, law_commutative, law_double, law_finite_terms, law_times_zero,
    lemma_doubled_pattern, lemma_nearest_bounded, lemma_nearest_doubled, lemma_opposite,
    lemma_rounded_parts, lemma_signed, lemma_small_magnitude, lemma_taken_apart,
};
use crate::biquad::{Biquad, Coefficients, History};
use crate::grid::{
    lemma_exact, lemma_nearest_monotone, lemma_nearest_unique, lemma_zero, magnitude, nearest,
    BINADE, INFINITY,
};
use crate::single::{rounded, signed, Single};

verus! {

/// Whether a product of these factors is clear of the subnormal range: zero
/// because a factor is, or exactly at least the smallest normal number.
pub open spec fn is_clear(x: Single, y: Single) -> bool {
    x.is_zero() || y.is_zero() || magnitude(x.pattern()) * magnitude(y.pattern()) >= pow2(149)
        * BINADE
}

/// A product with a doubled factor is the doubled product, clear of the
/// subnormal range and short of overflow.
pub proof fn law_product_doubles(c: Single, x: Single)
    requires
        x.is_finite(),
        is_clear(c, x),
        (c * (x + x)).is_finite(),
    ensures
        c * (x + x) == c * x + c * x,
        (c * x).is_finite(),
{
    law_finite_terms(c, x + x);
    law_double(x);
    let negative = c.negative() != x.negative();
    let j = doubled_pattern(x.pattern());
    lemma_signed(x.negative(), j);
    if c.is_zero() || x.is_zero() {
        lemma_times_zero_either(c, x);
        lemma_times_zero_either(c, x + x);
        lemma_signed(negative, 0);
        law_double(c * x);
    } else {
        reveal(Single::spec_mul);
        let a = magnitude(c.pattern());
        let b = magnitude(x.pattern());
        let u = pow2(149);
        lemma_pow2_pos(149);
        lemma_doubled_pattern(x.pattern());
        assert(a * (2 * b) == 2 * (a * b)) by (nonlinear_arith);
        lemma_nearest_bounded(a * b, u);
        lemma_nearest_bounded(2 * (a * b), u);
        let m = nearest(a * b, u);
        let k = nearest(2 * (a * b), u);
        lemma_signed(negative, m);
        lemma_signed(negative, k);
        assert(a * b * u <= 2 * (a * b) * u) by (nonlinear_arith);
        lemma_nearest_monotone(a * b, u, m, 2 * (a * b), u, k);
        lemma_small_magnitude(BINADE as nat);
        lemma_exact(u * BINADE as nat, u, BINADE as nat);
        assert(u * BINADE * u <= a * b * u) by (nonlinear_arith)
            requires
                a * b >= u * BINADE,
        ;
        lemma_nearest_monotone(u * BINADE as nat, u, BINADE as nat, a * b, u, m);
        lemma_nearest_doubled(a * b, u, m);
        lemma_nearest_unique(2 * (a * b), u, capped(doubled_pattern(m)));
        law_double(c * x);
    }
}

/// Zero times a finite number, on either side.
proof fn lemma_times_zero_either(c: Single, x: Single)
    requires
        c.is_finite(),
        x.is_finite(),
        c.is_zero() || x.is_zero(),
    ensures
        c * x == signed(c.negative() != x.negative(), 0),
{
    if x.is_zero() {
        law_times_zero(c, x);
    } else {
        law_commutative(c, x);
        law_times_zero(x, c);
    }
}

/// The rounding of twice an integer.
proof fn lemma_nearest_integer_doubled(n: nat)
    ensures
        nearest(n, 1) < INFINITY ==> nearest(2 * n, 1) == capped(doubled_pattern(nearest(n, 1))),
        nearest(n, 1) == INFINITY ==> nearest(2 * n, 1) == INFINITY,
{
    lemma_nearest_bounded(n, 1);
    lemma_nearest_bounded(2 * n, 1);
    let m = nearest(n, 1);
    if m == INFINITY {
        lemma_nearest_monotone(n, 1, m, 2 * n, 1, nearest(2 * n, 1));
    } else if n <= BINADE {
        lemma_small_magnitude(n);
        lemma_exact(n, 1, n);
        lemma_small_magnitude(2 * n);
        lemma_exact(2 * n, 1, 2 * n);
    } else {
        let b = (BINADE + 1) as nat;
        lemma_small_magnitude(b);
        lemma_exact(b, 1, b);
        lemma_nearest_monotone(b, 1, b, n, 1, m);
        lemma_nearest_doubled(n, 1, m);
        lemma_nearest_unique(2 * n, 1, capped(doubled_pattern(m)));
    }
}

/// A sum of doubled terms is the doubled sum, short of overflow.
pub proof fn law_sum_doubles(x: Single, y: Single)
    requires
        x.is_finite(),
        y.is_finite(),
        ((x + x) + (y + y)).is_finite(),
    ensures
        (x + x) + (y + y) == (x + y) + (x + y),
        (x + y).is_finite(),
{
    law_finite_terms(x + x, y + y);
    law_double(x);
    law_double(y);
    lemma_zero(x.pattern());
    lemma_zero(y.pattern());
    lemma_signed(x.negative(), doubled_pattern(x.pattern()));
    lemma_signed(y.negative(), doubled_pattern(y.pattern()));
    let v = x.value() + y.value();
    let n = if v < 0 {
        (-v) as nat
    } else {
        v as nat
    };
    lemma_rounded_parts(v);
    lemma_rounded_parts(2 * v);
    lemma_nearest_integer_doubled(n);
    assert((x + y).is_finite() && (v != 0 ==> x + y == rounded(v)) && (v == 0 ==> x + y == signed(
        x.negative() && y.negative(),
        0,
    )) && (v != 0 ==> (x + x) + (y + y) == rounded(2 * v)) && (v == 0 ==> (x + x) + (y + y)
        == signed(x.negative() && y.negative(), 0))) by {
        reveal(Single::spec_add);
        lemma_signed(x.negative() && y.negative(), 0);
    }
    law_double(x + y);
    lemma_signed(x.negative() && y.negative(), 0);
}

/// A difference of doubled terms is the doubled difference, short of overflow.
pub proof fn law_difference_doubles(x: Single, y: Single)
    requires
        x.is_finite(),
        y.is_finite(),
        ((x + x) - (y + y)).is_finite(),
    ensures
        (x + x) - (y + y) == (x - y) + (x - y),
        (x - y).is_finite(),
{
    law_finite_terms(x + x, y + y);
    lemma_opposite(y);
    law_double(y);
    law_double(y.opposite());
    lemma_signed(y.negative(), doubled_pattern(y.pattern()));
    lemma_opposite(y + y);
    lemma_taken_apart(y + y);
    assert((y + y).opposite() == y.opposite() + y.opposite());
    law_sum_doubles(x, y.opposite());
}

impl History {
    /// A past of twice the size.
    pub open spec fn doubled(self) -> History {
        History {
            x1: self.x1 + self.x1,
            x2: self.x2 + self.x2,
            y1: self.y1 + self.y1,
            y2: self.y2 + self.y2,
        }
    }

    /// Whether every product that goes into the next output is clear of the
    /// subnormal range.
    pub open spec fn is_clear(self, c: Coefficients, x: Single) -> bool {
        &&& is_clear(c.b0, x)
        &&& is_clear(c.b1, self.x1)
        &&& is_clear(c.b2, self.x2)
        &&& is_clear(c.a1, self.y1)
        &&& is_clear(c.a2, self.y2)
    }

    /// Whether the whole past is zero.
    pub open spec fn is_silent(self) -> bool {
        self.x1.is_zero() && self.x2.is_zero() && self.y1.is_zero() && self.y2.is_zero()
    }
}

/// Doubling input and past of a channel doubles its output and its past, short
/// of overflow and clear of the subnormal range.
pub proof fn law_channel_doubles(h: History, c: Coefficients, x: Single)
    requires
        x.is_finite(),
        h.x1.is_finite(),
        h.x2.is_finite(),
        h.y1.is_finite(),
        h.y2.is_finite(),
        h.is_clear(c, x),
        h.doubled().output(c, x + x).is_finite(),
    ensures
        h.doubled().output(c, x + x) == h.output(c, x) + h.output(c, x),
        h.doubled().advanced(c, x + x) == h.advanced(c, x).doubled(),
{
    let d = h.doubled();
    let (p0, p1, p2, p3, p4) = (c.b0 * x, c.b1 * h.x1, c.b2 * h.x2, c.a1 * h.y1, c.a2 * h.y2);
    let (q0, q1, q2, q3, q4) = (
        c.b0 * (x + x),
        c.b1 * d.x1,
        c.b2 * d.x2,
        c.a1 * d.y1,
        c.a2 * d.y2,
    );
    law_finite_terms(q0 + q1 + q2 - q3, q4);
    law_finite_terms(q0 + q1 + q2, q3);
    law_finite_terms(q0 + q1, q2);
    law_finite_terms(q0, q1);
    law_product_doubles(c.b0, x);
    law_product_doubles(c.b1, h.x1);
    law_product_doubles(c.b2, h.x2);
    law_product_doubles(c.a1, h.y1);
    law_product_doubles(c.a2, h.y2);
    law_sum_doubles(p0, p1);
    law_sum_doubles(p0 + p1, p2);
    law_difference_doubles(p0 + p1 + p2, p3);
    law_difference_doubles(p0 + p1 + p2 - p3, p4);
}

/// Doubling input and past of a section doubles its output and its past, short
/// of overflow and clear of the subnormal range.
pub proof fn law_section_doubles(a: Biquad, b: Biquad, l: Single, r: Single)
    requires
        b.coefficients == a.coefficients,
        b.left == a.left.doubled(),
        b.right == a.right.doubled(),
        l.is_finite() && a.left.x1.is_finite() && a.left.x2.is_finite() && a.left.y1.is_finite()
            && a.left.y2.is_finite(),
        r.is_finite() && a.right.x1.is_finite() && a.right.x2.is_finite() && a.right.y1.is_finite()
            && a.right.y2.is_finite(),
        a.left.is_clear(a.coefficients, l),
        a.right.is_clear(a.coefficients, r),
        b.output(l + l, r + r).0.is_finite(),
        b.output(l + l, r + r).1.is_finite(),
    ensures
        b.output(l + l, r + r).0 == a.output(l, r).0 + a.output(l, r).0,
        b.output(l + l, r + r).1 == a.output(l, r).1 + a.output(l, r).1,
        b.advanced(l + l, r + r).left == a.advanced(l, r).left.doubled(),
        b.advanced(l + l, r + r).right == a.advanced(l, r).right.doubled(),
        b.advanced(l + l, r + r).coefficients == a.coefficients,
{
    law_channel_doubles(a.left, a.coefficients, l);
    law_channel_doubles(a.right, a.coefficients, r);
}

/// Nothing comes of nothing: a section with a silent past and finite
/// coefficients puts out zeros for zeros, and its past stays silent.
pub proof fn law_silence(b: Biquad, l: Single, r: Single)
    requires
        b.left.is_silent(),
        b.right.is_silent(),
        l.is_zero(),
        r.is_zero(),
        b.coefficients.b0.is_finite(),
        b.coefficients.b1.is_finite(),
        b.coefficients.b2.is_finite(),
        b.coefficients.a1.is_finite(),
        b.coefficients.a2.is_finite(),
    ensures
        b.output(l, r).0.is_zero(),
        b.output(l, r).1.is_zero(),
        b.advanced(l, r).left.is_silent(),
        b.advanced(l, r).right.is_silent(),
{
    lemma_channel_silent(b.left, b.coefficients, l);
    lemma_channel_silent(b.right, b.coefficients, r);
}

proof fn lemma_channel_silent(h: History, c: Coefficients, x: Single)
    requires
        h.is_silent(),
        x.is_zero(),
        c.b0.is_finite(),
        c.b1.is_finite(),
        c.b2.is_finite(),
        c.a1.is_finite(),
        c.a2.is_finite(),
    ensures
        h.output(c, x).is_zero(),
{
    law_times_zero(c.b0, x);
    law_times_zero(c.b1, h.x1);
    law_times_zero(c.b2, h.x2);
    law_times_zero(c.a1, h.y1);
    law_times_zero(c.a2, h.y2);
    let s = c.b0 * x + c.b1 * h.x1;
    lemma_zeros(c.b0 * x, c.b1 * h.x1);
    lemma_zeros(s, c.b2 * h.x2);
    lemma_zeros(s + c.b2 * h.x2, c.a1 * h.y1);
    lemma_zeros(s + c.b2 * h.x2 - c.a1 * h.y1, c.a2 * h.y2);
}

/// Sums and differences of zeros are zero.
pub proof fn lemma_zeros(x: Single, y: Single)
    requires
        x.is_zero(),
        y.is_zero(),
    ensures
        (x + y).is_zero(),
        (x - y).is_zero(),
{
    reveal(Single::spec_add);
    lemma_opposite(y);
    lemma_zero(0);
}

} // verus!
