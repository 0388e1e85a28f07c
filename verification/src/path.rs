//! What a sample goes through, in numbers: every stage of the chain computes,
//! to within rounding, what its name promises of what came in.
use vstd::arithmetic::power2::{
    lemma_pow2_adds, lemma_pow2_pos, lemma_pow2_strictly_increases, pow2,
};
use vstd::prelude::*;

use crate::arithmetic::{
    abs, largest, law_finite_terms, law_half, law_minus_itself, law_product_error, law_times_one,
    law_times_zero, lemma_finite_bounded, lemma_finite_range, lemma_nearest_bounded, lemma_opposite,
    lemma_rounded_self, lemma_signed, lemma_small_powers, lemma_sum, lemma_sum_value,
};
use crate::biquad::{Biquad, Coefficients, History};
use crate::chain::{blend, mix, widen, Band, Chain};
use crate::constants::{HALF, ONE, ZERO};
use crate::grid::{
    lemma_compose, lemma_exact, lemma_nearest_monotone, lemma_zero, magnitude, nearest, BINADE,
    INFINITY,
};
use crate::motion::{law_smoother_step, lemma_abs_product};
use crate::single::Single;
use crate::smoother::Smoother;

verus! {

/// Up to where sums of products are owed a finite result: far beyond any
/// signal, and a hundredth of the largest number, in units of the square of
/// the smallest one.
pub open spec fn limit() -> int {
    (pow2(149) * pow2(270)) as int
}

/// Whether `got` is, to within rounding, the exact number `exact` over one, for
/// a sum of terms that are together `scale` by their absolute values: within
/// one part in 2 to the 20 of them and sixteen smallest numbers, and finite
/// wherever they are within the limit.
pub open spec fn is_near(got: Single, exact: int, scale: int) -> bool {
    &&& scale <= limit() ==> got.is_finite()
    &&& got.is_finite() ==> abs(pow2(149) * got.value() - exact) * 0x10_0000 <= scale + 16 * pow2(
        149,
    ) * 0x10_0000
}

/// Whether a number tracks an exact one `e` over one, with terms of the size
/// `s`, by `j` roundings of them and `v` smallest numbers.
spec fn tracks(x: Single, e: int, s: int, j: int, v: int) -> bool {
    &&& x.is_finite()
    &&& abs(e) <= s
    &&& abs(pow2(149) * x.value() - e) * 0x100_0000 <= j * s + v * (pow2(149) * 0x100_0000)
}

/// One, and the size of the limit.
pub proof fn lemma_limit()
    ensures
        pow2(149) >= 0x1_0000_0000,
        pow2(270) >= 0x1_0000_0000,
        4 * pow2(270) <= largest(),
{
    lemma_small_powers();
    assert(pow2(32) == 0x1_0000_0000 && pow2(2) == 4) by {
        vstd::arithmetic::power2::lemma2_to64();
    }
    lemma_pow2_strictly_increases(32, 149);
    lemma_pow2_strictly_increases(32, 270);
    lemma_pow2_adds(2, 270);
    // The largest number has 24 bits, of which the last stands for 2 to the 253.
    lemma_compose(253, (2 * BINADE - 1) as nat);
    lemma_pow2_adds(253, 19);
    lemma_pow2_pos(253);
    assert(pow2(19) == 0x8_0000) by {
        vstd::arithmetic::power2::lemma2_to64();
    }
    let (p, q) = (pow2(253), (2 * BINADE - 1) as nat);
    assert(p * 0x8_0000 <= q * p) by (nonlinear_arith)
        requires
            q >= 0x8_0000,
    ;
}

/// A number tracks itself.
proof fn lemma_track_self(x: Single)
    requires
        x.is_finite(),
    ensures
        tracks(x, pow2(149) * x.value(), abs(pow2(149) * x.value()), 0, 0),
{
    let s = abs(pow2(149) * x.value());
    assert(0 * s == 0) by (nonlinear_arith);
}

/// A weaker account of the roundings.
proof fn lemma_track_more(x: Single, e: int, s: int, j: int, v: int, i: int, w: int)
    requires
        tracks(x, e, s, j, v),
        j <= i,
        v <= w,
    ensures
        tracks(x, e, s, i, w),
{
    let u = pow2(149) * 0x100_0000;
    assert(j * s <= i * s && v * u <= w * u) by (nonlinear_arith)
        requires
            j <= i,
            v <= w,
            s >= 0,
            u >= 0,
    ;
}

/// The opposite tracks the opposite.
proof fn lemma_track_opposite(x: Single, e: int, s: int, j: int, v: int)
    requires
        tracks(x, e, s, j, v),
    ensures
        tracks(x.opposite(), -e, s, j, v),
{
    lemma_opposite(x);
    let (u, a) = (pow2(149) as int, x.value());
    assert(u * (-a) == -(u * a)) by (nonlinear_arith);
}

/// Tracking a sum.
proof fn lemma_track_sum(
    x: Single,
    y: Single,
    e: (int, int),
    s: (int, int),
    j: int,
    v: (int, int),
)
    requires
        tracks(x, e.0, s.0, j, v.0),
        tracks(y, e.1, s.1, j, v.1),
        0 <= j <= 64,
        0 <= v.0 <= 64,
        0 <= v.1 <= 64,
    ensures
        s.0 + s.1 <= limit() ==> (x + y).is_finite(),
        (x + y).is_finite() ==> tracks(x + y, e.0 + e.1, s.0 + s.1, j + 2, v.0 + v.1 + 1),
{
    let u = pow2(149) as int;
    let w = u * 0x100_0000;
    lemma_limit();
    let (a, b) = (x.value(), y.value());
    assert(j * s.0 + j * s.1 == j * (s.0 + s.1) && v.0 * w + v.1 * w == (v.0 + v.1) * w && (j + 2)
        * (s.0 + s.1) == j * (s.0 + s.1) + 2 * (s.0 + s.1) && (v.0 + v.1 + 1) * w == (v.0 + v.1) * w
        + w) by (nonlinear_arith);
    assert(j * (s.0 + s.1) <= 64 * (s.0 + s.1) && (v.0 + v.1) * w <= 128 * w) by (nonlinear_arith)
        requires
            0 <= j <= 64,
            s.0 + s.1 >= 0,
            v.0 + v.1 <= 128,
            w >= 0,
    ;
    assert(u * (a + b) == u * a + u * b) by (nonlinear_arith);
    // The size of the exact sum.
    assert(abs(u * (a + b)) <= 2 * (s.0 + s.1) + u * 0x80_0000);
    if s.0 + s.1 <= limit() {
        let (m, q) = (abs(a + b), pow2(270) as int);
        lemma_abs_product(u, a + b);
        assert(m <= 2 * q + 0x80_0000) by (nonlinear_arith)
            requires
                u * m <= 2 * (u * q) + u * 0x80_0000,
                u > 0,
        ;
        lemma_sum_value(x, y);
        lemma_finite_range(a + b);
    }
    if (x + y).is_finite() {
        lemma_sum(x, y);
        let f = (x + y).value() - (a + b);
        lemma_abs_product(u, f);
        lemma_abs_product(u, a + b);
        let (g, h) = (abs(f), abs(a + b));
        assert(u * g * 0x100_0000 <= u * h) by (nonlinear_arith)
            requires
                g * 0x100_0000 <= h,
                u > 0,
        ;
        let n = (x + y).value();
        assert(u * f == u * n - u * (a + b)) by (nonlinear_arith)
            requires
                f == n - (a + b),
        ;
    }
}

/// Tracking a product.
proof fn lemma_track_product(x: Single, y: Single)
    requires
        x.is_finite(),
        y.is_finite(),
    ensures
        abs(x.value() * y.value()) <= limit() ==> (x * y).is_finite(),
        (x * y).is_finite() ==> tracks(
            x * y,
            x.value() * y.value(),
            abs(x.value() * y.value()),
            1,
            1,
        ),
{
    let u = pow2(149);
    let (a, b) = (magnitude(x.pattern()), magnitude(y.pattern()));
    let n = a * b;
    let s = abs(x.value() * y.value());
    lemma_limit();
    lemma_abs_product(x.value(), y.value());
    assert(s == n);
    if s <= limit() {
        let top = (INFINITY - 1) as nat;
        let m = nearest(n, u);
        lemma_nearest_bounded(n, u);
        lemma_exact(u * magnitude(top), u, top);
        let (q, t) = (pow2(270), magnitude(top));
        assert(n * u <= u * t * u) by (nonlinear_arith)
            requires
                n <= u * q,
                4 * q <= t,
        ;
        lemma_nearest_monotone(n, u, m, u * t, u, top);
        reveal(Single::spec_mul);
        lemma_signed(x.negative() != y.negative(), m);
    }
    if (x * y).is_finite() {
        law_product_error(x, y);
    }
}

/// What tracks is near.
proof fn lemma_track_near(x: Single, e: int, s: int, j: int, v: int)
    requires
        x.is_finite() ==> tracks(x, e, s, j, v),
        s <= limit() ==> x.is_finite(),
        0 <= j <= 16,
        0 <= v <= 16,
    ensures
        is_near(x, e, s),
{
    if x.is_finite() {
        let w = pow2(149) * 0x100_0000;
        assert(j * s <= 16 * s && v * w <= 16 * w) by (nonlinear_arith)
            requires
                j <= 16,
                v <= 16,
                s >= 0,
                w >= 0,
        ;
    }
}

/// Whether a channel of a section has taken one more sample, from the history
/// `h` to the history `g`: what came in and what went out have moved up by one,
/// and what went out is, to within rounding, the sum of the last three inputs
/// less that of the last two outputs, each times its coefficient.
pub open spec fn is_filtered(h: History, c: Coefficients, g: History) -> bool {
    let (x, y) = (g.x1, g.y1);
    let whole = {
        &&& x.is_finite() && h.x1.is_finite() && h.x2.is_finite()
        &&& h.y1.is_finite() && h.y2.is_finite()
        &&& c.b0.is_finite() && c.b1.is_finite() && c.b2.is_finite()
        &&& c.a1.is_finite() && c.a2.is_finite()
    };
    let (p0, p1, p2) = (
        c.b0.value() * x.value(),
        c.b1.value() * h.x1.value(),
        c.b2.value() * h.x2.value(),
    );
    let (p3, p4) = (c.a1.value() * h.y1.value(), c.a2.value() * h.y2.value());
    &&& g.x2 == h.x1
    &&& g.y2 == h.y1
    &&& y.is_finite() ==> whole
    &&& whole ==> is_near(
        y,
        p0 + p1 + p2 - p3 - p4,
        abs(p0) + abs(p1) + abs(p2) + abs(p3) + abs(p4),
    )
}

/// A channel of a section takes one more sample.
pub proof fn law_channel_filters(h: History, c: Coefficients, x: Single)
    ensures
        h.advanced(c, x).x1 == x,
        h.advanced(c, x).y1 == h.output(c, x),
        is_filtered(h, c, h.advanced(c, x)),
{
    let (p0, p1, p2, p3, p4) = (c.b0 * x, c.b1 * h.x1, c.b2 * h.x2, c.a1 * h.y1, c.a2 * h.y2);
    let (q0, q1, q2) = (
        c.b0.value() * x.value(),
        c.b1.value() * h.x1.value(),
        c.b2.value() * h.x2.value(),
    );
    let (q3, q4) = (c.a1.value() * h.y1.value(), c.a2.value() * h.y2.value());
    let (s1, s2, s3) = (p0 + p1, p0 + p1 + p2, p0 + p1 + p2 - p3);
    let y = s3 - p4;
    let scale = abs(q0) + abs(q1) + abs(q2) + abs(q3) + abs(q4);
    law_finite_terms(s3, p4);
    law_finite_terms(s2, p3);
    law_finite_terms(s1, p2);
    law_finite_terms(p0, p1);
    law_finite_terms(c.b0, x);
    law_finite_terms(c.b1, h.x1);
    law_finite_terms(c.b2, h.x2);
    law_finite_terms(c.a1, h.y1);
    law_finite_terms(c.a2, h.y2);
    let whole = {
        &&& x.is_finite() && h.x1.is_finite() && h.x2.is_finite()
        &&& h.y1.is_finite() && h.y2.is_finite()
        &&& c.b0.is_finite() && c.b1.is_finite() && c.b2.is_finite()
        &&& c.a1.is_finite() && c.a2.is_finite()
    };
    if whole && (scale <= limit() || y.is_finite()) {
        lemma_track_product(c.b0, x);
        lemma_track_product(c.b1, h.x1);
        lemma_track_product(c.b2, h.x2);
        lemma_track_product(c.a1, h.y1);
        lemma_track_product(c.a2, h.y2);
        lemma_track_sum(p0, p1, (q0, q1), (abs(q0), abs(q1)), 1, (1, 1));
        lemma_track_more(p2, q2, abs(q2), 1, 1, 3, 1);
        let (e1, z1) = (q0 + q1, abs(q0) + abs(q1));
        lemma_track_sum(s1, p2, (e1, q2), (z1, abs(q2)), 3, (3, 1));
        lemma_opposite(p3);
        lemma_opposite(p4);
        lemma_track_opposite(p3, q3, abs(q3), 1, 1);
        lemma_track_opposite(p4, q4, abs(q4), 1, 1);
        lemma_track_more(p3.opposite(), -q3, abs(q3), 1, 1, 5, 1);
        lemma_track_more(p4.opposite(), -q4, abs(q4), 1, 1, 7, 1);
        let (e2, z2) = (e1 + q2, z1 + abs(q2));
        lemma_track_sum(s2, p3.opposite(), (e2, -q3), (z2, abs(q3)), 5, (5, 1));
        let (e3, z3) = (e2 - q3, z2 + abs(q3));
        lemma_track_sum(s3, p4.opposite(), (e3, -q4), (z3, abs(q4)), 7, (7, 1));
        lemma_track_near(y, e3 - q4, scale, 9, 9);
    } else {
        assert(whole ==> is_near(y, q0 + q1 + q2 - q3 - q4, scale));
    }
}

/// Whether `m` is the mix of three bands, each times its gain.
pub open spec fn is_mixed(
    x: (Single, Single, Single),
    g: (Single, Single, Single),
    m: Single,
) -> bool {
    let whole = x.0.is_finite() && x.1.is_finite() && x.2.is_finite() && g.0.is_finite()
        && g.1.is_finite() && g.2.is_finite();
    let (p, q, r) = (
        x.0.value() * g.0.value(),
        x.1.value() * g.1.value(),
        x.2.value() * g.2.value(),
    );
    &&& m.is_finite() ==> whole
    &&& whole ==> is_near(m, p + q + r, abs(p) + abs(q) + abs(r))
}

/// The mix of the crossover is the sum of its bands, each times its gain.
pub proof fn law_mix_sums(x: (Single, Single, Single), g: (Single, Single, Single))
    ensures
        is_mixed(x, g, mix(x.0, g.0, x.1, g.1, x.2, g.2)),
{
    let (p0, p1, p2) = (x.0 * g.0, x.1 * g.1, x.2 * g.2);
    let (q0, q1, q2) = (
        x.0.value() * g.0.value(),
        x.1.value() * g.1.value(),
        x.2.value() * g.2.value(),
    );
    let s = p0 + p1;
    let m = s + p2;
    let scale = abs(q0) + abs(q1) + abs(q2);
    law_finite_terms(s, p2);
    law_finite_terms(p0, p1);
    law_finite_terms(x.0, g.0);
    law_finite_terms(x.1, g.1);
    law_finite_terms(x.2, g.2);
    let whole = x.0.is_finite() && x.1.is_finite() && x.2.is_finite() && g.0.is_finite()
        && g.1.is_finite() && g.2.is_finite();
    if whole && (scale <= limit() || m.is_finite()) {
        lemma_track_product(x.0, g.0);
        lemma_track_product(x.1, g.1);
        lemma_track_product(x.2, g.2);
        lemma_track_sum(p0, p1, (q0, q1), (abs(q0), abs(q1)), 1, (1, 1));
        lemma_track_more(p2, q2, abs(q2), 1, 1, 3, 1);
        lemma_track_sum(s, p2, (q0 + q1, q2), (abs(q0) + abs(q1), abs(q2)), 3, (3, 1));
        lemma_track_near(m, q0 + q1 + q2, scale, 5, 5);
    } else {
        assert(whole ==> is_near(m, q0 + q1 + q2, scale));
    }
}

/// Whether `b` is the blend of a dry signal and the crossover's mix `m`, of
/// which there is the share `w`.
pub open spec fn is_blended(dry: Single, m: Single, w: Single, b: Single) -> bool {
    let one = pow2(149) as int;
    let whole = dry.is_finite() && m.is_finite() && w.is_finite();
    let (p, q) = ((one - w.value()) * dry.value(), w.value() * m.value());
    &&& w.is_zero() ==> b == dry
    &&& !w.is_zero() && b.is_finite() ==> whole
    &&& whole ==> is_near(b, p + q, abs(p) + abs(q))
}

/// The blend is what is left of the dry signal and its share of the crossover's
/// mix, for every share.
pub proof fn law_blend_mixes(dry: Single, m: Single, w: Single)
    ensures
        is_blended(dry, m, w, blend(dry, m, w)),
{
    let one = Single { bits: ONE };
    let u = pow2(149) as int;
    let g = one - w;
    let (p, q) = (dry * g, m * w);
    let b = blend(dry, m, w);
    let (dv, mv, wv) = (dry.value(), m.value(), w.value());
    let (ep, eq) = ((u - wv) * dv, wv * mv);
    let scale = abs(ep) + abs(eq);
    let whole = dry.is_finite() && m.is_finite() && w.is_finite();
    lemma_limit();
    lemma_small_powers();
    law_finite_terms(p, q);
    law_finite_terms(dry, g);
    law_finite_terms(m, w);
    law_finite_terms(one, w);
    if w.is_zero() {
        lemma_zero(w.pattern());
        if whole {
            assert(ep == u * dv && eq == 0) by (nonlinear_arith)
                requires
                    ep == (u - wv) * dv,
                    eq == wv * mv,
                    wv == 0,
            ;
        }
    } else if whole {
        // The share of the dry signal is rounded itself.
        lemma_opposite(w);
        lemma_finite_bounded(w);
        lemma_finite_range(u - wv);
        lemma_sum_value(one, w.opposite());
        lemma_sum(one, w.opposite());
        let f = g.value() - (u - wv);
        lemma_abs_product(f, dv);
        lemma_abs_product(u - wv, dv);
        lemma_abs_product(g.value(), dv);
        let (x, y, z) = (abs(f), abs(u - wv), abs(dv));
        assert(x * z * 0x100_0000 <= y * z) by (nonlinear_arith)
            requires
                x * 0x100_0000 <= y,
                z >= 0,
        ;
        let gv = g.value();
        assert(f * dv == dv * gv - ep) by (nonlinear_arith)
            requires
                f == gv - (u - wv),
                ep == (u - wv) * dv,
        ;
        lemma_abs_product(mv, wv);
        if scale <= limit() || b.is_finite() {
            lemma_dry_part(dry, g, ep);
            lemma_track_product(m, w);
            lemma_track_more(q, eq, abs(eq), 1, 1, 4, 1);
            lemma_track_sum(p, q, (ep, eq), (abs(ep), abs(eq)), 4, (1, 1));
            lemma_track_near(b, ep + eq, scale, 6, 3);
        }
    }
}

/// The part of the dry signal `dry` in a blend, times the rounded share `g`, for
/// the exact product `e`.
proof fn lemma_dry_part(dry: Single, g: Single, e: int)
    requires
        dry.is_finite(),
        g.is_finite(),
        abs(dry.value() * g.value() - e) * 0x100_0000 <= abs(e),
    ensures
        abs(e) <= limit() ==> (dry * g).is_finite(),
        (dry * g).is_finite() ==> tracks(dry * g, e, abs(e), 4, 1),
{
    let u = pow2(149);
    let n = dry.value() * g.value();
    lemma_limit();
    if abs(e) <= limit() {
        lemma_product_finite(dry, g);
    }
    if (dry * g).is_finite() {
        law_product_error(dry, g);
    }
}

/// A product of up to twice the limit is finite.
pub proof fn lemma_product_finite(x: Single, y: Single)
    requires
        x.is_finite(),
        y.is_finite(),
        abs(x.value() * y.value()) <= 2 * limit(),
    ensures
        (x * y).is_finite(),
{
    let u = pow2(149);
    let (a, b) = (magnitude(x.pattern()), magnitude(y.pattern()));
    let n = a * b;
    let top = (INFINITY - 1) as nat;
    let m = nearest(n, u);
    lemma_limit();
    lemma_abs_product(x.value(), y.value());
    lemma_nearest_bounded(n, u);
    lemma_exact(u * magnitude(top), u, top);
    let (q, t) = (pow2(270), magnitude(top));
    assert(n * u <= u * t * u) by (nonlinear_arith)
        requires
            n <= 2 * (u * q),
            4 * q <= t,
    ;
    lemma_nearest_monotone(n, u, m, u * t, u, top);
    reveal(Single::spec_mul);
    lemma_signed(x.negative() != y.negative(), m);
}

/// With everything wet, the blend has the value of the crossover's mix: nothing
/// is left of the dry signal.
pub proof fn law_fully_wet(dry: Single, m: Single)
    requires
        dry.is_finite(),
        m.is_finite(),
    ensures
        blend(dry, m, Single { bits: ONE }).value() == m.value(),
{
    let one = Single { bits: ONE };
    lemma_small_powers();
    law_minus_itself(one);
    law_times_zero(dry, Single { bits: ZERO });
    let z = dry * (one - one);
    let p = m * one;
    lemma_zero(0);
    lemma_signed(dry.negative(), 0);
    assert(p == m) by {
        law_times_one(m);
    }
    lemma_sum_value(z, p);
    lemma_rounded_self(m);
}

/// Whether `y` is `x` times the gain `g`.
pub open spec fn is_scaled(x: Single, g: Single, y: Single) -> bool {
    let p = x.value() * g.value();
    &&& y.is_finite() ==> x.is_finite() && g.is_finite()
    &&& x.is_finite() && g.is_finite() ==> is_near(y, p, abs(p))
}

/// A product is the number times the gain.
proof fn lemma_scaled(x: Single, g: Single)
    ensures
        is_scaled(x, g, x * g),
{
    law_finite_terms(x, g);
    if x.is_finite() && g.is_finite() {
        let p = x.value() * g.value();
        lemma_track_product(x, g);
        lemma_track_near(x * g, p, abs(p), 1, 1);
    }
}

/// Whether the width stage turns the channels `l` and `r` into `x` and `y` at
/// the width `w`: it keeps the mid, half of their sum, and scales the side, half
/// of their difference. Both sides of the relation are doubled.
pub open spec fn is_widened(l: Single, r: Single, w: Single, x: Single, y: Single) -> bool {
    let one = pow2(149) as int;
    let whole = l.is_finite() && r.is_finite() && w.is_finite();
    let (a, b, k) = (l.value(), r.value(), w.value());
    let (mid, side) = (one * (a + b), k * (a - b));
    let scale = (one + abs(k)) * (abs(a) + abs(b));
    let slack = 32 * (one + abs(k)) * 0x10_0000;
    &&& x.is_finite() || y.is_finite() ==> whole
    &&& whole && 4 * scale <= limit() ==> x.is_finite() && y.is_finite()
    &&& x.is_finite() ==> abs(2 * one * x.value() - (mid + side)) * 0x10_0000 <= scale + slack
    &&& y.is_finite() ==> abs(2 * one * y.value() - (mid - side)) * 0x10_0000 <= scale + slack
    &&& w.is_zero() && whole ==> x.value() == y.value()
}

/// The errors of the width stage: `p` and `q` are the mid and the side scaled
/// by one, as computed and doubled, `z` the output, `t` what goes in.
proof fn lemma_width_errors(
    one: int,
    k: int,
    mid: int,
    side: int,
    m2: int,
    s2: int,
    sa: int,
    sb: int,
    um: int,
    hw: int,
    z: int,
)
    requires
        one >= 0x1_0000_0000,
        k >= 0,
        sa >= abs(mid),
        sb >= abs(side),
        m2 == 2 * um,
        s2 == 2 * hw,
        abs(m2 - mid) * 0x100_0000 <= 2 * sa + 2 * one * 0x100_0000,
        abs(s2 - side) * 0x100_0000 <= 2 * sb + 2 * k * 0x100_0000,
        abs(z - (um + hw)) * 0x100_0000 <= 3 * (abs(um) + abs(hw)) + 3 * one * 0x100_0000,
    ensures
        abs(2 * z - (mid + side)) * 0x10_0000 <= sa + sb + 32 * (one + k) * 0x10_0000,
{
}

/// Half of a rounded sum `a` of terms of the size `s`, in units: `m` is the
/// half, `e` the exact sum, `k` a factor.
proof fn lemma_half_scaled(k: int, m: int, a: int, e: int, s: int)
    requires
        abs(2 * m - a) <= 1,
        abs(a - e) * 0x100_0000 <= 2 * s + 0x100_0000,
        s >= 0,
    ensures
        abs(2 * (k * m) - k * e) * 0x100_0000 <= 2 * (abs(k) * s) + 2 * abs(k) * 0x100_0000,
{
    let d = 2 * m - e;
    lemma_abs_product(k, d);
    let (x, y) = (abs(k), abs(d));
    assert(x * y * 0x100_0000 <= 2 * (x * s) + 2 * x * 0x100_0000) by (nonlinear_arith)
        requires
            y * 0x100_0000 <= 2 * s + 2 * 0x100_0000,
            x >= 0,
    ;
    assert(k * d == 2 * (k * m) - k * e) by (nonlinear_arith)
        requires
            d == 2 * m - e,
    ;
}

/// A rounded sum or difference of two numbers, in units.
proof fn lemma_pair(l: Single, r: Single)
    requires
        l.is_finite(),
        r.is_finite(),
        (l + r).is_finite(),
    ensures
        abs((l + r).value() - (l.value() + r.value())) * 0x100_0000 <= 2 * (abs(l.value()) + abs(
            r.value(),
        )) + 0x100_0000,
{
    lemma_sum(l, r);
}

/// The width stage keeps the mid and scales the side, for every width; at
/// width zero both channels come out equal.
pub proof fn law_width_scales_the_side(l: Single, r: Single, w: Single)
    ensures
        ({
            let (x, y) = widen(l, r, w);
            is_widened(l, r, w, x, y)
        }),
{
    let half = Single { bits: HALF };
    let u = pow2(149) as int;
    let (sum, dif) = (l + r, l - r);
    let (m, h) = (half * sum, half * dif);
    let s = h * w;
    let (x, y) = (m + s, m - s);
    let whole = l.is_finite() && r.is_finite() && w.is_finite();
    let (a, b, k) = (l.value(), r.value(), w.value());
    let scale = (u + abs(k)) * (abs(a) + abs(b));
    law_finite_terms(m, s);
    law_finite_terms(half, sum);
    law_finite_terms(h, w);
    law_finite_terms(half, dif);
    law_finite_terms(l, r);
    lemma_limit();
    lemma_small_powers();
    lemma_opposite(r);
    lemma_opposite(s);
    let t = abs(a) + abs(b);
    assert(scale == u * t + abs(k) * t) by (nonlinear_arith)
        requires
            scale == (u + abs(k)) * t,
    ;
    if whole && (4 * scale <= limit() || x.is_finite() || y.is_finite()) {
        if 4 * scale <= limit() {
            lemma_width_owed(l, r, w);
        }
        law_half(sum);
        law_half(dif);
        lemma_pair(l, r);
        lemma_pair(l, r.opposite());
        let (mv, hv) = (m.value(), h.value());
        lemma_half_scaled(u, mv, sum.value(), a + b, t);
        lemma_half_scaled(k, hv, dif.value(), a - b, t);
        lemma_abs_product(u, a + b);
        lemma_abs_product(k, a - b);
        let (x1, y1, z1) = (abs(a + b), abs(a - b), abs(k));
        assert(u * x1 <= u * t && z1 * y1 <= z1 * t) by (nonlinear_arith)
            requires
                x1 <= t,
                y1 <= t,
                z1 >= 0,
                u >= 0,
        ;
        lemma_track_self(m);
        lemma_track_more(m, u * mv, abs(u * mv), 0, 0, 1, 1);
        lemma_track_product(h, w);
        let (um, hw) = (u * mv, hv * k);
        assert(hv * k == k * hv) by (nonlinear_arith);
        if x.is_finite() {
            lemma_track_sum(m, s, (um, hw), (abs(um), abs(hw)), 1, (1, 1));
            assert(tracks(x, um + hw, abs(um) + abs(hw), 3, 3));
            lemma_width_errors(
                u,
                abs(k),
                u * (a + b),
                k * (a - b),
                2 * um,
                2 * hw,
                u * t,
                abs(k) * t,
                um,
                hw,
                u * x.value(),
            );
            assert(2 * u * x.value() == 2 * (u * x.value())) by (nonlinear_arith);
        }
        if y.is_finite() {
            lemma_track_opposite(s, hw, abs(hw), 1, 1);
            lemma_track_sum(m, s.opposite(), (um, -hw), (abs(um), abs(hw)), 1, (1, 1));
            assert(tracks(y, um - hw, abs(um) + abs(hw), 3, 3));
            lemma_width_errors(
                u,
                abs(k),
                u * (a + b),
                -(k * (a - b)),
                2 * um,
                -2 * hw,
                u * t,
                abs(k) * t,
                um,
                -hw,
                u * y.value(),
            );
            assert(2 * u * y.value() == 2 * (u * y.value())) by (nonlinear_arith);
        }
    }
    if whole && w.is_zero() {
        lemma_width_zero(m, h, w);
    }
}

/// A side of nothing leaves both channels equal.
proof fn lemma_width_zero(m: Single, h: Single, w: Single)
    requires
        w.is_zero(),
    ensures
        (m + h * w).value() == (m - h * w).value(),
{
    let s = h * w;
    lemma_opposite(s);
    lemma_zero(0);
    if h.is_finite() {
        law_times_zero(h, w);
        lemma_signed(h.negative() != w.negative(), 0);
        if m.is_finite() {
            lemma_sum_value(m, s);
            lemma_sum_value(m, s.opposite());
        } else {
            reveal(Single::spec_add);
        }
    } else {
        assert(s.is_nan()) by {
            reveal(Single::spec_mul);
        }
        reveal(Single::spec_add);
    }
}

/// Where the width stage is owed finite channels.
proof fn lemma_width_owed(l: Single, r: Single, w: Single)
    requires
        l.is_finite(),
        r.is_finite(),
        w.is_finite(),
        4 * ((pow2(149) + abs(w.value())) * (abs(l.value()) + abs(r.value()))) <= limit(),
    ensures
        ({
            let half = Single { bits: HALF };
            let (m, s) = (half * (l + r), half * (l - r) * w);
            &&& (l + r).is_finite() && (l - r).is_finite()
            &&& m.is_finite() && s.is_finite()
            &&& (m + s).is_finite() && (m - s).is_finite()
        }),
{
    let half = Single { bits: HALF };
    let u = pow2(149) as int;
    let (a, b, k) = (l.value(), r.value(), w.value());
    let t = abs(a) + abs(b);
    let (z, q) = (abs(k), pow2(270) as int);
    lemma_limit();
    lemma_small_powers();
    lemma_opposite(r);
    assert(4 * t <= q && 4 * (u * t) + 4 * (z * t) <= u * q) by (nonlinear_arith)
        requires
            4 * ((u + z) * t) <= u * q,
            z >= 0,
            t >= 0,
            u > 0,
    ;
    lemma_sum_value(l, r);
    lemma_sum_value(l, r.opposite());
    lemma_finite_range(a + b);
    lemma_finite_range(a - b);
    let (sum, dif) = (l + r, l - r);
    law_half(sum);
    law_half(dif);
    lemma_sum(l, r);
    lemma_sum(l, r.opposite());
    let (m, h) = (half * sum, half * dif);
    let hv = h.value();
    // The side is at most what came in.
    assert(abs(hv) <= t);
    lemma_abs_product(hv, k);
    let y = abs(hv);
    assert(y * z <= t * z && t * z == z * t && z * t >= 0) by (nonlinear_arith)
        requires
            0 <= y <= t,
            z >= 0,
    ;
    lemma_product_finite(h, w);
    law_product_error(h, w);
    let s = h * w;
    lemma_opposite(s);
    let sv = s.value();
    lemma_abs_product(u, sv);
    let x = abs(sv);
    assert(x <= q) by (nonlinear_arith)
        requires
            u * x * 0x100_0000 <= (z * t) * 0x100_0001 + u * 0x80_0000,
            4 * (z * t) <= u * q,
            q >= 0x100,
            u > 0,
    ;
    lemma_sum_value(m, s);
    lemma_sum_value(m, s.opposite());
    lemma_finite_range(m.value() + sv);
    lemma_finite_range(m.value() - sv);
}

/// Whether a smoother has moved on by one sample, from `s` to `t`: by its share
/// of the distance to the target, to within rounding.
pub open spec fn is_moved(s: Smoother, t: Smoother) -> bool {
    let one = pow2(149) as int;
    let whole = s.current.is_finite() && s.target.is_finite() && s.coef.is_finite();
    let (c, g, k) = (s.current.value(), s.target.value(), s.coef.value());
    let n = t.current.value();
    &&& t.target == s.target
    &&& t.coef == s.coef
    &&& t.current.is_finite() ==> whole
    &&& whole && 4 * ((one + abs(k)) * (abs(c) + abs(g))) <= limit() ==> t.current.is_finite()
    &&& t.current.is_finite() ==> abs(one * n - (one * c + k * (g - c))) * 0x100_0000 <= 2 * abs(
        one * n,
    ) + 3 * abs(k * (g - c)) + one * 0x80_0000
}

/// A smoother moves on by its share of the distance.
pub proof fn law_smoother_moves(s: Smoother)
    ensures
        s.advanced().current == s.next(),
        is_moved(s, s.advanced()),
{
    let u = pow2(149) as int;
    let d = s.target - s.current;
    let p = d * s.coef;
    let whole = s.current.is_finite() && s.target.is_finite() && s.coef.is_finite();
    let (c, g, k) = (s.current.value(), s.target.value(), s.coef.value());
    law_finite_terms(s.current, p);
    law_finite_terms(d, s.coef);
    law_finite_terms(s.target, s.current);
    if whole && 4 * ((u + abs(k)) * (abs(c) + abs(g))) <= limit() {
        let t = abs(c) + abs(g);
        let (z, q) = (abs(k), pow2(270) as int);
        lemma_limit();
        assert(4 * t <= q && 4 * (u * t) + 4 * (z * t) <= u * q) by (nonlinear_arith)
            requires
                4 * ((u + z) * t) <= u * q,
                z >= 0,
                t >= 0,
                u > 0,
        ;
        lemma_opposite(s.current);
        lemma_sum_value(s.target, s.current.opposite());
        lemma_finite_range(g - c);
        lemma_sum(s.target, s.current.opposite());
        let dv = d.value();
        lemma_abs_product(dv, k);
        let y = abs(dv);
        assert(y <= 2 * t);
        assert(y * z <= 2 * (z * t) && z * t >= 0) by (nonlinear_arith)
            requires
                0 <= y <= 2 * t,
                z >= 0,
                t >= 0,
        ;
        lemma_product_finite(d, s.coef);
        law_product_error(d, s.coef);
        let pv = p.value();
        lemma_abs_product(u, pv);
        let x = abs(pv);
        assert(x <= q) by (nonlinear_arith)
            requires
                u * x * 0x100_0000 <= 2 * (z * t) * 0x100_0001 + u * 0x80_0000,
                4 * (z * t) <= u * q,
                q >= 0x100,
                u > 0,
        ;
        lemma_sum_value(s.current, p);
        lemma_finite_range(c + pv);
    }
    if s.next().is_finite() {
        law_smoother_step(s);
    }
}

/// Whether a section has taken one more stereo sample, from `b` to `d`.
pub open spec fn has_filtered(b: Biquad, d: Biquad) -> bool {
    &&& d.coefficients == b.coefficients
    &&& is_filtered(b.left, b.coefficients, d.left)
    &&& is_filtered(b.right, b.coefficients, d.right)
}

/// Whether what last went out of one section is what last came into another.
pub open spec fn feeds(a: Biquad, b: Biquad) -> bool {
    a.left.y1 == b.left.x1 && a.right.y1 == b.right.x1
}

/// A section takes one more stereo sample.
proof fn lemma_section(b: Biquad, l: Single, r: Single)
    ensures
        ({
            let d = b.advanced(l, r);
            &&& has_filtered(b, d)
            &&& (d.left.x1, d.right.x1) == (l, r)
            &&& (d.left.y1, d.right.y1) == b.output(l, r)
        }),
{
    law_channel_filters(b.left, b.coefficients, l);
    law_channel_filters(b.right, b.coefficients, r);
}

/// Whether one channel of the output `y` comes of the equalized sample `dry` and
/// the bands `x` with the gains `g`, the share `w` of them in the blend, and the
/// output gain `gain`.
pub open spec fn is_put_out(
    dry: Single,
    x: (Single, Single, Single),
    g: (Single, Single, Single),
    w: Single,
    gain: Single,
    y: Single,
) -> bool {
    exists|m: Single, b: Single| #[trigger]
        is_blended(dry, m, w, b) && is_mixed(x, g, m) && #[trigger] is_scaled(b, gain, y)
}

/// What a sample goes through. Every section and every smoother takes one more
/// sample. What the width stage makes of the input, with the width that its
/// smoother moved to, comes into the equalizer; its three bands feed each
/// other, and the last feeds all bands of the crossover, whose sections feed
/// each other. What comes out is the blend of the equalized sample and the mix
/// of the bands, with the gains, the share and the output gain that their
/// smoothers moved to.
pub proof fn law_sample_path(c: Chain, il: Single, ir: Single)
    ensures
        ({
            let d = c.advanced(il, ir);
            let (yl, yr) = c.output(il, ir);
            let e = d.high_eq;
            let (low, mid, high) = (d.low.third, d.mid.fourth, d.high.fourth);
            let g = (d.mb_low_gain.current, d.mb_mid_gain.current, d.mb_high_gain.current);
            let (w, gain) = (d.mb_wet.current, d.out_gain_lin.current);
            &&& is_moved(c.width, d.width)
            &&& is_moved(c.out_gain_lin, d.out_gain_lin)
            &&& is_moved(c.mb_wet, d.mb_wet)
            &&& is_moved(c.mb_low_gain, d.mb_low_gain)
            &&& is_moved(c.mb_mid_gain, d.mb_mid_gain)
            &&& is_moved(c.mb_high_gain, d.mb_high_gain)
            &&& is_widened(il, ir, d.width.current, d.low_eq.left.x1, d.low_eq.right.x1)
            &&& has_filtered(c.low_eq, d.low_eq) && feeds(d.low_eq, d.mid_eq)
            &&& has_filtered(c.mid_eq, d.mid_eq) && feeds(d.mid_eq, d.high_eq)
            &&& has_filtered(c.high_eq, d.high_eq)
            &&& feeds(e, d.low.first) && feeds(e, d.mid.first) && feeds(e, d.high.first)
            &&& has_filtered(c.low.first, d.low.first) && feeds(d.low.first, d.low.second)
            &&& has_filtered(c.low.second, d.low.second) && feeds(d.low.second, d.low.third)
            &&& has_filtered(c.low.third, d.low.third)
            &&& has_filtered(c.mid.first, d.mid.first) && feeds(d.mid.first, d.mid.second)
            &&& has_filtered(c.mid.second, d.mid.second) && feeds(d.mid.second, d.mid.third)
            &&& has_filtered(c.mid.third, d.mid.third) && feeds(d.mid.third, d.mid.fourth)
            &&& has_filtered(c.mid.fourth, d.mid.fourth)
            &&& has_filtered(c.high.first, d.high.first) && feeds(d.high.first, d.high.second)
            &&& has_filtered(c.high.second, d.high.second) && feeds(d.high.second, d.high.third)
            &&& has_filtered(c.high.third, d.high.third) && feeds(d.high.third, d.high.fourth)
            &&& has_filtered(c.high.fourth, d.high.fourth)
            &&& is_put_out(e.left.y1, (low.left.y1, mid.left.y1, high.left.y1), g, w, gain, yl)
            &&& is_put_out(e.right.y1, (low.right.y1, mid.right.y1, high.right.y1), g, w, gain, yr)
        }),
{
    lemma_moves(c, il, ir);
    lemma_filters(c, il, ir);
    let (l, r) = c.equalized(il, ir);
    lemma_bands(c, l, r);
    lemma_put_out(c, il, ir);
}

/// The smoothers of a chain move on.
proof fn lemma_moves(c: Chain, il: Single, ir: Single)
    ensures
        ({
            let d = c.advanced(il, ir);
            &&& is_moved(c.width, d.width)
            &&& is_moved(c.out_gain_lin, d.out_gain_lin)
            &&& is_moved(c.mb_wet, d.mb_wet)
            &&& is_moved(c.mb_low_gain, d.mb_low_gain)
            &&& is_moved(c.mb_mid_gain, d.mb_mid_gain)
            &&& is_moved(c.mb_high_gain, d.mb_high_gain)
            &&& d.width.current == c.width.next()
            &&& d.out_gain_lin.current == c.out_gain_lin.next()
            &&& d.mb_wet.current == c.mb_wet.next()
            &&& d.mb_low_gain.current == c.mb_low_gain.next()
            &&& d.mb_mid_gain.current == c.mb_mid_gain.next()
            &&& d.mb_high_gain.current == c.mb_high_gain.next()
        }),
{
    reveal(Chain::advanced);
    law_smoother_moves(c.width);
    law_smoother_moves(c.out_gain_lin);
    law_smoother_moves(c.mb_wet);
    law_smoother_moves(c.mb_low_gain);
    law_smoother_moves(c.mb_mid_gain);
    law_smoother_moves(c.mb_high_gain);
}

/// The width stage and the equalizer take one more sample.
proof fn lemma_filters(c: Chain, il: Single, ir: Single)
    ensures
        ({
            let d = c.advanced(il, ir);
            let (l, r) = c.equalized(il, ir);
            &&& is_widened(il, ir, c.width.next(), d.low_eq.left.x1, d.low_eq.right.x1)
            &&& has_filtered(c.low_eq, d.low_eq) && feeds(d.low_eq, d.mid_eq)
            &&& has_filtered(c.mid_eq, d.mid_eq) && feeds(d.mid_eq, d.high_eq)
            &&& has_filtered(c.high_eq, d.high_eq)
            &&& (d.high_eq.left.y1, d.high_eq.right.y1) == (l, r)
            &&& d.low == c.low.advanced(l, r)
            &&& d.mid == c.mid.advanced(l, r)
            &&& d.high == c.high.advanced(l, r)
        }),
{
    reveal(Chain::advanced);
    law_width_scales_the_side(il, ir, c.width.next());
    let (l0, r0) = c.widened(il, ir);
    let (l1, r1) = c.low_equalized(il, ir);
    let (l2, r2) = c.mid_equalized(il, ir);
    lemma_section(c.low_eq, l0, r0);
    lemma_section(c.mid_eq, l1, r1);
    lemma_section(c.high_eq, l2, r2);
}

/// The bands of the crossover take one more sample.
proof fn lemma_bands(c: Chain, l: Single, r: Single)
    ensures
        ({
            let (low, mid, high) = (
                c.low.advanced(l, r),
                c.mid.advanced(l, r),
                c.high.advanced(l, r),
            );
            &&& (low.first.left.x1, low.first.right.x1) == (l, r)
            &&& (mid.first.left.x1, mid.first.right.x1) == (l, r)
            &&& (high.first.left.x1, high.first.right.x1) == (l, r)
            &&& has_filtered(c.low.first, low.first) && feeds(low.first, low.second)
            &&& has_filtered(c.low.second, low.second) && feeds(low.second, low.third)
            &&& has_filtered(c.low.third, low.third)
            &&& has_filtered(c.mid.first, mid.first) && feeds(mid.first, mid.second)
            &&& has_filtered(c.mid.second, mid.second) && feeds(mid.second, mid.third)
            &&& has_filtered(c.mid.third, mid.third) && feeds(mid.third, mid.fourth)
            &&& has_filtered(c.mid.fourth, mid.fourth)
            &&& has_filtered(c.high.first, high.first) && feeds(high.first, high.second)
            &&& has_filtered(c.high.second, high.second) && feeds(high.second, high.third)
            &&& has_filtered(c.high.third, high.third) && feeds(high.third, high.fourth)
            &&& has_filtered(c.high.fourth, high.fourth)
            &&& (low.third.left.y1, low.third.right.y1) == c.low.output(l, r)
            &&& (mid.fourth.left.y1, mid.fourth.right.y1) == c.mid.output(l, r)
            &&& (high.fourth.left.y1, high.fourth.right.y1) == c.high.output(l, r)
        }),
{
    let (l1, r1) = c.low.first.output(l, r);
    let (l2, r2) = c.low.second.output(l1, r1);
    lemma_section(c.low.first, l, r);
    lemma_section(c.low.second, l1, r1);
    lemma_section(c.low.third, l2, r2);
    lemma_band(c.mid, l, r);
    lemma_band(c.high, l, r);
}

/// A band of the crossover takes one more sample.
proof fn lemma_band(b: Band, l: Single, r: Single)
    ensures
        ({
            let d = b.advanced(l, r);
            &&& (d.first.left.x1, d.first.right.x1) == (l, r)
            &&& has_filtered(b.first, d.first) && feeds(d.first, d.second)
            &&& has_filtered(b.second, d.second) && feeds(d.second, d.third)
            &&& has_filtered(b.third, d.third) && feeds(d.third, d.fourth)
            &&& has_filtered(b.fourth, d.fourth)
            &&& (d.fourth.left.y1, d.fourth.right.y1) == b.output(l, r)
        }),
{
    let (l1, r1) = b.first.output(l, r);
    let (l2, r2) = b.second.output(l1, r1);
    let (l3, r3) = b.third.output(l2, r2);
    lemma_section(b.first, l, r);
    lemma_section(b.second, l1, r1);
    lemma_section(b.third, l2, r2);
    lemma_section(b.fourth, l3, r3);
}

/// What comes out of the crossover and the output gain.
proof fn lemma_put_out(c: Chain, il: Single, ir: Single)
    ensures
        ({
            let (yl, yr) = c.output(il, ir);
            let (l, r) = c.equalized(il, ir);
            let (ll, lr) = c.low.output(l, r);
            let (ml, mr) = c.mid.output(l, r);
            let (hl, hr) = c.high.output(l, r);
            let g = (c.mb_low_gain.next(), c.mb_mid_gain.next(), c.mb_high_gain.next());
            let (w, gain) = (c.mb_wet.next(), c.out_gain_lin.next());
            &&& is_put_out(l, (ll, ml, hl), g, w, gain, yl)
            &&& is_put_out(r, (lr, mr, hr), g, w, gain, yr)
        }),
{
    reveal(Chain::blended);
    reveal(Chain::output);
    let (l, r) = c.equalized(il, ir);
    let (ll, lr) = c.low.output(l, r);
    let (ml, mr) = c.mid.output(l, r);
    let (hl, hr) = c.high.output(l, r);
    let g = (c.mb_low_gain.next(), c.mb_mid_gain.next(), c.mb_high_gain.next());
    let (w, gain) = (c.mb_wet.next(), c.out_gain_lin.next());
    lemma_channel_out(l, (ll, ml, hl), g, w, gain);
    lemma_channel_out(r, (lr, mr, hr), g, w, gain);
}

/// What comes out of one channel.
proof fn lemma_channel_out(
    dry: Single,
    x: (Single, Single, Single),
    g: (Single, Single, Single),
    w: Single,
    gain: Single,
)
    ensures
        is_put_out(
            dry,
            x,
            g,
            w,
            gain,
            blend(dry, mix(x.0, g.0, x.1, g.1, x.2, g.2), w) * gain,
        ),
{
    let m = mix(x.0, g.0, x.1, g.1, x.2, g.2);
    let b = blend(dry, m, w);
    law_mix_sums(x, g);
    law_blend_mixes(dry, m, w);
    lemma_scaled(b, gain);
    assert(is_blended(dry, m, w, b) && is_mixed(x, g, m) && is_scaled(b, gain, b * gain));
}

} // verus!
