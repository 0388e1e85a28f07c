//! The filters in exact arithmetic: the transfer functions that
//! [`Transfer`](crate::biquad::Transfer) rounds, over the real numbers, and
//! what holds of them.
use vstd::arithmetic::power2::pow2;
use vstd::prelude::*;

use crate::arithmetic::{
    abs, capped, doubled_pattern, largest, law_commutative, law_double, law_half,
    law_opposite_factor, lemma_doubled_pattern, lemma_finite_bounded, lemma_finite_range,
    lemma_nearest_bounded, lemma_nearest_error, lemma_opposite, lemma_signed, lemma_small_powers,
    lemma_sum, lemma_sum_value,
};
use crate::biquad::{FilterKind, Transfer};
use crate::constants::{HALF, MINUS_TWO, ONE, TWO};
use crate::grid::{
    lemma_exact, lemma_increasing, lemma_nearest_monotone, lemma_zero, magnitude, nearest, INFINITY,
};
use crate::single::{signed, Single};

verus! {

/// A transfer function with real coefficients.
pub struct Exact {
    pub b0: real,
    pub b1: real,
    pub b2: real,
    pub a0: real,
    pub a1: real,
    pub a2: real,
}

/// A polynomial of degree four, from the constant term up.
pub struct Quartic {
    pub c0: real,
    pub c1: real,
    pub c2: real,
    pub c3: real,
    pub c4: real,
}

/// The product of two polynomials of degree two.
pub open spec fn product(
    x0: real,
    x1: real,
    x2: real,
    y0: real,
    y1: real,
    y2: real,
) -> Quartic {
    Quartic {
        c0: x0 * y0,
        c1: x0 * y1 + x1 * y0,
        c2: x0 * y2 + x1 * y1 + x2 * y0,
        c3: x1 * y2 + x2 * y1,
        c4: x2 * y2,
    }
}

/// The sum of two polynomials.
pub open spec fn sum(x: Quartic, y: Quartic) -> Quartic {
    Quartic {
        c0: x.c0 + y.c0,
        c1: x.c1 + y.c1,
        c2: x.c2 + y.c2,
        c3: x.c3 + y.c3,
        c4: x.c4 + y.c4,
    }
}

/// The settings of a filter: cosine and sine of its angular frequency, its
/// quality, the root of its amplitude, and the root of two.
pub struct Settings {
    pub cos_w: real,
    pub sin_w: real,
    pub q: real,
    pub root_a: real,
    pub root_2: real,
}

impl Settings {
    /// Whether the settings are those of a frequency strictly between zero and
    /// half the sample rate, with a positive quality and amplitude.
    pub open spec fn valid(self) -> bool {
        &&& self.cos_w * self.cos_w + self.sin_w * self.sin_w == 1real
        &&& self.sin_w > 0real
        &&& self.q > 0real
        &&& self.root_a > 0real
        &&& self.root_2 > 0real
        &&& self.root_2 * self.root_2 == 2real
    }

    /// Whether the settings can be used: a cosine strictly between -1 and 1, and
    /// a positive sine, quality and amplitude, whether or not cosine and sine
    /// are exactly those of one angle.
    pub open spec fn usable(self) -> bool {
        &&& -1real < self.cos_w < 1real
        &&& self.sin_w > 0real
        &&& self.q > 0real
        &&& self.root_a > 0real
        &&& self.root_2 > 0real
        &&& self.root_2 * self.root_2 == 2real
    }

    /// The amplitude: the square root of the filter's gain.
    pub open spec fn amplitude(self) -> real {
        self.root_a * self.root_a
    }

    /// The same settings with the opposite gain in decibels.
    pub open spec fn opposite(self) -> Settings {
        Settings { root_a: 1real / self.root_a, ..self }
    }
}

impl Exact {
    /// The exact transfer function of a filter.
    pub open spec fn of(kind: FilterKind, s: Settings) -> Exact {
        let c = s.cos_w;
        let alpha = s.sin_w / (2real * s.q);
        let a = s.amplitude();
        let two_sa = 2real * s.root_a * (s.sin_w * (1real / 2real) * s.root_2);
        let ap1 = a + 1real;
        let am1 = a - 1real;
        match kind {
            FilterKind::LowPass => Exact {
                b0: (1real - c) * (1real / 2real),
                b1: 1real - c,
                b2: (1real - c) * (1real / 2real),
                a0: 1real + alpha,
                a1: -2real * c,
                a2: 1real - alpha,
            },
            FilterKind::HighPass => Exact {
                b0: (1real + c) * (1real / 2real),
                b1: -(1real + c),
                b2: (1real + c) * (1real / 2real),
                a0: 1real + alpha,
                a1: -2real * c,
                a2: 1real - alpha,
            },
            FilterKind::AllPass => Exact {
                b0: 1real - alpha,
                b1: -2real * c,
                b2: 1real + alpha,
                a0: 1real + alpha,
                a1: -2real * c,
                a2: 1real - alpha,
            },
            FilterKind::Peaking => Exact {
                b0: 1real + alpha * a,
                b1: -2real * c,
                b2: 1real - alpha * a,
                a0: 1real + alpha / a,
                a1: -2real * c,
                a2: 1real - alpha / a,
            },
            FilterKind::LowShelf => Exact {
                b0: a * (ap1 - am1 * c + two_sa),
                b1: 2real * a * (am1 - ap1 * c),
                b2: a * (ap1 - am1 * c - two_sa),
                a0: ap1 + am1 * c + two_sa,
                a1: -2real * (am1 + ap1 * c),
                a2: ap1 + am1 * c - two_sa,
            },
            FilterKind::HighShelf => Exact {
                b0: a * (ap1 + am1 * c + two_sa),
                b1: -2real * a * (am1 + ap1 * c),
                b2: a * (ap1 + am1 * c - two_sa),
                a0: ap1 - am1 * c + two_sa,
                a1: 2real * (am1 - ap1 * c),
                a2: ap1 - am1 * c - two_sa,
            },
        }
    }

    /// The product of the numerators of two transfer functions.
    pub open spec fn numerators(self, other: Exact) -> Quartic {
        product(self.b0, self.b1, self.b2, other.b0, other.b1, other.b2)
    }

    /// The product of the denominators of two transfer functions.
    pub open spec fn denominators(self, other: Exact) -> Quartic {
        product(self.a0, self.a1, self.a2, other.a0, other.a1, other.a2)
    }

    /// Whether both poles lie inside the unit circle, by the triangle of
    /// stability.
    pub open spec fn is_stable(self) -> bool {
        &&& self.a0 > 0real
        &&& -self.a0 < self.a2 < self.a0
        &&& -(self.a0 + self.a2) < self.a1 < self.a0 + self.a2
    }

    /// Whether the response to a constant signal is `gain`.
    pub open spec fn passes_constant(self, gain: real) -> bool {
        &&& self.a0 + self.a1 + self.a2 != 0real
        &&& self.b0 + self.b1 + self.b2 == gain * (self.a0 + self.a1 + self.a2)
    }

    /// Whether the response to a signal that alternates at half the sample
    /// rate is `gain`.
    pub open spec fn passes_alternating(self, gain: real) -> bool {
        &&& self.a0 - self.a1 + self.a2 != 0real
        &&& self.b0 - self.b1 + self.b2 == gain * (self.a0 - self.a1 + self.a2)
    }

    /// Whether the response at the frequency with this cosine and sine is
    /// `gain`, without a shift of phase. Numerator and denominator are taken
    /// at that point of the unit circle, turned back by one sample.
    pub open spec fn passes_at(self, cos_w: real, sin_w: real, gain: real) -> bool {
        &&& (self.a0 + self.a2) * cos_w + self.a1 != 0real || (self.a0 - self.a2) * sin_w != 0real
        &&& (self.b0 + self.b2) * cos_w + self.b1 == gain * ((self.a0 + self.a2) * cos_w + self.a1)
        &&& (self.b0 - self.b2) * sin_w == gain * ((self.a0 - self.a2) * sin_w)
    }
}

/// Rules of multiplication.
pub proof fn lemma_ring(x: real, y: real, z: real)
    ensures
        x * y == y * x,
        x * (y * z) == (x * y) * z,
        x * (y + z) == x * y + x * z,
        x * (y - z) == x * y - x * z,
        x * (-y) == -(x * y),
{
    assert(x * y == y * x) by (nonlinear_arith);
    assert(x * (y * z) == (x * y) * z) by (nonlinear_arith);
    assert(x * (y + z) == x * y + x * z) by (nonlinear_arith);
    assert(x * (y - z) == x * y - x * z) by (nonlinear_arith);
    assert(x * (-y) == -(x * y)) by (nonlinear_arith);
}

/// Products of positive numbers are positive.
pub proof fn lemma_positive(x: real, y: real)
    requires
        x > 0real,
        y > 0real,
    ensures
        x * y > 0real,
{
    assert(x * y > 0real) by (nonlinear_arith)
        requires
            x > 0real,
            y > 0real,
    ;
}

/// Division by a positive number.
pub proof fn lemma_quotient(x: real, y: real)
    requires
        y > 0real,
    ensures
        (x / y) * y == x,
        x > 0real ==> x / y > 0real,
{
    let d = x / y;
    assert(d * y == x) by (nonlinear_arith)
        requires
            y > 0real,
            d == x / y,
    ;
    if x > 0real && d <= 0real {
        assert(d * y <= 0real) by (nonlinear_arith)
            requires
                d <= 0real,
                y > 0real,
        ;
    }
}

/// Half of a number.
pub proof fn lemma_halved(x: real)
    ensures
        2real * (x * (1real / 2real)) == x,
{
    let h = 1real / 2real;
    assert(2real * h == 1real);
    lemma_ring(2real, x, h);
    lemma_ring(x, 2real, h);
}

/// Valid settings can be used: their cosine lies strictly between -1 and 1.
pub proof fn lemma_valid(s: Settings)
    requires
        s.valid(),
    ensures
        s.usable(),
        -1real < s.cos_w < 1real,
        s.sin_w / (2real * s.q) > 0real,
        s.amplitude() > 0real,
        2real * s.root_a * (s.sin_w * (1real / 2real) * s.root_2) > 0real,
{
    let c = s.cos_w;
    let n = s.sin_w;
    lemma_positive(n, n);
    if c >= 1real {
        if c > 1real {
            lemma_positive(c - 1real, c - 1real);
        }
        lemma_ring(c - 1real, c, 1real);
        lemma_ring(c, c, 1real);
    }
    if c <= -1real {
        if c < -1real {
            lemma_positive(-1real - c, -1real - c);
        }
        lemma_ring(-1real - c, -1real, c);
        lemma_ring(c, -1real, c);
    }
    lemma_usable(s);
}

/// The terms of usable settings are positive.
proof fn lemma_usable(s: Settings)
    requires
        s.usable(),
    ensures
        s.sin_w / (2real * s.q) > 0real,
        s.amplitude() > 0real,
        2real * s.root_a * (s.sin_w * (1real / 2real) * s.root_2) > 0real,
{
    let n = s.sin_w;
    lemma_positive(2real, s.q);
    lemma_quotient(n, 2real * s.q);
    lemma_positive(s.root_a, s.root_a);
    lemma_halved(n);
    let h = n * (1real / 2real);
    lemma_positive(h, s.root_2);
    lemma_positive(2real, s.root_a);
    lemma_positive(2real * s.root_a, h * s.root_2);
}

/// The products that the taps of a shelf are made of.
proof fn lemma_shelf_products(a: real, c: real)
    ensures
        (a - 1real) * c == a * c - c,
        (a + 1real) * c == a * c + c,
        a * (1real + c) == a + a * c,
        a * (1real - c) == a - a * c,
{
    lemma_ring(c, a, 1real);
    lemma_ring(a - 1real, c, 0real);
    lemma_ring(a + 1real, c, 0real);
    lemma_ring(a, c, 0real);
    lemma_ring(a, 1real, c);
}

/// Every filter is stable.
pub proof fn law_stable(kind: FilterKind, s: Settings)
    requires
        s.usable(),
    ensures
        Exact::of(kind, s).is_stable(),
{
    lemma_usable(s);
    let c = s.cos_w;
    let a = s.amplitude();
    lemma_quotient(s.sin_w / (2real * s.q), a);
    lemma_shelf_products(a, c);
    lemma_positive(a, 1real + c);
    lemma_positive(a, 1real - c);
}

/// One factor taken out of three taps.
proof fn lemma_common_factor(a: real, x: real, y: real, z: real)
    ensures
        a * x + 2real * a * y + a * z == a * (x + 2real * y + z),
        a * x - 2real * a * y + a * z == a * (x - 2real * y + z),
        -2real * a * y == -(2real * a * y),
{
    lemma_ring(2real, a, y);
    lemma_ring(a, 2real, y);
    lemma_ring(a, x, 2real * y);
    lemma_ring(a, x + 2real * y, z);
    lemma_ring(a, x - 2real * y, z);
    assert(2real * a * y == 2real * (a * y));
    assert(-2real * a * y == -(2real * (a * y))) by {
        lemma_ring(-2real, a, y);
    }
}

/// The ends of the spectrum: a low-pass passes a constant and blocks an
/// alternating signal, a high-pass the other way round, an all-pass passes
/// both; a shelf passes one end at its gain, the square of its amplitude, and
/// the other as it is.
pub proof fn law_gains_at_the_ends(kind: FilterKind, s: Settings)
    requires
        s.usable(),
    ensures
        ({
            let t = Exact::of(kind, s);
            let gain = s.amplitude() * s.amplitude();
            match kind {
                FilterKind::LowPass => t.passes_constant(1real) && t.passes_alternating(0real),
                FilterKind::HighPass => t.passes_constant(0real) && t.passes_alternating(1real),
                FilterKind::AllPass => t.passes_constant(1real) && t.passes_alternating(1real),
                FilterKind::Peaking => t.passes_constant(1real) && t.passes_alternating(1real),
                FilterKind::LowShelf => t.passes_constant(gain) && t.passes_alternating(1real),
                FilterKind::HighShelf => t.passes_constant(1real) && t.passes_alternating(gain),
            }
        }),
{
    lemma_usable(s);
    law_stable(kind, s);
    let c = s.cos_w;
    let a = s.amplitude();
    let x = 2real * s.root_a * (s.sin_w * (1real / 2real) * s.root_2);
    let p = a * c;
    lemma_halved(1real - c);
    lemma_halved(1real + c);
    lemma_shelf_products(a, c);
    let t = Exact::of(kind, s);
    let gain = a * a;
    // The square of the amplitude times what a shelf's denominator comes to.
    lemma_ring(a, a, c);
    lemma_ring(gain, 4real, 4real * c);
    lemma_ring(gain, c, 4real);
    assert(gain * (4real * c) == 4real * (a * p)) by {
        lemma_ring(gain, 4real, c);
        lemma_ring(4real, gain, c);
    }
    assert(a * (4real * a - 4real * p) == gain * (4real - 4real * c)) by {
        lemma_ring(a, 4real * a, 4real * p);
        lemma_ring(a, 4real, a);
        lemma_ring(a, 4real, p);
        lemma_ring(4real, a, a);
        lemma_ring(4real, a, p);
        lemma_ring(gain, 4real, 0real);
    }
    assert(a * (4real * a + 4real * p) == gain * (4real + 4real * c)) by {
        lemma_ring(a, 4real * a, 4real * p);
        lemma_ring(a, 4real, a);
        lemma_ring(a, 4real, p);
        lemma_ring(4real, a, a);
        lemma_ring(4real, a, p);
        lemma_ring(gain, 4real, 0real);
    }
    assert(a * (4real + 4real * c) == 4real * a + 4real * p && a * (4real - 4real * c) == 4real * a
        - 4real * p) by {
        lemma_ring(a, 4real, 4real * c);
        lemma_ring(a, 4real, c);
        lemma_ring(4real, a, c);
    }
    if kind is LowShelf {
        let e0 = a + 1real - (p - c) + x;
        let e1 = a - 1real - (p + c);
        let e2 = a + 1real - (p - c) - x;
        lemma_common_factor(a, e0, e1, e2);
        assert(t.b0 + t.b1 + t.b2 == a * (4real * a - 4real * p));
        assert(t.a0 + t.a1 + t.a2 == 4real - 4real * c);
        assert(t.b0 - t.b1 + t.b2 == a * (4real + 4real * c));
        assert(t.a0 - t.a1 + t.a2 == 4real * a + 4real * p);
    } else if kind is HighShelf {
        let e0 = a + 1real + (p - c) + x;
        let e1 = a - 1real + (p + c);
        let e2 = a + 1real + (p - c) - x;
        lemma_common_factor(a, e0, e1, e2);
        assert(t.b0 + t.b1 + t.b2 == a * (4real - 4real * c));
        assert(t.a0 + t.a1 + t.a2 == 4real * a - 4real * p);
        assert(t.b0 - t.b1 + t.b2 == a * (4real * a + 4real * p));
        assert(t.a0 - t.a1 + t.a2 == 4real + 4real * c);
    }
}

/// At its centre a peak has its gain, the square of its amplitude, and shifts
/// no phase.
pub proof fn law_gain_at_the_centre(s: Settings)
    requires
        s.usable(),
    ensures
        Exact::of(FilterKind::Peaking, s).passes_at(
            s.cos_w,
            s.sin_w,
            s.amplitude() * s.amplitude(),
        ),
{
    lemma_usable(s);
    let n = s.sin_w;
    let a = s.amplitude();
    let gain = a * a;
    let al = s.sin_w / (2real * s.q);
    let d = al / a;
    lemma_quotient(al, a);
    let t = Exact::of(FilterKind::Peaking, s);
    assert(t.b0 - t.b2 == 2real * (al * a));
    assert(t.a0 - t.a2 == 2real * d);
    lemma_positive(2real * d, n);
    // al * a == d * a * a
    lemma_ring(d, a, a);
    assert(al * a == d * gain);
    assert((2real * (al * a)) * n == gain * ((2real * d) * n)) by {
        lemma_ring(2real, d * gain, n);
        lemma_ring(2real, d, n);
        lemma_ring(gain, 2real, d * n);
        lemma_ring(2real, gain, d * n);
        lemma_ring(gain, d, n);
        lemma_ring(d, gain, n);
    }
    assert((t.b0 - t.b2) * n == gain * ((t.a0 - t.a2) * n));
    assert(t.b0 + t.b2 == 2real);
    assert(t.a0 + t.a2 == 2real);
    let y = (t.a0 + t.a2) * s.cos_w + t.a1;
    assert(y == 0real);
    assert((t.b0 + t.b2) * s.cos_w + t.b1 == 0real);
    assert(gain * y == 0real) by {
        lemma_ring(gain, y, y);
    }
}

/// The two sides of a crossover point sum to an all-pass: with a quality of
/// one over the root of two, low-pass squared plus high-pass squared is the
/// all-pass, over the denominator that all three share.
pub proof fn law_crossover_point_sums_to_all_pass(s: Settings)
    requires
        s.valid(),
        2real * s.q * s.q == 1real,
    ensures
        ({
            let low = Exact::of(FilterKind::LowPass, s);
            let high = Exact::of(FilterKind::HighPass, s);
            let all = Exact::of(FilterKind::AllPass, s);
            &&& (low.a0, low.a1, low.a2) == (high.a0, high.a1, high.a2)
            &&& (low.a0, low.a1, low.a2) == (all.a0, all.a1, all.a2)
            &&& sum(low.numerators(low), high.numerators(high)) == product(
                all.b0,
                all.b1,
                all.b2,
                all.a0,
                all.a1,
                all.a2,
            )
        }),
{
    lemma_valid(s);
    let c = s.cos_w;
    let n = s.sin_w;
    let q = s.q;
    let al = n / (2real * q);
    let e = al * al;
    let k = c * c;
    lemma_positive(2real, q);
    lemma_quotient(n, 2real * q);
    assert(2real * e == n * n) by {
        // n * n == (al * al) * (4 * q * q)
        let d = 2real * q;
        lemma_ring(al, d, al * d);
        lemma_ring(d, al, d);
        lemma_ring(al, d, d);
        lemma_ring(al, al, d * d);
        assert((al * d) * (al * d) == e * (d * d));
        lemma_ring(2real, q, 2real * q);
        lemma_ring(q, 2real, q);
        assert(d * d == 2real);
        lemma_ring(e, 2real, 0real);
    }
    let l = (1real - c) * (1real / 2real);
    let h = (1real + c) * (1real / 2real);
    lemma_halved(1real - c);
    lemma_halved(1real + c);
    let l1 = 1real - c;
    let h1 = 1real + c;
    // The squares and products of the taps, in powers of the cosine.
    lemma_ring(l1, 1real, c);
    lemma_ring(h1, 1real, c);
    lemma_ring(c, 1real, c);
    lemma_ring(1real, c, 1real);
    assert(l1 * l1 == 1real - 2real * c + k) by {
        lemma_ring(l1, c, 0real);
    }
    assert(h1 * h1 == 1real + 2real * c + k) by {
        lemma_ring(h1, c, 0real);
    }
    assert(2real * (l * l1) == l1 * l1 && 2real * (l1 * l) == l1 * l1 && 4real * (l * l) == l1 * l1)
        by {
        lemma_ring(2real, l, l1);
        lemma_ring(l, l1, 0real);
        lemma_ring(2real, l, l);
        lemma_ring(l, 2real, l);
    }
    assert(2real * (h * h1) == h1 * h1 && 2real * (h1 * h) == h1 * h1 && 4real * (h * h) == h1 * h1)
        by {
        lemma_ring(2real, h, h1);
        lemma_ring(h, h1, 0real);
        lemma_ring(2real, h, h);
        lemma_ring(h, 2real, h);
    }
    lemma_ring(h, h1, 0real);
    lemma_ring(h, -h1, 0real);
    lemma_ring(-h1, h, 0real);
    lemma_ring(-h1, h1, 0real);
    lemma_ring(h1, -h1, 0real);
    assert((-h1) * (-h1) == h1 * h1);
    // The products of the all-pass.
    let m = 1real - al;
    let g = 1real + al;
    let w = -2real * c;
    assert(m * g == 1real - e && g * m == 1real - e) by {
        lemma_ring(m, 1real, al);
        lemma_ring(al, 1real, al);
        lemma_ring(m, al, 0real);
        lemma_ring(m, g, 0real);
    }
    assert(m * m == 1real - 2real * al + e && g * g == 1real + 2real * al + e) by {
        lemma_ring(m, 1real, al);
        lemma_ring(g, 1real, al);
        lemma_ring(al, 1real, al);
        lemma_ring(m, al, 0real);
        lemma_ring(g, al, 0real);
    }
    assert(w * w == 4real * k) by {
        lemma_ring(w, -2real, c);
        lemma_ring(4real, c, c);
    }
    assert(m * w + w * g == 2real * w && w * m + g * w == 2real * w) by {
        lemma_ring(w, 1real, al);
        lemma_ring(w, m, 0real);
        lemma_ring(w, g, 0real);
    }
}

/// A common factor cancels from a quotient.
proof fn lemma_cancel(x: real, y: real, k: real)
    requires
        y > 0real,
        k > 0real,
    ensures
        (x * k) / (y * k) == x / y,
{
    let d = x / y;
    let f = (x * k) / (y * k);
    lemma_quotient(x, y);
    lemma_positive(y, k);
    lemma_quotient(x * k, y * k);
    lemma_ring(d, y, k);
    assert((f - d) * (y * k) == 0real) by {
        lemma_ring(y * k, f, d);
        lemma_ring(f, y * k, 0real);
        lemma_ring(d, y * k, 0real);
        lemma_ring(f - d, y * k, 0real);
    }
    if f > d {
        lemma_positive(f - d, y * k);
    } else if f < d {
        lemma_positive(d - f, y * k);
        lemma_ring(y * k, d, f);
        lemma_ring(d - f, y * k, 0real);
        lemma_ring(f, y * k, 0real);
        lemma_ring(d, y * k, 0real);
    }
}

/// The term of a shelf at the opposite gain.
proof fn lemma_opposite_term(s: Settings)
    requires
        s.valid(),
    ensures
        s.opposite().valid(),
        s.amplitude() * s.opposite().amplitude() == 1real,
        ({
            let g = s.sin_w * (1real / 2real) * s.root_2;
            s.amplitude() * (2real * s.opposite().root_a * g) == 2real * s.root_a * g
        }),
{
    let r = s.root_a;
    let o = s.opposite().root_a;
    let g = s.sin_w * (1real / 2real) * s.root_2;
    lemma_quotient(1real, r);
    assert(o * r == 1real);
    assert((r * r) * o == r && (r * r) * (o * o) == 1real) by {
        lemma_ring(r, r, o);
        lemma_ring(r, o, 0real);
        lemma_ring(r * r, o, o);
    }
    let a = r * r;
    lemma_ring(a, 2real * o, g);
    lemma_ring(a, 2real, o);
    lemma_ring(2real, a, o);
    lemma_ring(a, o, 2real);
    assert(a * (2real * o) == 2real * r);
}

/// Two filters that undo each other.
pub open spec fn are_inverse(p: Exact, m: Exact) -> bool {
    &&& p.b0 > 0real && m.b0 > 0real && p.a0 > 0real && m.a0 > 0real
    &&& m.b0 / m.a0 == p.a0 / p.b0
    &&& m.b1 / m.a0 == p.a1 / p.b0
    &&& m.b2 / m.a0 == p.a2 / p.b0
    &&& m.a1 / m.a0 == p.b1 / p.b0
    &&& m.a2 / m.a0 == p.b2 / p.b0
    &&& p.numerators(m) == p.denominators(m)
}

/// Numerator and denominator of one filter are those of the other exchanged,
/// but for a common factor.
proof fn lemma_exchanged(p: Exact, m: Exact, k: real)
    requires
        k > 0real,
        p.a0 > 0real,
        m.a0 > 0real,
        m.b0 * k == p.a0,
        m.b1 * k == p.a1,
        m.b2 * k == p.a2,
        m.a0 * k == p.b0,
        m.a1 * k == p.b1,
        m.a2 * k == p.b2,
    ensures
        are_inverse(p, m),
{
    lemma_positive(m.a0, k);
    if m.b0 <= 0real {
        if m.b0 < 0real {
            lemma_positive(-m.b0, k);
            lemma_ring(k, m.b0, 0real);
            lemma_ring(k, -m.b0, 0real);
        }
    }
    lemma_cancel(m.b0, m.a0, k);
    lemma_cancel(m.b1, m.a0, k);
    lemma_cancel(m.b2, m.a0, k);
    lemma_cancel(m.a1, m.a0, k);
    lemma_cancel(m.a2, m.a0, k);
    lemma_swap(m.a0, m.b0, k);
    lemma_swap(m.a0, m.b1, k);
    lemma_swap(m.a0, m.b2, k);
    lemma_swap(m.a1, m.b0, k);
    lemma_swap(m.a1, m.b1, k);
    lemma_swap(m.a1, m.b2, k);
    lemma_swap(m.a2, m.b0, k);
    lemma_swap(m.a2, m.b1, k);
    lemma_swap(m.a2, m.b2, k);
}

/// A factor moves from one side of a product to the other.
proof fn lemma_swap(x: real, y: real, k: real)
    ensures
        (x * k) * y == (y * k) * x,
{
    lemma_ring(x, k, y);
    lemma_ring(k, y, 0real);
    lemma_ring(x, y * k, 0real);
}

/// Boost and cut at opposite gains undo each other.
pub proof fn law_boost_and_cut_are_inverse(kind: FilterKind, s: Settings)
    requires
        kind.takes_gain(),
        s.valid(),
    ensures
        are_inverse(Exact::of(kind, s), Exact::of(kind, s.opposite())),
{
    let o = s.opposite();
    lemma_opposite_term(s);
    lemma_valid(s);
    lemma_valid(o);
    law_stable(kind, s);
    law_stable(kind, o);
    let p = Exact::of(kind, s);
    let m = Exact::of(kind, o);
    let c = s.cos_w;
    let a = s.amplitude();
    let b = o.amplitude();
    lemma_ring(a, b, 0real);
    if kind is Peaking {
        let al = s.sin_w / (2real * s.q);
        assert(al / a == al * b) by {
            lemma_quotient(al, a);
            lemma_ring(al / a, a, b);
        }
        assert(al / b == al * a) by {
            lemma_quotient(al, b);
            lemma_ring(al / b, b, a);
        }
        lemma_exchanged(p, m, 1real);
    } else {
        let g = s.sin_w * (1real / 2real) * s.root_2;
        let x = 2real * s.root_a * g;
        let y = 2real * o.root_a * g;
        lemma_shelf_products(a, c);
        lemma_shelf_products(b, c);
        assert(a * (b * c) == c) by {
            lemma_ring(a, b, c);
        }
        lemma_positive(a, a);
        lemma_shelf_opposite(a, b, c, x, y);
        lemma_exchanged(p, m, a * a);
    }
}

/// The taps of both shelves at the opposite gain, brought to a common factor:
/// `a` and `b` are the amplitudes, `x` and `y` the terms with the roots.
proof fn lemma_shelf_opposite(a: real, b: real, c: real, x: real, y: real)
    requires
        a * b == 1real,
        a * y == x,
    ensures
        ({
            let k = a * a;
            &&& (b * (b + 1real - (b - 1real) * c + y)) * k == a + 1real + (a - 1real) * c + x
            &&& (b * (b + 1real - (b - 1real) * c - y)) * k == a + 1real + (a - 1real) * c - x
            &&& (2real * b * (b - 1real - (b + 1real) * c)) * k == -2real * (a - 1real + (a + 1real)
                * c)
            &&& (b + 1real + (b - 1real) * c + y) * k == a * (a + 1real - (a - 1real) * c + x)
            &&& (b + 1real + (b - 1real) * c - y) * k == a * (a + 1real - (a - 1real) * c - x)
            &&& (-2real * (b - 1real + (b + 1real) * c)) * k == 2real * a * (a - 1real - (a + 1real)
                * c)
            &&& (b * (b + 1real + (b - 1real) * c + y)) * k == a + 1real - (a - 1real) * c + x
            &&& (b * (b + 1real + (b - 1real) * c - y)) * k == a + 1real - (a - 1real) * c - x
            &&& (-2real * b * (b - 1real + (b + 1real) * c)) * k == 2real * (a - 1real - (a + 1real)
                * c)
            &&& (b + 1real - (b - 1real) * c + y) * k == a * (a + 1real + (a - 1real) * c + x)
            &&& (b + 1real - (b - 1real) * c - y) * k == a * (a + 1real + (a - 1real) * c - x)
            &&& (2real * (b - 1real - (b + 1real) * c)) * k == -2real * a * (a - 1real + (a + 1real)
                * c)
        }),
{
    lemma_shelf_products(a, c);
    lemma_shelf_products(b, c);
    lemma_ring(a, b, c);
    let p = a * c;
    let r = b * c;
    // Every bracket at the opposite gain, times `a`, is one at the gain.
    let d0 = b + 1real - (r - c) + y;
    let d2 = b + 1real - (r - c) - y;
    let d1 = b - 1real - (r + c);
    let n0 = b + 1real + (r - c) + y;
    let n2 = b + 1real + (r - c) - y;
    let n1 = b - 1real + (r + c);
    lemma_scaled(a, b, r, c, p, x, y);
    lemma_brackets(a, b, d0, a + 1real + (p - c) + x);
    lemma_brackets(a, b, d2, a + 1real + (p - c) - x);
    lemma_brackets(a, b, d1, -(a - 1real + (p + c)));
    lemma_brackets(a, b, n0, a + 1real - (p - c) + x);
    lemma_brackets(a, b, n2, a + 1real - (p - c) - x);
    lemma_brackets(a, b, n1, -(a - 1real - (p + c)));
    lemma_ring(a, a - 1real - (p + c), 0real);
    lemma_ring(a, a - 1real + (p + c), 0real);
    lemma_ring(2real, a, a - 1real - (p + c));
    lemma_ring(-2real, a, a - 1real + (p + c));
    lemma_doubled_tap(a, b, d1);
    lemma_doubled_tap(a, b, n1);
    assert(b + 1real - (b - 1real) * c + y == d0);
    assert(b + 1real - (b - 1real) * c - y == d2);
    assert(b - 1real - (b + 1real) * c == d1);
    assert(b + 1real + (b - 1real) * c + y == n0);
    assert(b + 1real + (b - 1real) * c - y == n2);
    assert(b - 1real + (b + 1real) * c == n1);
    assert(a - 1real - (a + 1real) * c == a - 1real - (p + c));
    assert(a - 1real + (a + 1real) * c == a - 1real + (p + c));
    assert(a + 1real - (a - 1real) * c + x == a + 1real - (p - c) + x);
    assert(a + 1real + (a - 1real) * c + x == a + 1real + (p - c) + x);
    assert(a + 1real - (a - 1real) * c - x == a + 1real - (p - c) - x);
    assert(a + 1real + (a - 1real) * c - x == a + 1real + (p - c) - x);
}

/// Brackets at the opposite gain, times the amplitude.
proof fn lemma_scaled(a: real, b: real, r: real, c: real, p: real, x: real, y: real)
    requires
        a * b == 1real,
        a * y == x,
        a * c == p,
        a * r == c,
    ensures
        a * (b + 1real - (r - c) + y) == a + 1real + (p - c) + x,
        a * (b + 1real - (r - c) - y) == a + 1real + (p - c) - x,
        a * (b - 1real - (r + c)) == -(a - 1real + (p + c)),
        a * (b + 1real + (r - c) + y) == a + 1real - (p - c) + x,
        a * (b + 1real + (r - c) - y) == a + 1real - (p - c) - x,
        a * (b - 1real + (r + c)) == -(a - 1real - (p + c)),
{
    lemma_ring(a, b, 1real);
    lemma_ring(a, r, c);
    lemma_ring(a, b + 1real, r - c);
    lemma_ring(a, b - 1real, r + c);
    lemma_ring(a, b + 1real - (r - c), y);
    lemma_ring(a, b + 1real + (r - c), y);
}

/// A tap of a numerator and a tap of a denominator at the opposite gain, both
/// made of the bracket `d`.
proof fn lemma_brackets(a: real, b: real, d: real, e: real)
    requires
        a * b == 1real,
        a * d == e,
    ensures
        (b * d) * (a * a) == e,
        d * (a * a) == a * e,
{
    lemma_ring(d, a, a);
    lemma_ring(d, a, 0real);
    lemma_ring(a, e, 0real);
    lemma_ring(b, d, a * a);
    lemma_ring(b, a, e);
    lemma_ring(b, a, 0real);
}

/// The middle taps carry a factor of two.
proof fn lemma_doubled_tap(a: real, b: real, d: real)
    ensures
        (2real * b * d) * (a * a) == 2real * ((b * d) * (a * a)),
        (-2real * b * d) * (a * a) == -2real * ((b * d) * (a * a)),
        (2real * d) * (a * a) == 2real * (d * (a * a)),
        (-2real * d) * (a * a) == -2real * (d * (a * a)),
{
    lemma_ring(2real, b, d);
    lemma_ring(-2real, b, d);
    lemma_ring(2real, b * d, a * a);
    lemma_ring(-2real, b * d, a * a);
    lemma_ring(2real, d, a * a);
    lemma_ring(-2real, d, a * a);
}

/// The real number that a single-precision number is.
pub open spec fn number(x: Single) -> real {
    x.value() as real / pow2(149) as real
}

/// Whether two real numbers differ by at most one part in 2 to the 22.
pub open spec fn is_near(x: real, y: real) -> bool {
    -1real <= (x - y) * 4194304real <= 1real
}

/// Whether two real numbers differ by at most one part in 2 to the 23.
pub open spec fn is_nearer(x: real, y: real) -> bool {
    -1real <= (x - y) * 8388608real <= 1real
}

/// A bound that holds after multiplication by a positive number.
pub proof fn lemma_bounded(w: real, e: real)
    requires
        w > 0real,
        -w <= w * e <= w,
    ensures
        -1real <= e <= 1real,
{
    if e > 1real {
        lemma_positive(w, e - 1real);
        lemma_ring(w, e, 1real);
    }
    if e < -1real {
        lemma_positive(w, -1real - e);
        lemma_ring(w, -1real, e);
    }
}

/// A small difference of integers is a small difference of the numbers that
/// they count units of.
proof fn lemma_near_units(x: int, y: int, u: int)
    requires
        u > 0,
        abs(x - y) * 0x80_0000 <= u,
    ensures
        is_nearer(x as real / u as real, y as real / u as real),
{
    let (p, q, w) = (x as real, y as real, u as real);
    lemma_quotient(p, w);
    lemma_quotient(q, w);
    let d = p / w - q / w;
    lemma_ring(w, p / w, q / w);
    lemma_ring(p / w, w, 0real);
    lemma_ring(q / w, w, 0real);
    assert(w * d == p - q);
    let e = d * 8388608real;
    assert(w * e == (p - q) * 8388608real) by {
        lemma_ring(w, d, 8388608real);
    }
    lemma_bounded(w, e);
}

/// The product of integers as a real number.
pub proof fn lemma_integer_product(x: int, n: nat)
    ensures
        (x * n) as real == (x as real) * (n as real),
    decreases n,
{
    if n == 0 {
        lemma_ring(x as real, 0real, 0real);
        assert(x * n == 0) by (nonlinear_arith)
            requires
                n == 0,
        ;
    } else {
        let p = (n - 1) as nat;
        lemma_integer_product(x, p);
        assert(x * n == x * p + x) by (nonlinear_arith)
            requires
                n == p + 1,
        ;
        lemma_ring(x as real, p as real, 1real);
        assert(n as real == p as real + 1real);
    }
}

/// A quotient that is nearly right, in integers and in the numbers that they
/// count units of: `k` is nearly `s` over `d`.
pub proof fn lemma_near_quotient(k: int, s: int, d: int, u: int)
    requires
        u > 0,
        d > 0,
        abs(k * d - s * u) * 0x80_0000 <= d * u,
    ensures
        is_nearer(k as real / u as real, (s as real / u as real) / (d as real / u as real)),
{
    let (rk, rs, rd, ru) = (k as real, s as real, d as real, u as real);
    let x = rk / ru;
    let y = (rs / ru) / (rd / ru);
    lemma_quotient(rk, ru);
    lemma_quotient(rs, ru);
    lemma_quotient(rd, ru);
    lemma_quotient(rs / ru, rd / ru);
    // y * d == s
    assert(y * rd == rs) by {
        lemma_ring(y, rd / ru, ru);
    }
    let w = rd * ru;
    lemma_positive(rd, ru);
    // w * (x - y) == k * d - s * u
    assert(w * (x - y) == rk * rd - rs * ru) by {
        lemma_ring(w, x, y);
        lemma_ring(rd, ru, x);
        lemma_ring(ru, x, 0real);
        lemma_ring(rd, rk, 0real);
        lemma_ring(ru, rd, y);
        lemma_ring(rd, y, 0real);
        lemma_ring(rd, ru, 0real);
        lemma_ring(ru, rs, 0real);
    }
    let e = (x - y) * 8388608real;
    assert(w * e == (rk * rd - rs * ru) * 8388608real) by {
        lemma_ring(w, x - y, 8388608real);
    }
    lemma_integer_product(k, d as nat);
    lemma_integer_product(s, u as nat);
    lemma_integer_product(d, u as nat);
    lemma_bounded(w, e);
}

/// Whether a number is between zero and one.
pub open spec fn is_unit(x: Single) -> bool {
    !x.negative() && x.pattern() <= ONE
}

/// Two times a number is the number doubled.
pub proof fn lemma_times_two(x: Single)
    requires
        x.is_finite(),
        (x + x).is_finite(),
    ensures
        (Single { bits: TWO }) * x == x + x,
        (x + x).value() == 2 * x.value(),
{
    let u = pow2(149);
    let m = x.pattern();
    let j = doubled_pattern(m);
    lemma_small_powers();
    law_double(x);
    lemma_doubled_pattern(m);
    lemma_signed(x.negative(), capped(j));
    let b = magnitude(m);
    assert(magnitude(TWO as nat) * b == u * magnitude(j)) by (nonlinear_arith)
        requires
            magnitude(TWO as nat) == 2 * u,
            magnitude(j) == 2 * b,
    ;
    lemma_exact(u * magnitude(j), u, j);
    reveal(Single::spec_mul);
}

/// The bandwidth term as it is computed, against the exact one.
pub proof fn lemma_bandwidth(sin_w: Single, q: Single)
    requires
        is_unit(sin_w),
        is_unit(q),
        q.pattern() >= HALF,
    ensures
        ({
            let u = pow2(149);
            let alpha = sin_w / ((Single { bits: TWO }) * q);
            &&& is_unit(alpha)
            &&& abs(alpha.value() * (2 * q.value()) - sin_w.value() * u) * 0x80_0000 <= (2
                * q.value()) * u
            &&& 0 < u <= 2 * q.value()
            &&& 0 <= alpha.value() <= u
        }),
{
    let u = pow2(149);
    lemma_small_powers();
    lemma_largest();
    lemma_increasing(HALF as nat, q.pattern());
    lemma_increasing(q.pattern(), ONE as nat);
    lemma_increasing(sin_w.pattern(), ONE as nat);
    law_double(q);
    lemma_signed(false, doubled_pattern(q.pattern()));
    lemma_times_two(q);
    let d = magnitude((q + q).pattern());
    lemma_doubled_pattern(q.pattern());
    let b = magnitude(sin_w.pattern());
    let n = b * u;
    lemma_nearest_bounded(n, d);
    let k = nearest(n, d);
    lemma_exact(u, 1, ONE as nat);
    assert(n * 1 <= u * d && n <= d * u && d * 0x80_0000 <= d * u) by (nonlinear_arith)
        requires
            n == b * u,
            b <= u,
            u <= d,
            u >= 0x80_0000,
    ;
    lemma_nearest_monotone(n, d, k, u, 1, ONE as nat);
    let alpha = sin_w / ((Single { bits: TWO }) * q);
    assert(alpha == signed(false, k)) by {
        reveal(Single::spec_div);
        lemma_zero((q + q).pattern());
    }
    lemma_signed(false, k);
    lemma_nearest_error(n, d, k);
    lemma_increasing(k, ONE as nat);
    let v = magnitude(k);
    assert(d * v == v * d) by (nonlinear_arith);
}

/// The sum and the difference of one and a number of at most one.
proof fn lemma_beside_one(x: Single)
    requires
        x.is_finite(),
        abs(x.value()) <= pow2(149),
    ensures
        ({
            let u = pow2(149);
            let one = Single { bits: ONE };
            &&& (one + x).is_finite() && (one - x).is_finite()
            &&& abs((one + x).value() - (u + x.value())) * 0x80_0000 <= u
            &&& abs((one - x).value() - (u - x.value())) * 0x80_0000 <= u
        }),
{
    let one = Single { bits: ONE };
    lemma_small_powers();
    lemma_opposite(x);
    lemma_finite_bounded(one);
    lemma_finite_range(one.value() + x.value());
    lemma_finite_range(one.value() - x.value());
    lemma_finite_bounded(x);
    lemma_largest();
    lemma_sum_value(one, x);
    lemma_sum_value(one, x.opposite());
    lemma_sum(one, x);
    lemma_sum(one, x.opposite());
}

/// The number two is finite.
pub proof fn lemma_largest()
    ensures
        largest() >= 2 * pow2(149),
        pow2(149) >= 0x80_0000,
{
    lemma_small_powers();
    lemma_increasing(TWO as nat, (INFINITY - 1) as nat);
    vstd::arithmetic::power2::lemma2_to64();
    vstd::arithmetic::power2::lemma_pow2_strictly_increases(23, 149);
}

/// A number beside one, in units and as a real number.
pub proof fn lemma_one_and(x: int, u: int)
    requires
        u > 0,
    ensures
        (u + x) as real / u as real == 1real + x as real / u as real,
        (u - x) as real / u as real == 1real - x as real / u as real,
        (-x) as real / u as real == -(x as real / u as real),
        (2 * x) as real / u as real == 2real * (x as real / u as real),
{
    let (p, w) = (x as real, u as real);
    let d = p / w;
    lemma_quotient(p, w);
    lemma_ring(w, d, 1real);
    lemma_ring(w, 1real, d);
    lemma_ring(w, 2real, d);
    lemma_ring(2real, w, d);
    lemma_ring(w, d, 0real);
    lemma_same_quotient(w + p, w, 1real + d);
    lemma_same_quotient(w - p, w, 1real - d);
    lemma_same_quotient(-p, w, -d);
    lemma_same_quotient(2real * p, w, 2real * d);
}

/// A quotient is what gives the dividend back.
pub proof fn lemma_same_quotient(x: real, y: real, d: real)
    requires
        y > 0real,
        y * d == x,
    ensures
        x / y == d,
{
    lemma_quotient(x, y);
    lemma_ring(y, x / y, 0real);
    let f = x / y;
    lemma_ring(y, f, d);
    lemma_ring(y, d, f);
    if f > d {
        lemma_positive(y, f - d);
    } else if f < d {
        lemma_positive(y, d - f);
    }
}

/// The taps at both ends of a pass filter, against half of the middle one.
proof fn lemma_half_tap(x: Single, y: int)
    requires
        x.is_finite(),
        abs(x.value() - y) * 0x80_0000 <= pow2(149),
    ensures
        is_near(
            number(x * (Single { bits: HALF })),
            (y as real / pow2(149) as real) * (1real / 2real),
        ),
{
    let u = pow2(149) as int;
    let half = Single { bits: HALF };
    lemma_small_powers();
    lemma_largest();
    law_commutative(x, half);
    law_half(x);
    let b = (x * half).value();
    let w = u as real;
    lemma_one_and(b, u);
    lemma_halved(y as real / w);
    // Twice the tap is within a unit of the middle one.
    assert(abs(2 * b - y) * 0x40_0000 <= u);
    let d = b as real / w - (y as real / w) * (1real / 2real);
    let z = (2 * b) as real / w;
    lemma_quotient((2 * b) as real, w);
    lemma_quotient(y as real, w);
    lemma_ring(w, z, y as real / w);
    lemma_ring(z, w, 0real);
    lemma_ring(y as real / w, w, 0real);
    let e = (z - y as real / w) * 4194304real;
    assert(w * e == ((2 * b) as real - y as real) * 4194304real) by {
        lemma_ring(w, z - y as real / w, 4194304real);
    }
    lemma_bounded(w, e);
}

/// Whether the taps of a transfer function are nearly those of an exact one.
pub open spec fn near_taps(t: Transfer, e: Exact) -> bool {
    &&& is_near(number(t.b0), e.b0)
    &&& is_near(number(t.b1), e.b1)
    &&& is_near(number(t.b2), e.b2)
    &&& is_near(number(t.a0), e.a0)
    &&& is_near(number(t.a1), e.a1)
    &&& is_near(number(t.a2), e.a2)
}

/// The sections of the crossover are computed to within one part in 2 to the
/// 22 of the exact filter for the cosine and the sine they are given.
pub proof fn law_crossover_taps_near_exact(
    kind: FilterKind,
    cos_w: Single,
    sin_w: Single,
    q: Single,
    a: Single,
    s: Settings,
)
    requires
        kind is LowPass || kind is HighPass || kind is AllPass,
        cos_w.is_finite(),
        abs(cos_w.value()) <= pow2(149),
        is_unit(sin_w),
        is_unit(q),
        q.pattern() >= HALF,
        s.cos_w == number(cos_w),
        s.sin_w == number(sin_w),
        s.q == number(q),
    ensures
        near_taps(Transfer::of(kind, cos_w, sin_w, q, a), Exact::of(kind, s)),
{
    let u = pow2(149) as int;
    let w = u as real;
    let two = Single { bits: TWO };
    let one = Single { bits: ONE };
    let alpha = sin_w / (two * q);
    let c = cos_w.value();
    lemma_small_powers();
    lemma_largest();
    lemma_bandwidth(sin_w, q);
    lemma_beside_one(cos_w);
    lemma_beside_one(alpha);
    // The middle tap of the denominator is exact.
    lemma_sum_value(cos_w, cos_w);
    lemma_finite_range(2 * c);
    lemma_times_two(cos_w);
    law_opposite_factor(two, cos_w);
    lemma_opposite(two * cos_w);
    assert(two.opposite() == (Single { bits: MINUS_TWO }));
    lemma_one_and(c, u);
    lemma_one_and(2 * c, u);
    // The bandwidth term.
    let k = alpha.value();
    lemma_near_quotient(k, sin_w.value(), 2 * q.value(), u);
    lemma_one_and(q.value(), u);
    lemma_one_and(k, u);
    lemma_near_units((one + alpha).value(), u + k, u);
    lemma_near_units((one - alpha).value(), u - k, u);
    // The taps of the pass filters.
    let d = one - cos_w;
    let e = one + cos_w;
    lemma_near_units(d.value(), u - c, u);
    lemma_near_units(e.value(), u + c, u);
    lemma_half_tap(d, u - c);
    lemma_half_tap(e, u + c);
    lemma_opposite(e);
    lemma_one_and(e.value(), u);
}

} // verus!
