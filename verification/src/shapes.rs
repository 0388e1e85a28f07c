//! The coefficients of the sections are those of their shapes, and so are the
//! gains that come of them.
use vstd::arithmetic::power2::{lemma_pow2_adds, pow2};
use vstd::prelude::*;

use crate::arithmetic::{abs, lemma_small_powers};
use crate::biquad::{Coefficients, FilterKind, Transfer};
use crate::constants::{HALF, ONE};
use crate::exact::{
    is_unit, law_crossover_taps_near_exact, law_gain_at_the_centre, law_gains_at_the_ends,
    lemma_positive, lemma_quotient, lemma_ring, number, Exact, Settings,
};
use crate::grid::lemma_increasing;
use crate::nearness::{
    are_settings, is_close, law_equalizer_taps_close_to_exact, lemma_amplitude_bound,
    lemma_bounded_real, lemma_cancel_bound, lemma_close_product, lemma_close_quotient,
    lemma_not_negative, lemma_number_bound, lemma_number_one, lemma_product_close,
    lemma_square_order, lemma_units_bound,
};
use crate::single::Single;
use crate::stability::{
    is_above, is_amplitude, is_below, lemma_constants, lemma_power, lemma_product_range,
    lemma_quotient_range, power_pattern,
};

verus! {

/// Whether the coefficients of a section are those of a transfer function, its
/// first feedback coefficient divided out, to within `n` parts in 2 to the 24.
pub open spec fn is_shaped(c: Coefficients, e: Exact, n: real) -> bool {
    &&& is_close(number(c.b0) * e.a0, e.b0, n)
    &&& is_close(number(c.b1) * e.a0, e.b1, n)
    &&& is_close(number(c.b2) * e.a0, e.b2, n)
    &&& is_close(number(c.a1) * e.a0, e.a1, n)
    &&& is_close(number(c.a2) * e.a0, e.a2, n)
}

/// A tap over the first feedback tap. The tap is `b`, the first feedback tap
/// `a`, their exact values `eb` and `ea`, to within `nb` and `na` roundings; `mb`
/// and `ma` bound their sizes, and `m` that of their quotient.
proof fn lemma_tap_shaped(
    b: Single,
    a: Single,
    eb: real,
    ea: real,
    nb: real,
    na: real,
    mb: real,
    ma: real,
    m: int,
)
    requires
        is_below(b, 7),
        !a.negative(),
        is_above(a, -2),
        is_below(a, 6),
        is_close(number(b), eb, nb),
        is_close(number(a), ea, na),
        0real <= nb <= 512real,
        0real <= na <= 128real,
        1real <= 4real * number(a) <= 128real,
        0real <= mb <= 120real,
        number(a) <= ma,
        ea <= 40real,
        ea >= 0real,
        1 <= m <= 100,
        -mb <= number(b) <= mb,
        -((m as real) * number(a)) <= number(b) <= (m as real) * number(a),
    ensures
        is_close(
            number(b * ((Single { bits: ONE }) / a)) * ea,
            eb,
            2real * mb + ((m + 2) as real) * ma + ((m + 2) as real) * na + nb,
        ),
{
    let one = Single { bits: ONE };
    let inv = one / a;
    let c = b * inv;
    let (x, i, k, z) = (number(b), number(inv), number(a), number(c));
    let r0 = m as real;
    let r1 = (m + 1) as real;
    let r2 = (m + 2) as real;
    lemma_constants();
    lemma_power(0);
    lemma_power(2);
    lemma_power(6);
    lemma_power(7);
    lemma_power(9);
    lemma_power(-2);
    lemma_number_one();
    lemma_quotient_range(one, a, 0, -2);
    lemma_product_range(b, inv, 7, 2);
    lemma_close_quotient(one, a);
    // The product with the reciprocal, times the divisor again.
    let r = i * k;
    assert(is_close(r, 1real, 2real));
    let p = x * i;
    assert(p * k == x * r) by {
        lemma_ring(x, i, k);
    }
    lemma_product_close(x, x, 0real, mb, r, 1real, 2real, 1real);
    lemma_ring(x, 1real, 0real);
    lemma_ring(mb, 2real, 0real);
    assert(is_close(p * k, x, 2real * mb));
    // The size of that product.
    assert(-r1 <= p <= r1) by {
        lemma_ring(k, p, r1);
        lemma_ring(p, k, 0real);
        lemma_ring(k, r0, 1real);
        lemma_ring(k, r1, 0real);
        lemma_ring(k, r0, 0real);
        assert(r1 == r0 + 1real);
        lemma_cancel_bound(k, p, r1);
    }
    lemma_close_product(b, inv, m + 1);
    assert(-r2 <= z <= r2);
    lemma_product_close(z, p, r2, r2, k, k, 0real, ma);
    lemma_ring(r2, 0real, 0real);
    assert(is_close(z * k, p * k, ma * r2));
    lemma_ring(ma, r2, 0real);
    lemma_product_close(z, z, 0real, r2, k, ea, na, 40real);
    assert(is_close(z * k, z * ea, r2 * na + 40real * 0real));
}

/// A number with a bounded value has a bounded pattern.
proof fn lemma_number_below(x: Single, n: int, e: int)
    requires
        0 <= e <= 8,
        n == pow2(e as nat),
        -(n as real) <= number(x) <= n as real,
    ensures
        is_below(x, e),
{
    let u = pow2(149) as int;
    lemma_small_powers();
    lemma_units_bound(x.value(), n, u);
    lemma_power(e);
    lemma_pow2_adds(149, e as nat);
    assert(n * u == u * n) by (nonlinear_arith);
    if x.pattern() > power_pattern(e) {
        lemma_increasing(power_pattern(e), x.pattern());
    }
}

/// A number of at least one quarter.
proof fn lemma_number_above(x: Single)
    requires
        4real * number(x) >= 1real,
    ensures
        !x.negative(),
        is_above(x, -2),
{
    let u = pow2(149) as int;
    let (v, w) = (x.value() as real, u as real);
    lemma_small_powers();
    lemma_quotient(v, w);
    let f = number(x);
    lemma_ring(f, w, 0real);
    lemma_not_negative(w, 4real * f - 1real);
    lemma_ring(w, 4real * f, 1real);
    lemma_ring(w, f, 4real);
    lemma_ring(w, 4real, f);
    assert(4real * v >= w);
    lemma_power(-2);
    lemma_pow2_adds(147, 2);
    assert(pow2(2) == 4) by {
        vstd::arithmetic::power2::lemma2_to64();
    }
    if x.pattern() < power_pattern(-2) {
        lemma_increasing(x.pattern(), power_pattern(-2));
    }
}

/// Whether the taps of a transfer function are of moderate size against its
/// first feedback tap.
spec fn is_moderate(e: Exact) -> bool {
    &&& 1real <= 2real * e.a0 <= 48real
    &&& -(36real * e.a0) <= e.b0 <= 36real * e.a0 && -110real <= e.b0 <= 110real
    &&& -(36real * e.a0) <= e.b1 <= 36real * e.a0 && -110real <= e.b1 <= 110real
    &&& -(36real * e.a0) <= e.b2 <= 36real * e.a0 && -110real <= e.b2 <= 110real
    &&& -(36real * e.a0) <= e.a1 <= 36real * e.a0 && -110real <= e.a1 <= 110real
    &&& -(36real * e.a0) <= e.a2 <= 36real * e.a0 && -110real <= e.a2 <= 110real
}

/// A bracket of a shelf times the amplitude, against a feedback tap of at least
/// twice the smaller of one and the amplitude.
proof fn lemma_bracket(a: real, z: real, d: real)
    requires
        1real <= 4real * a <= 16real,
        -12real <= z <= 12real,
        a <= 1real ==> -6real <= z <= 6real,
        d >= 2real * a || d >= 2real,
    ensures
        -(36real * d) <= a * z <= 36real * d,
        -48real <= a * z <= 48real,
{
    lemma_bounded_real(a, 4real, z, 12real);
    if a <= 1real {
        // At most six times the amplitude.
        lemma_not_negative(a, 6real - z);
        lemma_not_negative(a, z + 6real);
        lemma_ring(a, 6real, z);
        lemma_ring(a, z, 6real);
    }
}

/// The taps of an equalizer's exact transfer function are of moderate size.
proof fn lemma_moderate(kind: FilterKind, s: Settings)
    requires
        kind.takes_gain(),
        -1real <= s.cos_w <= 1real,
        0real <= s.sin_w <= 1real,
        1real <= 2real * s.q <= 2real,
        1real <= 4real * s.amplitude() <= 16real,
        s.root_a > 0real,
        s.root_2 > 0real,
        s.root_2 * s.root_2 == 2real,
    ensures
        is_moderate(Exact::of(kind, s)),
{
    let e = Exact::of(kind, s);
    let (a, c, n) = (s.amplitude(), s.cos_w, s.sin_w);
    if kind is Peaking {
        let d = 2real * s.q;
        let al = n / d;
        lemma_quotient(n, d);
        assert(0real <= al <= 1real) by {
            lemma_ring(d, al, 1real);
            lemma_ring(al, d, 0real);
            lemma_ring(d, 1real, 0real);
            if al > 1real {
                lemma_positive(d, al - 1real);
            }
            if al < 0real {
                lemma_positive(d, -al);
                lemma_ring(d, al, 0real);
            }
        }
        lemma_bounded_real(al, 1real, a, 4real);
        let be = al / a;
        lemma_quotient(al, a);
        assert(0real <= be <= 4real) by {
            lemma_ring(a, be, 4real);
            lemma_ring(be, a, 0real);
            lemma_ring(a, 4real, 0real);
            if be > 4real {
                lemma_positive(a, be - 4real);
            }
            if be < 0real {
                lemma_positive(a, -be);
                lemma_ring(a, be, 0real);
            }
        }
    } else {
        let h = n * (1real / 2real);
        let y = 2real * s.root_a * (h * s.root_2);
        lemma_square_order(s.root_a, 2real);
        lemma_square_order(s.root_2, 2real);
        lemma_ring(2real, 2real, 0real);
        lemma_bounded_real(n, 1real, 1real / 2real, 1real / 2real);
        lemma_not_negative(n, 1real / 2real);
        lemma_bounded_real(h, 1real / 2real, s.root_2, 2real);
        lemma_not_negative(h, s.root_2);
        lemma_bounded_real(2real * s.root_a, 4real, h * s.root_2, 1real);
        lemma_not_negative(2real * s.root_a, h * s.root_2);
        assert(0real <= y <= 4real);
        // The root of a small amplitude is small.
        if a <= 1real {
            lemma_square_order(s.root_a, 1real);
            lemma_ring(1real, 1real, 0real);
            lemma_bounded_real(2real * s.root_a, 2real, h * s.root_2, 1real);
        }
        let p = a * c;
        assert(-a <= p <= a) by {
            lemma_not_negative(a, 1real - c);
            lemma_not_negative(a, 1real + c);
            lemma_ring(a, 1real, c);
        }
        assert((a - 1real) * c == p - c && (a + 1real) * c == p + c) by {
            lemma_ring(c, a, 1real);
            lemma_ring(c, a - 1real, 0real);
            lemma_ring(c, a + 1real, 0real);
            lemma_ring(c, 1real, 0real);
            lemma_ring(a, c, 0real);
        }
        // Each bracket is between twice the smaller and twice the larger of one
        // and the amplitude, give or take the root's term.
        let (z1, z2) = (a + 1real - (p - c), a + 1real + (p - c));
        let (g1, g2) = (a - 1real - (p + c), a - 1real + (p + c));
        if a <= 1real {
            lemma_not_negative(1real - a, 1real - c);
            lemma_not_negative(1real - a, 1real + c);
            lemma_ring(1real - a, 1real, c);
            lemma_ring(c, 1real, a);
            lemma_ring(c, 1real - a, 0real);
            assert(2real * a <= z1 <= 2real && 2real * a <= z2 <= 2real);
        } else {
            lemma_not_negative(a - 1real, 1real - c);
            lemma_not_negative(a - 1real, 1real + c);
            lemma_ring(a - 1real, 1real, c);
            lemma_ring(c, a, 1real);
            lemma_ring(c, a - 1real, 0real);
            assert(2real <= z1 <= 2real * a && 2real <= z2 <= 2real * a);
        }
        let d = e.a0;
        lemma_bracket(a, z1 + y, d);
        lemma_bracket(a, z1 - y, d);
        lemma_bracket(a, z2 + y, d);
        lemma_bracket(a, z2 - y, d);
        lemma_middle(a, g1, d);
        lemma_middle(a, g2, d);
    }
}

/// The middle taps of a shelf.
proof fn lemma_middle(a: real, g: real, d: real)
    requires
        1real <= 4real * a <= 16real,
        a <= 1real ==> -2real <= g <= 2real,
        -(2real * a) <= g <= 2real * a || a <= 1real,
        d >= 2real || a <= 1real && d >= 2real * a,
    ensures
        -(36real * d) <= 2real * a * g <= 36real * d,
        -(36real * d) <= -2real * a * g <= 36real * d,
        -(36real * d) <= 2real * g <= 36real * d,
        -96real <= 2real * a * g <= 96real,
        -2real * a * g == -(2real * a * g),
{
    let b = 2real * a;
    lemma_ring(2real, a, g);
    lemma_ring(g, b, 0real);
    lemma_ring(g, -b, 0real);
    lemma_ring(b, g, 0real);
    assert((-2real * a) * g == -(b * g)) by {
        lemma_ring(g, -b, 0real);
        lemma_ring(g, b, 0real);
        lemma_ring(-b, g, 0real);
        assert(-2real * a == -b);
    }
    if a <= 1real {
        lemma_not_negative(b, 2real - g);
        lemma_not_negative(b, 2real + g);
        lemma_ring(b, 2real, g);
    } else {
        lemma_bounded_real(b, 8real, g, 8real);
    }
}

/// Whether the cosine, the sine and the quality of a section are in range: a
/// cosine between minus one and one, a sine between zero and one, a quality
/// between one half and one.
pub open spec fn is_in_range(cos_w: Single, sin_w: Single, q: Single) -> bool {
    &&& cos_w.is_finite()
    &&& abs(cos_w.value()) <= pow2(149)
    &&& is_unit(sin_w)
    &&& is_unit(q)
    &&& q.pattern() >= HALF
}

/// What the exact settings are, in range.
proof fn lemma_settings(cos_w: Single, sin_w: Single, q: Single)
    requires
        is_in_range(cos_w, sin_w, q),
    ensures
        -1real <= number(cos_w) <= 1real,
        0real <= number(sin_w) <= 1real,
        1real <= 2real * number(q) <= 2real,
{
    let u = pow2(149) as int;
    lemma_small_powers();
    lemma_number_bound(cos_w, 1);
    lemma_increasing(sin_w.pattern(), ONE as nat);
    lemma_increasing(q.pattern(), ONE as nat);
    lemma_increasing(HALF as nat, q.pattern());
    lemma_number_bound(sin_w, 1);
    lemma_number_bound(q, 1);
    let w = u as real;
    lemma_quotient(sin_w.value() as real, w);
    lemma_quotient(q.value() as real, w);
    let (f, g) = (number(sin_w), number(q));
    if f < 0real {
        lemma_positive(w, -f);
        lemma_ring(w, f, 0real);
        lemma_ring(f, w, 0real);
    }
    lemma_pow2_adds(148, 1);
    assert(pow2(1) == 2) by {
        vstd::arithmetic::power2::lemma2_to64();
    }
    if 2real * g < 1real {
        lemma_positive(w, 1real - 2real * g);
        lemma_ring(w, 1real, 2real * g);
        lemma_ring(w, g, 2real);
        lemma_ring(w, 2real, g);
        lemma_ring(g, w, 0real);
    }
}

/// The bands of the equalizer have the coefficients of their shapes: those of
/// the exact transfer function for the cosine, the sine and the amplitude they
/// are given, to within one part in 2 to the 11.
pub proof fn law_equalizer_shaped(
    kind: FilterKind,
    cos_w: Single,
    sin_w: Single,
    q: Single,
    a: Single,
    s: Settings,
)
    requires
        kind.takes_gain(),
        is_in_range(cos_w, sin_w, q),
        is_amplitude(a),
        are_settings(s, cos_w, sin_w, q, a),
    ensures
        is_shaped(
            Transfer::of(kind, cos_w, sin_w, q, a).normalized(),
            Exact::of(kind, s),
            8192real,
        ),
{
    let t = Transfer::of(kind, cos_w, sin_w, q, a);
    let e = Exact::of(kind, s);
    lemma_settings(cos_w, sin_w, q);
    lemma_amplitude_bound(a);
    law_equalizer_taps_close_to_exact(kind, cos_w, sin_w, q, a, s);
    lemma_moderate(kind, s);
    assert(pow2(6) == 64 && pow2(7) == 128) by {
        vstd::arithmetic::power2::lemma2_to64();
    }
    lemma_number_below(t.b0, 128, 7);
    lemma_number_below(t.b1, 128, 7);
    lemma_number_below(t.b2, 128, 7);
    lemma_number_below(t.a1, 128, 7);
    lemma_number_below(t.a2, 128, 7);
    lemma_number_below(t.a0, 64, 6);
    lemma_number_above(t.a0);
    lemma_tap_shaped(t.b0, t.a0, e.b0, e.a0, 512real, 128real, 112real, 25real, 40);
    lemma_tap_shaped(t.b1, t.a0, e.b1, e.a0, 512real, 128real, 112real, 25real, 40);
    lemma_tap_shaped(t.b2, t.a0, e.b2, e.a0, 512real, 128real, 112real, 25real, 40);
    lemma_tap_shaped(t.a1, t.a0, e.a1, e.a0, 128real, 128real, 112real, 25real, 40);
    lemma_tap_shaped(t.a2, t.a0, e.a2, e.a0, 128real, 128real, 112real, 25real, 40);
}

/// The sections of the crossover have the coefficients of their shapes, to
/// within one part in 2 to the 18.
pub proof fn law_crossover_shaped(
    kind: FilterKind,
    cos_w: Single,
    sin_w: Single,
    q: Single,
    a: Single,
    s: Settings,
)
    requires
        kind is LowPass || kind is HighPass || kind is AllPass,
        is_in_range(cos_w, sin_w, q),
        s.cos_w == number(cos_w),
        s.sin_w == number(sin_w),
        s.q == number(q),
    ensures
        is_shaped(
            Transfer::of(kind, cos_w, sin_w, q, a).normalized(),
            Exact::of(kind, s),
            64real,
        ),
{
    let t = Transfer::of(kind, cos_w, sin_w, q, a);
    let e = Exact::of(kind, s);
    lemma_settings(cos_w, sin_w, q);
    law_crossover_taps_near_exact(kind, cos_w, sin_w, q, a, s);
    let (c, n, d) = (s.cos_w, s.sin_w, 2real * s.q);
    let al = n / d;
    lemma_quotient(n, d);
    assert(0real <= al <= 1real) by {
        lemma_ring(d, al, 1real);
        lemma_ring(al, d, 0real);
        lemma_ring(d, 1real, 0real);
        if al > 1real {
            lemma_positive(d, al - 1real);
        }
        if al < 0real {
            lemma_positive(d, -al);
            lemma_ring(d, al, 0real);
        }
    }
    lemma_ring(1real - c, 1real / 2real, 0real);
    lemma_bounded_real(1real - c, 2real, 1real / 2real, 1real / 2real);
    lemma_bounded_real(1real + c, 2real, 1real / 2real, 1real / 2real);
    assert(pow2(6) == 64 && pow2(7) == 128) by {
        vstd::arithmetic::power2::lemma2_to64();
    }
    lemma_number_below(t.b0, 128, 7);
    lemma_number_below(t.b1, 128, 7);
    lemma_number_below(t.b2, 128, 7);
    lemma_number_below(t.a1, 128, 7);
    lemma_number_below(t.a2, 128, 7);
    lemma_number_below(t.a0, 64, 6);
    lemma_number_above(t.a0);
    lemma_tap_shaped(t.b0, t.a0, e.b0, e.a0, 4real, 4real, 3real, 3real, 3);
    lemma_tap_shaped(t.b1, t.a0, e.b1, e.a0, 4real, 4real, 3real, 3real, 3);
    lemma_tap_shaped(t.b2, t.a0, e.b2, e.a0, 4real, 4real, 3real, 3real, 3);
    lemma_tap_shaped(t.a1, t.a0, e.a1, e.a0, 4real, 4real, 3real, 3real, 3);
    lemma_tap_shaped(t.a2, t.a0, e.a2, e.a0, 4real, 4real, 3real, 3real, 3);
}

/// Whether a section passes a constant signal with the given gain, to within
/// one part in 2 to the 10 of it and of itself.
pub open spec fn nearly_passes_constant(c: Coefficients, gain: real) -> bool {
    is_close(
        number(c.b0) + number(c.b1) + number(c.b2),
        gain * (1real + number(c.a1) + number(c.a2)),
        16384real * (3real + 2real * gain),
    )
}

/// Whether a section passes a signal that alternates at half the sample rate
/// with the given gain.
pub open spec fn nearly_passes_alternating(c: Coefficients, gain: real) -> bool {
    is_close(
        number(c.b0) - number(c.b1) + number(c.b2),
        gain * (1real - number(c.a1) + number(c.a2)),
        16384real * (3real + 2real * gain),
    )
}

/// Whether a section passes a signal of its own frequency, with the cosine
/// `cos_w`, with the given gain and no shift of phase: numerator and
/// denominator, turned back by one sample, have no real part there, and their
/// imaginary parts are by the gain apart.
pub open spec fn nearly_peaks(c: Coefficients, cos_w: real, gain: real) -> bool {
    &&& is_close(
        number(c.b0) - number(c.b2),
        gain * (1real - number(c.a2)),
        16384real * (3real + 2real * gain),
    )
    &&& is_close((number(c.b0) + number(c.b2)) * cos_w + number(c.b1), 0real, 49152real)
    &&& is_close((1real + number(c.a2)) * cos_w + number(c.a1), 0real, 49152real)
}

/// Division by the first feedback tap: `x` and `y` are sums of coefficients of
/// the input and of the output, `n` and `d` those of the taps.
proof fn lemma_gain(x: real, y: real, n: real, d: real, a: real, gain: real)
    requires
        1real <= 2real * a,
        is_close(x * a, n, 24576real),
        is_close(y * a, d, 16384real),
        n == gain * d,
        gain >= 0real,
    ensures
        is_close(x, gain * y, 16384real * (3real + 2real * gain)),
{
    let k = 8192real * (3real + 2real * gain);
    // The gain times the output, times the tap.
    let (e, f) = ((y * a - d) * 16777216real, gain * (y * a - d) * 16777216real);
    assert(-(16384real * gain) <= f <= 16384real * gain) by {
        lemma_not_negative(gain, 16384real - e);
        lemma_not_negative(gain, 16384real + e);
        lemma_ring(gain, 16384real, e);
        lemma_ring(gain, y * a - d, 16777216real);
        lemma_ring(gain, 16384real, 0real);
    }
    assert(gain * (y * a - d) == (gain * y) * a - gain * d) by {
        lemma_ring(gain, y * a, d);
        lemma_ring(gain, y, a);
    }
    let v = (x - gain * y) * 16777216real;
    let w = (x * a - (gain * y) * a) * 16777216real;
    assert(a * v == w) by {
        lemma_ring(a, x, gain * y);
        lemma_ring(a, x - gain * y, 16777216real);
        lemma_ring(x, a, 0real);
        lemma_ring(gain * y, a, 0real);
    }
    assert(-k <= w <= k) by {
        lemma_ring(8192real, 3real, 2real * gain);
    }
    // The tap is at least one half.
    let m = 2real * k;
    assert(16384real * (3real + 2real * gain) == m) by {
        lemma_ring(8192real, 3real, 2real * gain);
        lemma_ring(16384real, 3real, 2real * gain);
    }
    assert(k >= 0real) by {
        lemma_ring(8192real, 3real, 2real * gain);
    }
    lemma_not_negative(m, a - 1real / 2real);
    lemma_ring(m, a, 1real / 2real);
    lemma_cancel_bound(a, v, m);
}

/// A small sum over the first feedback tap.
proof fn lemma_nothing(x: real, a: real)
    requires
        1real <= 2real * a,
        is_close(x * a, 0real, 24576real),
    ensures
        is_close(x, 0real, 49152real),
{
    let v = x * 16777216real;
    lemma_ring(a, x, 16777216real);
    lemma_ring(x, a, 0real);
    lemma_ring(49152real, a, 0real);
    lemma_cancel_bound(a, v, 49152real);
}

/// The sum and the differences of three coefficients, times a tap.
proof fn lemma_sums(x: real, y: real, z: real, a: real, c: real)
    ensures
        (x + y + z) * a == x * a + y * a + z * a,
        (x - y + z) * a == x * a - y * a + z * a,
        (x - z) * a == x * a - z * a,
        ((x + z) * c + y) * a == (x * a + z * a) * c + y * a,
{
    lemma_ring(a, x + y, z);
    lemma_ring(a, x, y);
    lemma_ring(a, x - y, z);
    lemma_ring(a, x, z);
    lemma_ring(a, x + y + z, 0real);
    lemma_ring(a, x - y + z, 0real);
    lemma_ring(a, x - z, 0real);
    lemma_ring(a, y, 0real);
    lemma_ring(a, z, 0real);
    let w = x + z;
    lemma_ring(a, w * c, y);
    lemma_ring(a, w * c + y, 0real);
    lemma_ring(a, w, c);
    lemma_ring(a, w, 0real);
    assert(a * w == x * a + z * a);
    assert((a * w) * c == a * (w * c));
}

/// The bands of the equalizer have the gain they are set to. A shelf passes one
/// end of the spectrum with the square of its amplitude, and the other as it
/// is; a peak passes its own frequency with the square of its amplitude, and
/// both ends as they are.
pub proof fn law_equalizer_gains(
    kind: FilterKind,
    cos_w: Single,
    sin_w: Single,
    q: Single,
    a: Single,
    s: Settings,
)
    requires
        kind.takes_gain(),
        is_in_range(cos_w, sin_w, q),
        abs(cos_w.value()) < pow2(149),
        sin_w.value() > 0,
        is_amplitude(a),
        are_settings(s, cos_w, sin_w, q, a),
    ensures
        ({
            let c = Transfer::of(kind, cos_w, sin_w, q, a).normalized();
            let gain = number(a) * number(a);
            match kind {
                FilterKind::LowShelf => nearly_passes_constant(c, gain)
                    && nearly_passes_alternating(c, 1real),
                FilterKind::HighShelf => nearly_passes_constant(c, 1real)
                    && nearly_passes_alternating(c, gain),
                _ => nearly_peaks(c, number(cos_w), gain) && nearly_passes_constant(c, 1real)
                    && nearly_passes_alternating(c, 1real),
            }
        }),
{
    let c = Transfer::of(kind, cos_w, sin_w, q, a).normalized();
    let e = Exact::of(kind, s);
    let gain = number(a) * number(a);
    lemma_settings(cos_w, sin_w, q);
    lemma_strict(cos_w, sin_w);
    lemma_amplitude_bound(a);
    lemma_moderate(kind, s);
    law_equalizer_shaped(kind, cos_w, sin_w, q, a, s);
    law_gains_at_the_ends(kind, s);
    lemma_not_negative(number(a), number(a));
    lemma_ring(1real, e.a0 + e.a1 + e.a2, 0real);
    lemma_ring(1real, e.a0 - e.a1 + e.a2, 0real);
    let (b0, b1, b2) = (number(c.b0), number(c.b1), number(c.b2));
    let (a1, a2, k) = (number(c.a1), number(c.a2), e.a0);
    let w = s.cos_w;
    lemma_sums(b0, b1, b2, k, w);
    lemma_sums(1real, a1, a2, k, w);
    lemma_ring(1real, k, 0real);
    let (g1, g2) = match kind {
        FilterKind::LowShelf => (gain, 1real),
        FilterKind::HighShelf => (1real, gain),
        _ => (1real, 1real),
    };
    lemma_gain(b0 + b1 + b2, 1real + a1 + a2, e.b0 + e.b1 + e.b2, e.a0 + e.a1 + e.a2, k, g1);
    lemma_gain(b0 - b1 + b2, 1real - a1 + a2, e.b0 - e.b1 + e.b2, e.a0 - e.a1 + e.a2, k, g2);
    if kind is Peaking {
        law_gain_at_the_centre(s);
        let n = s.sin_w;
        assert(e.b0 - e.b2 == gain * (e.a0 - e.a2)) by {
            lemma_ring(gain, e.a0 - e.a2, n);
            lemma_same_factor(n, e.b0 - e.b2, gain * (e.a0 - e.a2));
        }
        lemma_gain(b0 - b2, 1real - a2, e.b0 - e.b2, e.a0 - e.a2, k, gain);
        // The real parts.
        assert((e.b0 + e.b2) * w + e.b1 == 0real && (e.a0 + e.a2) * w + e.a1 == 0real) by {
            let (x, y) = (e.b0 + e.b2, e.a0 + e.a2);
            assert(x == 2real && y == 2real);
            assert(x * w == 2real * w && y * w == 2real * w);
            assert(e.b1 == -2real * w && e.a1 == -2real * w);
        }
        lemma_real_part(b0 * k, b1 * k, b2 * k, e.b0, e.b1, e.b2, w);
        lemma_real_part(k, a1 * k, a2 * k, e.a0, e.a1, e.a2, w);
        lemma_nothing((b0 + b2) * w + b1, k);
        lemma_nothing((1real + a2) * w + a1, k);
    }
}

/// A positive factor cancels.
proof fn lemma_same_factor(k: real, x: real, y: real)
    requires
        k > 0real,
        x * k == y * k,
    ensures
        x == y,
{
    lemma_ring(k, x, y);
    lemma_ring(k, y, x);
    lemma_ring(k, x, 0real);
    lemma_ring(k, y, 0real);
    if x > y {
        lemma_positive(k, x - y);
    } else if x < y {
        lemma_positive(k, y - x);
    }
}

/// The real part of a polynomial, turned back by one sample, from close
/// coefficients.
proof fn lemma_real_part(x: real, y: real, z: real, ex: real, ey: real, ez: real, w: real)
    requires
        is_close(x, ex, 8192real),
        is_close(y, ey, 8192real),
        is_close(z, ez, 8192real),
        -1real <= w <= 1real,
        (ex + ez) * w + ey == 0real,
    ensures
        is_close((x + z) * w + y, 0real, 24576real),
{
    let (p, q) = (x + z, ex + ez);
    let d = (p - q) * 16777216real;
    lemma_bounded_real(w, 1real, d, 16384real);
    lemma_ring(w, p, q);
    lemma_ring(w, p - q, 16777216real);
    lemma_ring(w, p, 0real);
    lemma_ring(w, q, 0real);
}

/// A cosine short of one and a sine above zero, as real numbers.
proof fn lemma_strict(cos_w: Single, sin_w: Single)
    requires
        abs(cos_w.value()) < pow2(149),
        sin_w.value() > 0,
    ensures
        -1real < number(cos_w) < 1real,
        number(sin_w) > 0real,
{
    let w = pow2(149) as real;
    let (x, y) = (cos_w.value() as real, sin_w.value() as real);
    lemma_small_powers();
    lemma_quotient(x, w);
    lemma_quotient(y, w);
    let f = number(cos_w);
    lemma_ring(w, f, 1real);
    lemma_ring(w, 1real, f);
    lemma_ring(f, w, 0real);
    lemma_ring(w, 1real, 0real);
    lemma_ring(w, -1real, f);
    if f >= 1real {
        lemma_not_negative(w, f - 1real);
    }
    if f <= -1real {
        lemma_not_negative(w, -1real - f);
    }
}

} // verus!
