//! The equalizer is computed close to its exact formulas.
use vstd::arithmetic::power2::{lemma_pow2_adds, lemma_pow2_pos, pow2};
use vstd::prelude::*;

use crate::arithmetic::{
    abs, law_product_error, lemma_nearest_error, lemma_opposite, lemma_precise, lemma_signed,
    lemma_small_powers, lemma_sum,
};
use crate::biquad::{FilterKind, Transfer};
use crate::constants::{HALF, MINUS_TWO, ONE, SQRT_2, TWO};
use crate::exact::{
    is_unit, lemma_bandwidth, lemma_integer_product, lemma_near_quotient, lemma_one_and,
    lemma_positive, lemma_quotient, lemma_ring, lemma_same_quotient, number, Exact, Settings,
};
use crate::grid::{
    doubled_midpoint, is_nearest_root, lemma_increasing, lemma_step, lemma_zero, magnitude, nearest,
    nearest_root, scale, BINADE, INFINITY,
};
use crate::single::Single;
use crate::stability::{
    is_above, is_amplitude, is_below, lemma_constants, lemma_cosine, lemma_power,
    lemma_product_range, lemma_quotient_range, lemma_root_found, lemma_root_range, lemma_sum_range,
    lemma_two_times, power_pattern,
};

verus! {

/// Whether two real numbers are at most `n` parts in 2 to the 24 apart: `n`
/// roundings of a number between one half and one.
pub open spec fn is_close(x: real, y: real, n: real) -> bool {
    -n <= (x - y) * 16777216real <= n
}

/// A bound in units is a bound of the real numbers.
pub proof fn lemma_close_units(x: int, y: int, n: int, u: int)
    requires
        u > 0,
        abs(x - y) * 0x100_0000 <= n * u,
    ensures
        is_close(x as real / u as real, y as real / u as real, n as real),
{
    let (p, q, w, m) = (x as real, y as real, u as real, n as real);
    let (f, g) = (p / w, q / w);
    lemma_quotient(p, w);
    lemma_quotient(q, w);
    lemma_integer_product(n, u as nat);
    let e = (f - g) * 16777216real;
    assert(w * e == (p - q) * 16777216real) by {
        lemma_ring(w, f, g);
        lemma_ring(f, w, 0real);
        lemma_ring(g, w, 0real);
        lemma_ring(w, f - g, 16777216real);
    }
    lemma_cancel_bound(w, e, m);
}

/// A bound that holds after multiplication by a positive number.
pub proof fn lemma_cancel_bound(w: real, e: real, m: real)
    requires
        w > 0real,
        -(m * w) <= w * e <= m * w,
    ensures
        -m <= e <= m,
{
    lemma_ring(m, w, 0real);
    if e > m {
        lemma_positive(w, e - m);
        lemma_ring(w, e, m);
    }
    if e < -m {
        lemma_positive(w, -m - e);
        lemma_ring(w, -m, e);
        lemma_ring(w, m, 0real);
    }
}

/// A sum of numbers in units.
pub proof fn lemma_number_sum(x: int, y: int, u: int)
    requires
        u > 0,
    ensures
        (x + y) as real / u as real == x as real / u as real + y as real / u as real,
        (-y) as real / u as real == -(y as real / u as real),
{
    let (p, q, w) = (x as real, y as real, u as real);
    let (f, g) = (p / w, q / w);
    lemma_quotient(p, w);
    lemma_quotient(q, w);
    lemma_ring(w, f, g);
    lemma_ring(f, w, 0real);
    lemma_ring(g, w, 0real);
    lemma_ring(w, g, 0real);
    lemma_same_quotient(p + q, w, f + g);
    lemma_same_quotient(-q, w, -g);
}

/// The size of a number.
pub proof fn lemma_number_bound(x: Single, n: int)
    requires
        abs(x.value()) <= n * pow2(149),
    ensures
        -(n as real) <= number(x) <= n as real,
{
    let u = pow2(149) as int;
    let (v, w, m) = (x.value() as real, u as real, n as real);
    lemma_small_powers();
    lemma_quotient(v, w);
    lemma_integer_product(n, u as nat);
    lemma_ring(number(x), w, 0real);
    lemma_cancel_bound(w, number(x), m);
}

/// The value of a bounded number.
pub proof fn lemma_value_bound(x: Single, e: int)
    requires
        0 <= e <= 6,
        is_below(x, e),
    ensures
        x.is_finite(),
        abs(x.value()) <= pow2(e as nat) * pow2(149),
{
    lemma_power(e);
    lemma_increasing(x.pattern(), power_pattern(e));
    lemma_pow2_adds(149, e as nat);
    assert(pow2(149) * pow2(e as nat) == pow2(e as nat) * pow2(149)) by (nonlinear_arith);
}

/// The rounding of a sum.
proof fn lemma_close_sum(x: Single, y: Single, n: int)
    requires
        x.is_finite(),
        y.is_finite(),
        (x + y).is_finite(),
        -(n as real) <= number(x) + number(y) <= n as real,
    ensures
        is_close(number(x + y), number(x) + number(y), n as real),
{
    let u = pow2(149) as int;
    let (a, b) = (x.value(), y.value());
    lemma_small_powers();
    lemma_sum(x, y);
    lemma_number_sum(a, b, u);
    lemma_units_bound(a + b, n, u);
    lemma_close_units((x + y).value(), a + b, n, u);
}

/// A bound of the real numbers is a bound in units.
pub proof fn lemma_units_bound(x: int, n: int, u: int)
    requires
        u > 0,
        -(n as real) <= x as real / u as real <= n as real,
    ensures
        abs(x) <= n * u,
{
    let (v, w, m) = (x as real, u as real, n as real);
    let f = v / w;
    lemma_quotient(v, w);
    lemma_integer_product(n, u as nat);
    if f < m {
        lemma_positive(m - f, w);
    }
    if f > -m {
        lemma_positive(f + m, w);
    }
    lemma_ring(w, m, f);
    lemma_ring(w, f, m);
    lemma_ring(m - f, w, 0real);
    lemma_ring(f + m, w, 0real);
    lemma_ring(f, w, 0real);
    lemma_ring(m, w, 0real);
    lemma_ring(w, -m, 0real);
    lemma_ring(w, m, 0real);
    assert(v <= m * w);
    assert(-(m * w) <= v);
}

/// The rounding of a difference.
proof fn lemma_close_difference(x: Single, y: Single, n: int)
    requires
        x.is_finite(),
        y.is_finite(),
        (x - y).is_finite(),
        -(n as real) <= number(x) - number(y) <= n as real,
    ensures
        is_close(number(x - y), number(x) - number(y), n as real),
{
    lemma_small_powers();
    lemma_opposite(y);
    lemma_number_sum(0, y.value(), pow2(149) as int);
    lemma_close_sum(x, y.opposite(), n);
}

/// The rounding of a product.
pub proof fn lemma_close_product(x: Single, y: Single, n: int)
    requires
        (x * y).is_finite(),
        0 <= n <= 200,
        -(n as real) <= number(x) * number(y) <= n as real,
    ensures
        is_close(number(x * y), number(x) * number(y), (n + 1) as real),
{
    let u = pow2(149) as int;
    let (k, a, b) = ((x * y).value(), x.value(), y.value());
    let (rk, ra, rb, w) = (k as real, a as real, b as real, u as real);
    let (f, g, h) = (rk / w, ra / w, rb / w);
    lemma_small_powers();
    law_product_error(x, y);
    lemma_pow2_adds(24, 125);
    lemma_pow2_pos(125);
    assert(pow2(24) == 0x100_0000) by {
        vstd::arithmetic::power2::lemma2_to64();
    }
    lemma_quotient(rk, w);
    lemma_quotient(ra, w);
    lemma_quotient(rb, w);
    // The exact product in units of the square of the smallest number.
    let s = w * w;
    lemma_positive(w, w);
    assert(s * (g * h) == ra * rb) by {
        lemma_ring(s, g, h);
        lemma_ring(w, w, g);
        lemma_ring(w, g, 0real);
        lemma_ring(w * ra, h, 0real);
        lemma_ring(w, ra, h);
        lemma_ring(ra, w, h);
        lemma_ring(h, w, 0real);
        lemma_ring(ra, h, w);
    }
    assert(s * f == w * rk) by {
        lemma_ring(w, w, f);
        lemma_ring(w, f, 0real);
    }
    lemma_integer_signed_product(a, b);
    lemma_integer_signed_product(u, k);
    lemma_integer_signed_product(u, u);
    let t = u * u;
    let m = n as real;
    // The size of the product in integers.
    assert(-(m * s) <= ra * rb <= m * s) by {
        lemma_scaled_bound(s, g * h, m);
    }
    lemma_integer_signed_product(n, t);
    assert(abs(a * b) <= n * t);
    assert(u * 0x80_0000 <= t) by (nonlinear_arith)
        requires
            u >= 0x100_0000,
            t == u * u,
    ;
    lemma_integer_signed_product(n + 1, t);
    assert((n + 1) * t == n * t + t) by (nonlinear_arith);
    let d = u * k - a * b;
    assert(abs(d) * 0x100_0000 <= (n + 1) * t);
    let e = (f - g * h) * 16777216real;
    assert(s * e == (w * rk - ra * rb) * 16777216real) by {
        lemma_ring(s, f, g * h);
        lemma_ring(s, f - g * h, 16777216real);
    }
    lemma_cancel_bound(s, e, (n + 1) as real);
}

/// A bound multiplied by a positive number.
pub proof fn lemma_scaled_bound(s: real, x: real, m: real)
    requires
        s > 0real,
        -m <= x <= m,
    ensures
        -(m * s) <= s * x <= m * s,
{
    if x < m {
        lemma_positive(s, m - x);
    }
    if x > -m {
        lemma_positive(s, x + m);
    }
    lemma_ring(s, m, x);
    lemma_ring(s, x, m);
    lemma_ring(m, s, 0real);
    lemma_ring(s, m, 0real);
}

/// The product of integers as a real number.
pub proof fn lemma_integer_signed_product(x: int, y: int)
    ensures
        (x * y) as real == (x as real) * (y as real),
{
    if y >= 0 {
        lemma_integer_product(x, y as nat);
    } else {
        lemma_integer_product(x, (-y) as nat);
        lemma_ring(x as real, (-y) as real, 0real);
        lemma_ring(x as real, y as real, 0real);
        assert(x * (-y) == -(x * y)) by (nonlinear_arith);
    }
}

/// Products of close numbers are close.
pub proof fn lemma_product_close(
    x1: real,
    y1: real,
    n1: real,
    m1: real,
    x2: real,
    y2: real,
    n2: real,
    m2: real,
)
    requires
        is_close(x1, y1, n1),
        is_close(x2, y2, n2),
        -m1 <= x1 <= m1,
        -m2 <= y2 <= m2,
    ensures
        is_close(x1 * x2, y1 * y2, m1 * n2 + m2 * n1),
{
    let d1 = (x1 - y1) * 16777216real;
    let d2 = (x2 - y2) * 16777216real;
    lemma_bounded_real(x1, m1, d2, n2);
    lemma_bounded_real(y2, m2, d1, n1);
    assert(x1 * d2 == (x1 * x2 - x1 * y2) * 16777216real) by {
        lemma_ring(x1, x2, y2);
        lemma_ring(x1, x2 - y2, 16777216real);
    }
    assert(y2 * d1 == (x1 * y2 - y1 * y2) * 16777216real) by {
        lemma_ring(y2, x1, y1);
        lemma_ring(y2, x1 - y1, 16777216real);
        lemma_ring(x1, y2, 0real);
        lemma_ring(y1, y2, 0real);
    }
}

/// A product of bounded numbers.
pub proof fn lemma_bounded_real(x: real, m: real, d: real, n: real)
    requires
        -m <= x <= m,
        -n <= d <= n,
    ensures
        -(m * n) <= x * d <= m * n,
{
    assert(-(m * n) <= x * d <= m * n) by {
        lemma_not_negative(m - x, n + d);
        lemma_not_negative(m + x, n - d);
        lemma_not_negative(m - x, n - d);
        lemma_not_negative(m + x, n + d);
        lemma_ring(m - x, n, d);
        lemma_ring(m + x, n, d);
        lemma_ring(n, m, x);
        lemma_ring(d, m, x);
        lemma_ring(m - x, d, n);
        lemma_ring(m + x, d, n);
        lemma_ring(n, m - x, 0real);
        lemma_ring(n, m + x, 0real);
        lemma_ring(d, m - x, 0real);
        lemma_ring(d, m + x, 0real);
        lemma_ring(m, n, 0real);
        lemma_ring(m, d, 0real);
        lemma_ring(x, n, 0real);
        lemma_ring(x, d, 0real);
    }
}

/// Products of numbers that are not negative are not negative.
pub proof fn lemma_not_negative(x: real, y: real)
    requires
        x >= 0real,
        y >= 0real,
    ensures
        x * y >= 0real,
{
    if x > 0real && y > 0real {
        lemma_positive(x, y);
    } else {
        lemma_ring(x, y, 0real);
        lemma_ring(y, x, 0real);
        lemma_ring(x, 0real, 0real);
        lemma_ring(y, 0real, 0real);
    }
}

/// The square of a number doubled.
pub proof fn lemma_double_square(h: real)
    ensures
        (2real * h) * (2real * h) == 4real * (h * h),
{
    assert((2real * h) * (2real * h) == 4real * (h * h)) by (nonlinear_arith);
}

/// The order of positive numbers by their squares.
pub proof fn lemma_square_order(x: real, y: real)
    requires
        x > 0real,
        y > 0real,
    ensures
        x * x <= y * y ==> x <= y,
        y * y <= x * x ==> y <= x,
{
    lemma_ring(x, x, y);
    lemma_ring(y, x, y);
    lemma_ring(y, y, x);
    lemma_ring(x, y, x);
    if x > y {
        lemma_positive(x, x - y);
        lemma_positive(y, x - y);
    }
    if y > x {
        lemma_positive(y, y - x);
        lemma_positive(x, y - x);
    }
}

/// A pattern nearest to a root, in integers: twice the root is within one part
/// in 2 to the 23 of twice what the pattern names.
pub proof fn lemma_root_midpoints(n: nat, k: nat)
    requires
        is_nearest_root(n, k),
        BINADE < k < INFINITY,
    ensures
        ({
            let v = magnitude(k) as int;
            let (below, above) = (doubled_midpoint((k - 1) as nat), doubled_midpoint(k));
            &&& 0 < (2 * v - below) * 0x80_0000 <= v
            &&& 0 < (above - 2 * v) * 0x80_0000 <= v
            &&& below * below <= 4 * n <= above * above
        }),
{
    let p = (k - 1) as nat;
    lemma_step(k);
    lemma_step(p);
    lemma_precise(k);
    lemma_precise(p);
    lemma_pow2_pos(scale(k));
    lemma_pow2_pos(scale(p));
}

/// The root of an amplitude is close to the exact one.
proof fn lemma_root_close(a: Single, root_a: real)
    requires
        is_amplitude(a),
        root_a > 0real,
        root_a * root_a == number(a),
    ensures
        is_close(number(a.root()), root_a, 2real),
        0real <= number(a.root()) <= 2real,
{
    let u = pow2(149);
    let x = magnitude(a.pattern());
    let n = x * u;
    let k = nearest_root(n);
    let v = magnitude(k);
    lemma_small_powers();
    lemma_root_found(n, 0);
    lemma_root_range(a);
    lemma_power(-2);
    lemma_power(2);
    lemma_power(-1);
    lemma_power(1);
    lemma_constants();
    lemma_signed(false, k);
    lemma_root_midpoints(n, k);
    lemma_increasing(k, power_pattern(1));
    lemma_zero(k);
    let (rx, rv, w) = (x as real, v as real, u as real);
    let r = number(a.root());
    lemma_number_bound(a.root(), 2);
    lemma_quotient(rv, w);
    lemma_quotient(rx, w);
    let g = 2real * (root_a * w);
    // The square of twice the exact root in units is four times `n`.
    assert(g * g == 4real * (rx * w)) by {
        let h = root_a * w;
        lemma_double_square(h);
        lemma_ring(h, root_a, w);
        lemma_ring(root_a, w, root_a);
        lemma_ring(w, root_a, root_a);
        lemma_ring(root_a, root_a, w);
        lemma_ring(w, root_a * root_a, w);
        lemma_ring(rx / w, w, w);
        lemma_ring(root_a, root_a * w, w);
        lemma_ring(root_a * root_a, w, w);
        assert(h * h == rx * w);
    }
    lemma_integer_signed_product(x as int, u as int);
    let below = doubled_midpoint((k - 1) as nat);
    let above = doubled_midpoint(k);
    lemma_integer_signed_product(below as int, below as int);
    lemma_integer_signed_product(above as int, above as int);
    lemma_positive(root_a, w);
    lemma_square_order(below as real, g);
    lemma_square_order(g, above as real);
    assert(below as real <= g <= above as real);
    // Back from units.
    let d = (r - root_a) * 16777216real;
    assert(w * d == (2real * rv - g) * 8388608real) by {
        lemma_ring(w, r, root_a);
        lemma_ring(r, w, 0real);
        lemma_ring(root_a, w, 0real);
        lemma_ring(w, r - root_a, 16777216real);
    }
    assert(-(2real * w) <= w * d <= 2real * w);
    lemma_cancel_bound(w, d, 2real);
}

/// The root of two is close to the exact one.
pub proof fn lemma_root_of_two_close(root_2: real)
    requires
        root_2 > 0real,
        root_2 * root_2 == 2real,
    ensures
        is_close(number(Single { bits: SQRT_2 }), root_2, 1real),
        1real <= root_2 <= 2real,
{
    // The significand of the constant, in units of 2 to the power -23.
    let x = 0xb5_04f3int;
    let r = number(Single { bits: SQRT_2 });
    let w = 8388608real;
    lemma_small_powers();
    lemma_power(0);
    assert(magnitude(SQRT_2 as nat) == x * pow2(126)) by {
        crate::grid::lemma_compose(126, 0xb5_04f3);
    }
    lemma_pow2_adds(23, 126);
    lemma_pow2_pos(126);
    assert(pow2(23) == 0x80_0000) by {
        vstd::arithmetic::power2::lemma2_to64();
    }
    let p = pow2(126) as real;
    let u = pow2(149) as real;
    lemma_integer_signed_product(x, pow2(126) as int);
    lemma_integer_signed_product(0x80_0000, pow2(126) as int);
    assert(u * (11863283real / w) == 11863283real * p) by {
        let f = 11863283real / w;
        assert(f * w == 11863283real);
        lemma_ring(w, p, f);
        lemma_ring(w * p, f, 0real);
        lemma_ring(p, f, w);
        lemma_ring(f, w, p);
        lemma_ring(w, f, p);
        lemma_ring(p, w, f);
    }
    lemma_same_quotient(11863283real * p, u, 11863283real / w);
    assert(r == 11863283real / w);
    // Squares of the constant with one part in 2 to the 24 to either side.
    let f = 23726565real / 16777216real;
    let g = 23726567real / 16777216real;
    assert(f * f <= 2real <= g * g);
    lemma_square_order(f, root_2);
    lemma_square_order(root_2, g);
}

/// The rounding of a quotient, multiplied out.
pub proof fn lemma_close_quotient(x: Single, y: Single)
    requires
        !x.negative(),
        is_below(x, 0),
        !y.negative(),
        is_above(y, -2),
        is_below(y, 8),
    ensures
        is_close(number(x / y) * number(y), number(x), 2real),
{
    let u = pow2(149) as int;
    let a = magnitude(x.pattern());
    let b = magnitude(y.pattern());
    let n = a * u as nat;
    let m = nearest(n, b);
    lemma_small_powers();
    lemma_constants();
    lemma_power(0);
    lemma_power(-2);
    lemma_power(8);
    lemma_increasing(x.pattern(), power_pattern(0));
    lemma_increasing(y.pattern(), power_pattern(8));
    lemma_zero(y.pattern());
    lemma_quotient_range(x, y, 0, -2);
    crate::arithmetic::lemma_nearest_bounded(n, b);
    lemma_signed(false, m);
    lemma_nearest_error(n, b, m);
    lemma_pow2_adds(149, 8);
    lemma_pow2_adds(32, 117);
    lemma_pow2_pos(117);
    assert(pow2(8) == 256 && pow2(32) == 0x1_0000_0000) by {
        vstd::arithmetic::power2::lemma2_to64();
    }
    let k = magnitude(m);
    let t = u * u;
    assert(a * u <= t && b * 0x80_0000 <= t && b * k == k * b) by (nonlinear_arith)
        requires
            0 <= a <= u,
            0 <= b <= 256 * u,
            t == u * u,
            u >= 0x1_0000_0000,
    ;
    // Back to real numbers.
    let (rk, ra, rb, w) = (k as real, a as real, b as real, u as real);
    let (f, g, h) = (rk / w, ra / w, rb / w);
    lemma_quotient(rk, w);
    lemma_quotient(ra, w);
    lemma_quotient(rb, w);
    let q = w * w;
    lemma_positive(w, w);
    assert(q * (f * h) == rk * rb) by {
        lemma_ring(q, f, h);
        lemma_ring(w, w, f);
        lemma_ring(w, f, 0real);
        lemma_ring(w * rk, h, 0real);
        lemma_ring(w, rk, h);
        lemma_ring(rk, w, h);
        lemma_ring(h, w, 0real);
        lemma_ring(rk, h, w);
    }
    assert(q * g == ra * w) by {
        lemma_ring(w, w, g);
        lemma_ring(w, g, 0real);
        lemma_ring(w, ra, 0real);
    }
    lemma_integer_signed_product(k as int, b as int);
    lemma_integer_signed_product(a as int, u);
    lemma_integer_signed_product(u, u);
    let e = (f * h - g) * 16777216real;
    assert(q * e == (rk * rb - ra * w) * 16777216real) by {
        lemma_ring(q, f * h, g);
        lemma_ring(q, f * h - g, 16777216real);
    }
    lemma_cancel_bound(q, e, 2real);
}

/// Division by an amplitude.
pub proof fn lemma_over(f: real, a: real, y: real, n: real)
    requires
        4real * a >= 1real,
        is_close(f * a, y, n),
    ensures
        is_close(f, y / a, 4real * n),
{
    let g = y / a;
    lemma_quotient(y, a);
    let d = (f - g) * 16777216real;
    let e = (f * a - y) * 16777216real;
    assert(a * d == e) by {
        lemma_ring(a, f, g);
        lemma_ring(f, a, 0real);
        lemma_ring(g, a, 0real);
        lemma_ring(a, f - g, 16777216real);
    }
    // The bound is multiplied by the amplitude at least a quarter of it.
    if d > 4real * n {
        lemma_not_negative(4real * a - 1real, d);
        lemma_ring(d, 4real * a, 1real);
        lemma_ring(4real * a - 1real, d, 0real);
        lemma_ring(d, a, 4real);
        lemma_ring(a, d, 0real);
    }
    if d < -(4real * n) {
        lemma_not_negative(4real * a - 1real, -d);
        lemma_ring(d, 4real * a, 1real);
        lemma_ring(4real * a - 1real, -d, 0real);
        lemma_ring(4real * a - 1real, d, 0real);
        lemma_ring(d, a, 4real);
        lemma_ring(a, d, 0real);
    }
}

/// Whether these are the exact settings for what a filter is given.
pub open spec fn are_settings(
    s: Settings,
    cos_w: Single,
    sin_w: Single,
    q: Single,
    a: Single,
) -> bool {
    &&& s.cos_w == number(cos_w)
    &&& s.sin_w == number(sin_w)
    &&& s.q == number(q)
    &&& s.root_a > 0real
    &&& s.amplitude() == number(a)
    &&& s.root_2 > 0real
    &&& s.root_2 * s.root_2 == 2real
}

/// Whether the taps of a transfer function are close to those of an exact one:
/// within one part in 2 to the 15 for the input, in 2 to the 17 for the output.
pub open spec fn has_close_taps(t: Transfer, e: Exact) -> bool {
    &&& is_close(number(t.b0), e.b0, 512real)
    &&& is_close(number(t.b1), e.b1, 512real)
    &&& is_close(number(t.b2), e.b2, 512real)
    &&& is_close(number(t.a0), e.a0, 128real)
    &&& is_close(number(t.a1), e.a1, 128real)
    &&& is_close(number(t.a2), e.a2, 128real)
}

/// One as a real number.
pub proof fn lemma_number_one()
    ensures
        number(Single { bits: ONE }) == 1real,
{
    let u = pow2(149) as real;
    lemma_small_powers();
    lemma_ring(u, 1real, 0real);
    lemma_same_quotient(u, u, 1real);
}

/// Plus and minus two times a number.
pub proof fn lemma_number_doubled(x: Single)
    requires
        is_below(x, 10),
    ensures
        number((Single { bits: TWO }) * x) == 2real * number(x),
        number((Single { bits: MINUS_TWO }) * x) == -2real * number(x),
{
    let u = pow2(149) as int;
    lemma_small_powers();
    lemma_two_times(x);
    lemma_number_sum(x.value(), x.value(), u);
    lemma_number_sum(0, 2 * x.value(), u);
}

/// The size of an amplitude.
pub proof fn lemma_amplitude_bound(a: Single)
    requires
        is_amplitude(a),
    ensures
        1real <= 4real * number(a) <= 16real,
{
    let u = pow2(149) as int;
    lemma_small_powers();
    lemma_power(-2);
    lemma_power(2);
    lemma_increasing(power_pattern(-2), a.pattern());
    lemma_increasing(a.pattern(), power_pattern(2));
    lemma_pow2_adds(147, 2);
    lemma_pow2_adds(149, 2);
    assert(pow2(2) == 4) by {
        vstd::arithmetic::power2::lemma2_to64();
    }
    lemma_number_bound(a, 4);
    let (v, w) = (a.value() as real, u as real);
    lemma_quotient(v, w);
    let f = number(a);
    if 4real * f < 1real {
        lemma_positive(w, 1real - 4real * f);
        lemma_ring(w, 1real, 4real * f);
        lemma_ring(w, f, 4real);
        lemma_ring(f, w, 0real);
    }
}

/// The bandwidth term is close to the exact one.
proof fn lemma_bandwidth_close(sin_w: Single, q: Single)
    requires
        is_unit(sin_w),
        is_unit(q),
        q.pattern() >= HALF,
    ensures
        ({
            let alpha = sin_w / ((Single { bits: TWO }) * q);
            &&& is_unit(alpha)
            &&& is_close(number(alpha), number(sin_w) / (2real * number(q)), 2real)
            &&& 0real <= number(alpha) <= 1real
        }),
{
    let u = pow2(149) as int;
    let alpha = sin_w / ((Single { bits: TWO }) * q);
    lemma_small_powers();
    lemma_constants();
    lemma_bandwidth(sin_w, q);
    lemma_near_quotient(alpha.value(), sin_w.value(), 2 * q.value(), u);
    lemma_one_and(q.value(), u);
    lemma_number_bound(alpha, 1);
    let (v, w) = (alpha.value() as real, u as real);
    lemma_quotient(v, w);
    if number(alpha) < 0real {
        lemma_positive(w, -number(alpha));
        lemma_ring(w, number(alpha), 0real);
        lemma_ring(number(alpha), w, 0real);
    }
}

/// The taps of a peak that depend on its gain.
proof fn lemma_peak_close(alpha: Single, a: Single, exact: real)
    requires
        is_unit(alpha),
        is_amplitude(a),
        is_close(number(alpha), exact, 2real),
        0real <= number(alpha) <= 1real,
    ensures
        ({
            let one = Single { bits: ONE };
            let m = number(a);
            &&& is_close(number(one + alpha * a), 1real + exact * m, 512real)
            &&& is_close(number(one - alpha * a), 1real - exact * m, 512real)
            &&& is_close(number(one + alpha / a), 1real + exact / m, 128real)
            &&& is_close(number(one - alpha / a), 1real - exact / m, 128real)
        }),
{
    let one = Single { bits: ONE };
    let (x, m) = (number(alpha), number(a));
    lemma_constants();
    lemma_power(0);
    lemma_power(2);
    lemma_power(3);
    lemma_power(-2);
    lemma_number_one();
    lemma_amplitude_bound(a);
    lemma_product_range(alpha, a, 0, 2);
    lemma_quotient_range(alpha, a, 0, -2);
    lemma_sum_range(one, alpha * a, 2);
    lemma_sum_range(one, alpha / a, 2);
    // The product.
    lemma_bounded_real(x, 1real, m, 4real);
    lemma_close_product(alpha, a, 4);
    lemma_product_close(x, exact, 2real, 1real, m, m, 0real, 4real);
    lemma_close_sum(one, alpha * a, 6);
    lemma_close_difference(one, alpha * a, 6);
    // The quotient.
    let y = number(alpha / a);
    lemma_close_quotient(alpha, a);
    lemma_over(y, m, exact, 4real);
    lemma_value_bound(alpha / a, 2);
    assert(pow2(2) == 4) by {
        vstd::arithmetic::power2::lemma2_to64();
    }
    lemma_number_bound(alpha / a, 4);
    lemma_close_sum(one, alpha / a, 6);
    lemma_close_difference(one, alpha / a, 6);
}

/// One half as a real number.
pub proof fn lemma_number_half()
    ensures
        number(Single { bits: HALF }) == 1real / 2real,
{
    let p = pow2(148) as real;
    lemma_small_powers();
    lemma_constants();
    lemma_power(-1);
    lemma_pow2_adds(148, 1);
    lemma_pow2_pos(148);
    assert(pow2(1) == 2) by {
        vstd::arithmetic::power2::lemma2_to64();
    }
    assert(pow2(149) as real == 2real * p);
    lemma_ring(p, 2real, 1real / 2real);
    lemma_ring(2real, p, 1real / 2real);
    lemma_same_quotient(p, 2real * p, 1real / 2real);
}

/// The term of a shelf that holds the root of the amplitude is close to the
/// exact one.
proof fn lemma_shelf_term_close(sin_w: Single, a: Single, root_a: real, root_2: real)
    requires
        is_unit(sin_w),
        is_amplitude(a),
        root_a > 0real,
        root_a * root_a == number(a),
        root_2 > 0real,
        root_2 * root_2 == 2real,
    ensures
        is_close(
            number(Transfer::shelf_term(sin_w, a)),
            2real * root_a * (number(sin_w) * (1real / 2real) * root_2),
            49real,
        ),
        is_below(Transfer::shelf_term(sin_w, a), 2),
        -4real <= number(Transfer::shelf_term(sin_w, a)) <= 4real,
{
    let half = Single { bits: HALF };
    let sqrt_2 = Single { bits: SQRT_2 };
    let two = Single { bits: TWO };
    let h = sin_w * half;
    let alpha = h * sqrt_2;
    let r = a.root();
    let t = Transfer::shelf_term(sin_w, a);
    let (n, e) = (number(sin_w), number(sin_w) * (1real / 2real));
    lemma_constants();
    lemma_power(0);
    lemma_power(1);
    lemma_power(2);
    lemma_power(-1);
    lemma_root_range(a);
    lemma_product_range(sin_w, half, 0, -1);
    lemma_product_range(h, sqrt_2, -1, 1);
    lemma_product_range(two, r, 1, 1);
    lemma_product_range(two * r, alpha, 2, 0);
    lemma_number_half();
    assert(pow2(0) == 1 && pow2(2) == 4) by {
        vstd::arithmetic::power2::lemma2_to64();
    }
    lemma_value_bound(sin_w, 0);
    lemma_number_bound(sin_w, 1);
    // Half of the sine.
    lemma_bounded_real(n, 1real, 1real / 2real, 1real / 2real);
    lemma_close_product(sin_w, half, 1);
    // Times the root of two.
    lemma_root_of_two_close(root_2);
    let (x, y) = (number(h), number(sqrt_2));
    lemma_bounded_real(x, 1real, y, 3real);
    lemma_close_product(h, sqrt_2, 3);
    lemma_product_close(x, e, 2real, 1real, y, root_2, 1real, 2real);
    lemma_bounded_real(e, 1real / 2real, root_2, 2real);
    // Times twice the root of the amplitude.
    lemma_root_close(a, root_a);
    lemma_number_doubled(r);
    let (v, z) = (2real * number(r), number(alpha));
    lemma_bounded_real(v, 4real, z, 2real);
    lemma_close_product(two * r, alpha, 8);
    lemma_product_close(v, 2real * root_a, 4real, 4real, z, e * root_2, 9real, 1real);
    lemma_value_bound(t, 2);
    lemma_number_bound(t, 4);
}

/// The terms of a shelf without its root are close to the exact ones.
proof fn lemma_shelf_sums_close(c: Single, a: Single)
    requires
        is_below(c, 0),
        is_amplitude(a),
    ensures
        ({
            let one = Single { bits: ONE };
            let p = a + one;
            let m = a - one;
            let (x, y) = (number(a), number(c));
            &&& is_below(p + m * c, 4) && is_below(p - m * c, 4)
            &&& is_below(m + p * c, 4) && is_below(m - p * c, 4)
            &&& is_close(number(p + m * c), (x + 1real) + (x - 1real) * y, 27real)
            &&& is_close(number(p - m * c), (x + 1real) - (x - 1real) * y, 27real)
            &&& is_close(number(m + p * c), (x - 1real) + (x + 1real) * y, 28real)
            &&& is_close(number(m - p * c), (x - 1real) - (x + 1real) * y, 28real)
            &&& -13real <= number(p + m * c) <= 13real
            &&& -13real <= number(p - m * c) <= 13real
            &&& -13real <= number(m + p * c) <= 13real
            &&& -13real <= number(m - p * c) <= 13real
        }),
{
    let one = Single { bits: ONE };
    let p = a + one;
    let m = a - one;
    let k = m * c;
    let h = p * c;
    let (x, y) = (number(a), number(c));
    lemma_constants();
    lemma_power(0);
    lemma_power(2);
    lemma_power(3);
    lemma_power(4);
    lemma_sum_range(a, one, 2);
    lemma_product_range(m, c, 3, 0);
    lemma_product_range(p, c, 3, 0);
    lemma_sum_range(p, k, 3);
    lemma_sum_range(m, h, 3);
    lemma_number_one();
    lemma_amplitude_bound(a);
    assert(pow2(0) == 1) by {
        vstd::arithmetic::power2::lemma2_to64();
    }
    lemma_value_bound(c, 0);
    lemma_number_bound(c, 1);
    lemma_close_sum(a, one, 5);
    lemma_close_difference(a, one, 4);
    let (u, v) = (number(p), number(m));
    lemma_bounded_real(v, 5real, y, 1real);
    lemma_bounded_real(u, 6real, y, 1real);
    lemma_close_product(m, c, 5);
    lemma_close_product(p, c, 6);
    lemma_product_close(v, x - 1real, 4real, 5real, y, y, 0real, 1real);
    lemma_product_close(u, x + 1real, 5real, 6real, y, y, 0real, 1real);
    lemma_close_sum(p, k, 12);
    lemma_close_difference(p, k, 12);
    lemma_close_sum(m, h, 12);
    lemma_close_difference(m, h, 12);
}

/// The outer taps of a shelf are close to the exact ones, with and without the
/// factor of the amplitude.
proof fn lemma_shelf_outer_close(z: Single, t: Single, a: Single, x: real, y: real)
    requires
        is_below(z, 4),
        is_below(t, 2),
        is_amplitude(a),
        is_close(number(z), x, 27real),
        is_close(number(t), y, 49real),
        -13real <= number(z) <= 13real,
        -4real <= number(t) <= 4real,
    ensures
        is_close(number(z + t), x + y, 128real),
        is_close(number(z - t), x - y, 128real),
        is_close(number(a * (z + t)), number(a) * (x + y), 512real),
        is_close(number(a * (z - t)), number(a) * (x - y), 512real),
{
    let m = number(a);
    lemma_power(2);
    lemma_power(4);
    lemma_power(5);
    lemma_power(7);
    lemma_sum_range(z, t, 4);
    lemma_product_range(a, z + t, 2, 5);
    lemma_product_range(a, z - t, 2, 5);
    lemma_amplitude_bound(a);
    lemma_close_sum(z, t, 17);
    lemma_close_difference(z, t, 17);
    let (f, g) = (number(z + t), number(z - t));
    lemma_bounded_real(m, 4real, f, 18real);
    lemma_bounded_real(m, 4real, g, 18real);
    lemma_close_product(a, z + t, 72);
    lemma_close_product(a, z - t, 72);
    lemma_product_close(m, m, 0real, 4real, f, x + y, 93real, 20real);
    lemma_product_close(m, m, 0real, 4real, g, x - y, 93real, 20real);
}

/// The middle taps of a shelf are close to the exact ones.
proof fn lemma_shelf_middle_close(g: Single, a: Single, x: real)
    requires
        is_below(g, 4),
        is_amplitude(a),
        is_close(number(g), x, 28real),
        -13real <= number(g) <= 13real,
    ensures
        is_close(number((Single { bits: TWO }) * g), 2real * x, 128real),
        is_close(number((Single { bits: MINUS_TWO }) * g), -2real * x, 128real),
        is_close(number((Single { bits: TWO }) * a * g), 2real * number(a) * x, 512real),
        is_close(number((Single { bits: MINUS_TWO }) * a * g), -2real * number(a) * x, 512real),
{
    let two = Single { bits: TWO };
    let minus_two = Single { bits: MINUS_TWO };
    let (m, y) = (number(a), number(g));
    lemma_constants();
    lemma_power(1);
    lemma_power(2);
    lemma_power(3);
    lemma_power(4);
    lemma_power(7);
    lemma_power(10);
    lemma_number_doubled(g);
    lemma_number_doubled(a);
    lemma_amplitude_bound(a);
    lemma_product_range(two, a, 1, 2);
    lemma_product_range(minus_two, a, 1, 2);
    lemma_product_range(two * a, g, 3, 4);
    lemma_product_range(minus_two * a, g, 3, 4);
    let (v, w) = (2real * m, -2real * m);
    lemma_bounded_real(v, 8real, y, 13real);
    lemma_bounded_real(w, 8real, y, 13real);
    lemma_close_product(two * a, g, 104);
    lemma_close_product(minus_two * a, g, 104);
    lemma_product_close(v, v, 0real, 8real, y, x, 28real, 20real);
    lemma_product_close(w, w, 0real, 8real, y, x, 28real, 20real);
}

/// The equalizer's bands are computed to within one part in 2 to the 15 of the
/// exact filter for the cosine, the sine and the amplitude they are given.
pub proof fn law_equalizer_taps_close_to_exact(
    kind: FilterKind,
    cos_w: Single,
    sin_w: Single,
    q: Single,
    a: Single,
    s: Settings,
)
    requires
        kind.takes_gain(),
        cos_w.is_finite(),
        abs(cos_w.value()) <= pow2(149),
        is_unit(sin_w),
        is_unit(q),
        q.pattern() >= HALF,
        is_amplitude(a),
        are_settings(s, cos_w, sin_w, q, a),
    ensures
        has_close_taps(Transfer::of(kind, cos_w, sin_w, q, a), Exact::of(kind, s)),
{
    let one = Single { bits: ONE };
    lemma_constants();
    lemma_power(0);
    lemma_power(10);
    lemma_cosine(cos_w);
    if kind is Peaking {
        let alpha = sin_w / ((Single { bits: TWO }) * q);
        lemma_bandwidth_close(sin_w, q);
        lemma_peak_close(alpha, a, s.sin_w / (2real * s.q));
        lemma_number_doubled(cos_w);
    } else {
        let t = Transfer::shelf_term(sin_w, a);
        let p = a + one;
        let m = a - one;
        let (x, c) = (number(a), s.cos_w);
        let (v, w) = (x + 1real, x - 1real);
        let y = 2real * s.root_a * (s.sin_w * (1real / 2real) * s.root_2);
        lemma_shelf_term_close(sin_w, a, s.root_a, s.root_2);
        lemma_shelf_sums_close(cos_w, a);
        lemma_shelf_outer_close(p + m * cos_w, t, a, v + w * c, y);
        lemma_shelf_outer_close(p - m * cos_w, t, a, v - w * c, y);
        lemma_shelf_middle_close(m + p * cos_w, a, w + v * c);
        lemma_shelf_middle_close(m - p * cos_w, a, w - v * c);
    }
}

} // verus!
