//! The coefficients of a filter as computed are those of the cookbook, for
//! qualities from 2 to the power -10 to 2 to the 10 and gains of up to 192 dB.
use vstd::arithmetic::power2::{lemma_pow2_adds, lemma_pow2_strictly_increases, pow2};
use vstd::prelude::*;

use crate::arithmetic::{
    abs, largest, law_product_error, lemma_finite_range, lemma_nearest_bounded, lemma_opposite,
    lemma_signed, lemma_small_powers, lemma_sum, lemma_sum_value,
};
use crate::biquad::{Coefficients, FilterKind, Transfer};
use crate::constants::{HALF, MINUS_TWO, ONE, SQRT_2, TWO};
use crate::exact::{
    lemma_positive, lemma_quotient, lemma_ring, lemma_same_quotient, number, Exact, Settings,
};
use crate::grid::{
    doubled_midpoint, lemma_exact, lemma_increasing, lemma_nearest_monotone, lemma_zero, magnitude,
    nearest, nearest_root, BINADE, INFINITY,
};
use crate::nearness::{
    are_settings, lemma_bounded_real, lemma_cancel_bound, lemma_double_square,
    lemma_integer_signed_product, lemma_not_negative, lemma_number_doubled, lemma_number_half,
    lemma_number_one, lemma_number_sum, lemma_product_close, lemma_root_midpoints,
    lemma_root_of_two_close, lemma_scaled_bound, lemma_square_order,
};
use crate::path::{lemma_limit, lemma_product_finite};
use crate::single::Single;
use crate::stability::{lemma_power, lemma_root_found, power_pattern};
use crate::writes::law_quotient_error;

verus! {

/// Whether a size is between 2 to the power -40 and 2 to the 40.
spec fn is_moderate(s: real) -> bool {
    1real <= s * 1099511627776real && s <= 1099511627776real
}

/// Whether a number follows an exact one `e`, with terms of the size `s`, to
/// within `n` roundings of them.
spec fn follows(x: Single, e: real, s: real, n: real) -> bool {
    &&& x.is_finite()
    &&& is_moderate(s)
    &&& -s <= e <= s
    &&& 0real <= n <= 48real
    &&& -(n * s) <= (number(x) - e) * 16777216real <= n * s
}

/// A number and its value.
proof fn lemma_number(x: Single)
    ensures
        ({
            let w = pow2(149) as real;
            &&& w > 0real
            &&& w * number(x) == x.value() as real
        }),
{
    lemma_small_powers();
    let w = pow2(149) as real;
    lemma_quotient(x.value() as real, w);
    lemma_ring(w, number(x), 0real);
}

/// One is large in units.
proof fn lemma_unit_large()
    ensures
        pow2(149) >= 0x1000_0000_0000_0000_0000,
        pow2(149) as real >= 75557863725914323419136real,
{
    assert(pow2(64) == 0x1_0000_0000_0000_0000 && pow2(12) == 0x1000) by {
        vstd::arithmetic::power2::lemma2_to64();
    }
    lemma_pow2_adds(12, 64);
    lemma_pow2_strictly_increases(76, 149);
}

/// The rounding of a sum.
proof fn lemma_rounded_sum(x: Single, y: Single, m: real)
    requires
        x.is_finite(),
        y.is_finite(),
        -m <= number(x) + number(y) <= m,
        m <= 4398046511104real,
    ensures
        (x + y).is_finite(),
        -m <= (number(x + y) - (number(x) + number(y))) * 16777216real <= m,
{
    let w = pow2(149) as real;
    let (v, g) = (x.value() + y.value(), number(x) + number(y));
    lemma_number(x);
    lemma_number(y);
    lemma_ring(w, number(x), number(y));
    lemma_scaled_bound(w, g, m);
    lemma_limit();
    lemma_unit_large();
    assert(abs(v) <= largest()) by {
        // The sum is at most 2 to the 42, and the range is larger.
        lemma_ring(w, m, 0real);
        lemma_not_negative(w, 4398046511104real - m);
        lemma_ring(w, 4398046511104real, m);
        lemma_pow2_adds(149, 121);
        lemma_pow2_strictly_increases(42, 121);
        assert(pow2(42) == 0x400_0000_0000) by {
            vstd::arithmetic::power2::lemma2_to64_rest();
        }
        let (u, t) = (pow2(149), pow2(121));
        assert(u * 0x400_0000_0000 <= u * t) by (nonlinear_arith)
            requires
                t >= 0x400_0000_0000,
        ;
    }
    lemma_sum_value(x, y);
    lemma_finite_range(v);
    lemma_sum(x, y);
    lemma_number(x + y);
    let f = number(x + y);
    let e = (f - g) * 16777216real;
    assert(w * e == ((x + y).value() - v) as real * 16777216real) by {
        lemma_ring(w, f, g);
        lemma_ring(w, f - g, 16777216real);
    }
    lemma_cancel_bound(w, e, m);
}

/// The rounding of a product.
proof fn lemma_rounded_product(x: Single, y: Single, m: real)
    requires
        x.is_finite(),
        y.is_finite(),
        -m <= number(x) * number(y) <= m,
        1real <= m * 2199023255552real,
        m <= 4398046511104real,
    ensures
        (x * y).is_finite(),
        -(m + m / 4real) <= (number(x * y) - number(x) * number(y)) * 16777216real <= m + m / 4real,
{
    let u = pow2(149) as int;
    let w = u as real;
    let (a, b) = (x.value(), y.value());
    let (f, g) = (number(x), number(y));
    lemma_number(x);
    lemma_number(y);
    lemma_unit_large();
    let s = w * w;
    lemma_positive(w, w);
    lemma_integer_signed_product(a, b);
    lemma_integer_signed_product(u, u);
    assert(s * (f * g) == a as real * b as real) by {
        lemma_ring(s, f, g);
        lemma_ring(w, w, f);
        lemma_ring(w * a as real, g, 0real);
        lemma_ring(w, a as real, g);
        lemma_ring(a as real, w, g);
    }
    lemma_scaled_bound(s, f * g, m);
    assert(abs(a * b) <= 2 * crate::path::limit()) by {
        lemma_limit();
        lemma_not_negative(s, 4398046511104real - m);
        lemma_ring(s, 4398046511104real, m);
        lemma_ring(m, s, 0real);
        lemma_pow2_adds(149, 121);
        lemma_pow2_strictly_increases(42, 121);
        assert(pow2(42) == 0x400_0000_0000) by {
            vstd::arithmetic::power2::lemma2_to64_rest();
        }
        let t = pow2(121) as int;
        assert(u * u * 0x400_0000_0000 <= u * (u * t)) by (nonlinear_arith)
            requires
                t >= 0x400_0000_0000,
        ;
    }
    lemma_product_finite(x, y);
    law_product_error(x, y);
    lemma_number(x * y);
    let k = (x * y).value();
    let h = number(x * y);
    lemma_integer_signed_product(u, k);
    assert(s * h == (u * k) as real) by {
        lemma_ring(w, w, h);
    }
    // Half of the smallest number is less than a quarter of a rounding.
    assert(w * 8388608real <= (m / 4real) * s) by {
        lemma_not_negative(m * 2199023255552real - 1real, w);
        lemma_ring(w, m * 2199023255552real, 1real);
        lemma_ring(w, m, 2199023255552real);
        lemma_ring(m, w, 0real);
        lemma_ring(m * 2199023255552real - 1real, w, 0real);
        let t = w * m;
        assert(t >= 33554432real);
        lemma_not_negative(t - 33554432real, w);
        lemma_ring(w, t, 33554432real);
        lemma_ring(t - 33554432real, w, 0real);
        lemma_ring(w, w, m);
        lemma_ring(s, m, 0real);
        lemma_ring(s, m, 1real / 4real);
        lemma_ring(m / 4real, s, 0real);
    }
    let e = (h - f * g) * 16777216real;
    assert(s * e == (u * k - a * b) as real * 16777216real) by {
        lemma_ring(s, h, f * g);
        lemma_ring(s, h - f * g, 16777216real);
    }
    let n = m + m / 4real;
    assert(n * s == m * s + (m / 4real) * s) by {
        lemma_ring(s, m, m / 4real);
        lemma_ring(n, s, 0real);
        lemma_ring(m, s, 0real);
        lemma_ring(m / 4real, s, 0real);
    }
    lemma_cancel_bound(s, e, n);
}

/// The size of a number that follows an exact one.
proof fn lemma_follower_size(x: Single, e: real, s: real, n: real)
    requires
        follows(x, e, s, n),
    ensures
        4real * number(x) <= 5real * s,
        -(5real * s) <= 4real * number(x),
        s > 0real,
{
    lemma_not_negative(48real - n, s);
    lemma_ring(s, 48real, n);
    lemma_ring(48real - n, s, 0real);
    lemma_ring(n, s, 0real);
}

/// The sum of two numbers that follow exact ones.
proof fn lemma_follow_sum(x: Single, y: Single, e: (real, real), s: (real, real), n: real)
    requires
        follows(x, e.0, s.0, n),
        follows(y, e.1, s.1, n),
        is_moderate(s.0 + s.1),
        n <= 46real,
    ensures
        follows(x + y, e.0 + e.1, s.0 + s.1, n + 2real),
{
    lemma_follower_size(x, e.0, s.0, n);
    lemma_follower_size(y, e.1, s.1, n);
    let t = s.0 + s.1;
    lemma_rounded_sum(x, y, t + t / 4real);
    lemma_ring(n, s.0, s.1);
    lemma_ring(t, n, 2real);
    lemma_ring(n + 2real, t, 0real);
    lemma_ring(n, t, 0real);
}

/// The opposite of a number that follows an exact one.
proof fn lemma_follow_opposite(x: Single, e: real, s: real, n: real)
    requires
        follows(x, e, s, n),
    ensures
        follows(x.opposite(), -e, s, n),
{
    lemma_small_powers();
    lemma_opposite(x);
    lemma_number_sum(0, x.value(), pow2(149) as int);
}

/// The difference of two numbers that follow exact ones.
proof fn lemma_follow_difference(x: Single, y: Single, e: (real, real), s: (real, real), n: real)
    requires
        follows(x, e.0, s.0, n),
        follows(y, e.1, s.1, n),
        is_moderate(s.0 + s.1),
        n <= 46real,
    ensures
        follows(x - y, e.0 - e.1, s.0 + s.1, n + 2real),
{
    lemma_follow_opposite(y, e.1, s.1, n);
    lemma_follow_sum(x, y.opposite(), (e.0, -e.1), s, n);
}

/// The product of two numbers that follow exact ones.
proof fn lemma_follow_product(
    x: Single,
    y: Single,
    e: (real, real),
    s: (real, real),
    n: (real, real),
)
    requires
        follows(x, e.0, s.0, n.0),
        follows(y, e.1, s.1, n.1),
        is_moderate(s.0 * s.1),
        n.0 + 2real * n.1 + 2real <= 48real,
    ensures
        follows(x * y, e.0 * e.1, s.0 * s.1, n.0 + 2real * n.1 + 2real),
{
    let (f, g) = (number(x), number(y));
    let t = s.0 * s.1;
    let (i, j) = n;
    lemma_follower_size(x, e.0, s.0, i);
    lemma_follower_size(y, e.1, s.1, j);
    lemma_positive(s.0, s.1);
    let (p, q) = (s.0 + s.0 / 4real, s.1 + s.1 / 4real);
    lemma_bounded_real(f, p, g, q);
    assert(p * q == t + t / 2real + t / 16real) by {
        lemma_ring(p, s.1, s.1 / 4real);
        lemma_ring(s.1, s.0, s.0 / 4real);
        lemma_ring(p, s.1, 1real / 4real);
        lemma_ring(s.1, s.0, 1real / 4real);
        lemma_ring(p, s.1, 0real);
        lemma_ring(s.0, s.1, 0real);
        lemma_ring(s.0 / 4real, s.1, 0real);
    }
    lemma_rounded_product(x, y, p * q);
    lemma_bounded_real(e.0, s.0, e.1, s.1);
    lemma_product_close(f, e.0, i * s.0, p, g, e.1, j * s.1, s.1);
    assert(s.1 * (i * s.0) == i * t) by {
        lemma_ring(s.1, i, s.0);
        lemma_ring(i, s.1, s.0);
        lemma_ring(s.0, s.1, 0real);
    }
    assert(p * (j * s.1) == j * t + j * t / 4real) by {
        lemma_ring(p, j, s.1);
        lemma_ring(j, p, s.1);
        lemma_ring(j, s.0 * s.1, s.0 / 4real * s.1);
        lemma_ring(s.1, s.0, s.0 / 4real);
        lemma_ring(s.1, s.0, 1real / 4real);
        lemma_ring(s.0, s.1, 0real);
        lemma_ring(s.0 / 4real, s.1, 0real);
        lemma_ring(p, s.1, 0real);
        lemma_ring(j, t, 1real / 4real);
        assert(p * s.1 == t + t / 4real);
        lemma_ring(j, t, t / 4real);
    }
    lemma_not_negative(j, t);
    let k = i + 2real * j + 2real;
    assert(k * t == i * t + 2real * (j * t) + 2real * t) by {
        lemma_ring(t, i + 2real * j, 2real);
        lemma_ring(t, i, 2real * j);
        lemma_ring(t, 2real, j);
        lemma_ring(t, j, 2real);
        lemma_ring(k, t, 0real);
        lemma_ring(i, t, 0real);
        lemma_ring(j, t, 0real);
    }
}

/// A quotient of moderate size is finite.
proof fn lemma_quotient_finite(x: Single, y: Single)
    requires
        x.is_finite(),
        y.is_finite(),
        !y.is_zero(),
        abs(x.value()) <= 0x400_0000_0000 * abs(y.value()),
    ensures
        (x / y).is_finite(),
{
    let u = pow2(149);
    let (a, b) = (magnitude(x.pattern()), magnitude(y.pattern()));
    let n = a * u;
    let m = nearest(n, b);
    lemma_small_powers();
    lemma_zero(y.pattern());
    lemma_nearest_bounded(n, b);
    lemma_power(42);
    lemma_pow2_adds(149, 42);
    assert(pow2(42) == 0x400_0000_0000) by {
        vstd::arithmetic::power2::lemma2_to64_rest();
    }
    let t = pow2(191);
    lemma_exact(t, 1, power_pattern(42));
    assert(n * 1 <= t * b) by (nonlinear_arith)
        requires
            n == a * u,
            a <= 0x400_0000_0000 * b,
            t == u * 0x400_0000_0000,
    ;
    lemma_nearest_monotone(n, b, m, t, 1, power_pattern(42));
    reveal(Single::spec_div);
    lemma_signed(x.negative() != y.negative(), m);
}

/// The rounding of a quotient, multiplied out.
proof fn lemma_rounded_quotient(x: Single, y: Single, m: real)
    requires
        x.is_finite(),
        y.is_finite(),
        is_moderate(number(y)),
        -(m * number(y)) <= number(x) <= m * number(y),
        1real <= m * 2199023255552real,
        m <= 4398046511104real,
    ensures
        (x / y).is_finite(),
        ({
            let n = m + m / 4real;
            -(n * number(y)) <= (number(x / y) * number(y) - number(x)) * 16777216real <= n
                * number(y)
        }),
{
    let u = pow2(149) as int;
    let w = u as real;
    let (a, b) = (x.value(), y.value());
    let (f, g) = (number(x), number(y));
    lemma_number(x);
    lemma_number(y);
    lemma_unit_large();
    lemma_positive(w, g);
    lemma_zero(y.pattern());
    assert(abs(a) <= 0x400_0000_0000 * abs(b)) by {
        lemma_scaled_bound(w, f, m * g);
        lemma_ring(w, m, g);
        lemma_ring(m, w, g);
        lemma_not_negative(w * g, 4398046511104real - m);
        lemma_ring(w * g, 4398046511104real, m);
        lemma_ring(m, w * g, 0real);
        lemma_ring(m * g, w, 0real);
        lemma_ring(w, m, 0real);
    }
    lemma_quotient_finite(x, y);
    law_quotient_error(x, y);
    lemma_number(x / y);
    let k = (x / y).value();
    let h = number(x / y);
    let s = w * w;
    lemma_positive(w, w);
    lemma_integer_signed_product(k, b);
    lemma_integer_signed_product(a, u);
    assert(s * (h * g) == (k * b) as real) by {
        lemma_ring(s, h, g);
        lemma_ring(w, w, h);
        lemma_ring(w * k as real, g, 0real);
        lemma_ring(w, k as real, g);
        lemma_ring(k as real, w, g);
    }
    assert(s * f == (a * u) as real) by {
        lemma_ring(w, w, f);
        lemma_ring(w, a as real, 0real);
    }
    // Half of the smallest number is less than a quarter of a rounding.
    let n = m + m / 4real;
    let t = w * m;
    assert(t >= 33554432real) by {
        lemma_not_negative(m * 2199023255552real - 1real, w);
        lemma_ring(w, m * 2199023255552real, 1real);
        lemma_ring(w, m, 2199023255552real);
        lemma_ring(m * 2199023255552real - 1real, w, 0real);
    }
    let r = w * g;
    assert(r * 8388608real <= s * (m / 4real * g)) by {
        lemma_not_negative(t - 33554432real, r);
        lemma_ring(r, t, 33554432real);
        lemma_ring(t - 33554432real, r, 0real);
        assert(s * (m / 4real * g) == r * t / 4real) by {
            lemma_ring(s, m / 4real, g);
            lemma_ring(w, w, m / 4real);
            lemma_ring(w, m, 1real / 4real);
            lemma_ring(w, t / 4real, g);
            lemma_ring(t / 4real, g, 0real);
            lemma_ring(w, g, t / 4real);
            lemma_ring(r, t, 1real / 4real);
        }
    }
    let e = (h * g - f) * 16777216real;
    assert(s * e == (k * b - a * u) as real * 16777216real) by {
        lemma_ring(s, h * g, f);
        lemma_ring(s, h * g - f, 16777216real);
    }
    lemma_scaled_bound(s, f, m * g);
    assert(n * g == m * g + m / 4real * g) by {
        lemma_ring(g, m, m / 4real);
        lemma_ring(n, g, 0real);
        lemma_ring(m, g, 0real);
        lemma_ring(m / 4real, g, 0real);
    }
    lemma_ring(s, m * g, m / 4real * g);
    lemma_ring(m * g, s, 0real);
    lemma_ring(n * g, s, 0real);
    lemma_cancel_bound(s, e, n * g);
}

/// The quotient of a number that follows an exact one and a positive number.
proof fn lemma_follow_quotient(x: Single, y: Single, e: real, s: real, n: real)
    requires
        follows(x, e, s, n),
        y.is_finite(),
        is_moderate(number(y)),
        is_moderate(s / number(y)),
        n <= 46real,
    ensures
        follows(x / y, e / number(y), s / number(y), n + 2real),
{
    let (f, g) = (number(x), number(y));
    let t = s / g;
    lemma_quotient(s, g);
    lemma_quotient(e, g);
    lemma_follower_size(x, e, s, n);
    let m = t + t / 4real;
    assert(m * g == s + s / 4real) by {
        lemma_ring(g, t, t / 4real);
        lemma_ring(g, t, 1real / 4real);
        lemma_ring(m, g, 0real);
        lemma_ring(t, g, 0real);
    }
    lemma_rounded_quotient(x, y, m);
    let h = number(x / y);
    let (k, c) = (m + m / 4real, e / g);
    assert(k * g == m * g + m * g / 4real) by {
        lemma_ring(g, m, m / 4real);
        lemma_ring(g, m, 1real / 4real);
        lemma_ring(k, g, 0real);
        lemma_ring(m, g, 0real);
    }
    let d = (h - c) * 16777216real;
    assert(g * d == (h * g - e) * 16777216real) by {
        lemma_ring(g, h, c);
        lemma_ring(h, g, 0real);
        lemma_ring(c, g, 0real);
        lemma_ring(g, h - c, 16777216real);
    }
    let j = (n + 2real) * t;
    assert(j * g == n * s + 2real * s) by {
        lemma_ring(n + 2real, t, g);
        lemma_ring(s, n, 2real);
        lemma_ring(n + 2real, s, 0real);
        lemma_ring(n, s, 0real);
    }
    lemma_cancel_bound(g, d, j);
    lemma_ring(t, g, 0real);
    lemma_ring(c, g, 0real);
    lemma_cancel_bound(g, c, t);
}

/// The root of a positive number of moderate size.
proof fn lemma_follow_root(a: Single, r: real)
    requires
        a.is_finite(),
        !a.negative(),
        is_moderate(number(a)),
        r > 0real,
        r * r == number(a),
        is_moderate(r),
    ensures
        follows(a.root(), r, r, 2real),
{
    let u = pow2(149);
    let w = u as real;
    let x = magnitude(a.pattern());
    let n = x * u;
    let k = nearest_root(n);
    let v = magnitude(k);
    lemma_number(a);
    lemma_unit_large();
    lemma_zero(a.pattern());
    lemma_positive(w, number(a));
    lemma_root_found(n, 0);
    lemma_root_bounds(a, k);
    lemma_signed(false, k);
    lemma_root_midpoints(n, k);
    lemma_number(a.root());
    let (rx, rv) = (x as real, v as real);
    let h = r * w;
    let g = 2real * h;
    // The square of twice the exact root in units is four times `n`.
    assert(g * g == 4real * (rx * w)) by {
        lemma_double_square(h);
        lemma_ring(h, r, w);
        lemma_ring(r, w, r);
        lemma_ring(w, r, r);
        lemma_ring(r, r, w);
        lemma_ring(w, r * r, w);
        lemma_ring(r, r * w, w);
        lemma_ring(r * r, w, w);
        lemma_ring(number(a), w, w);
        lemma_ring(w, number(a), 0real);
        assert(h * h == rx * w);
    }
    lemma_integer_signed_product(x as int, u as int);
    let below = doubled_midpoint((k - 1) as nat);
    let above = doubled_midpoint(k);
    lemma_integer_signed_product(below as int, below as int);
    lemma_integer_signed_product(above as int, above as int);
    lemma_positive(r, w);
    lemma_square_order(below as real, g);
    lemma_square_order(g, above as real);
    let c = number(a.root());
    let d = (c - r) * 16777216real;
    assert(w * d == (2real * rv - g) * 8388608real) by {
        lemma_ring(w, c, r);
        lemma_ring(r, w, 0real);
        lemma_ring(w, c - r, 16777216real);
    }
    assert(-(2real * h) <= w * d <= 2real * h);
    lemma_ring(2real, r, w);
    lemma_cancel_bound(w, d, 2real * r);
}

/// The pattern of a root is in the normal range.
proof fn lemma_root_bounds(a: Single, k: nat)
    requires
        a.is_finite(),
        !a.negative(),
        !a.is_zero(),
        is_moderate(number(a)),
        crate::grid::is_nearest_root(magnitude(a.pattern()) * pow2(149), k),
    ensures
        BINADE < k < INFINITY,
{
    let u = pow2(149);
    let x = magnitude(a.pattern());
    let n = x * u;
    lemma_zero(a.pattern());
    lemma_number(a);
    lemma_unit_large();
    assert(n >= u) by (nonlinear_arith)
        requires
            n == x * u,
            x >= 1,
    ;
    if k <= BINADE {
        lemma_increasing(k, BINADE as nat);
        lemma_increasing(k + 1, BINADE as nat + 1);
        crate::arithmetic::lemma_small_magnitude(BINADE as nat);
        crate::arithmetic::lemma_small_magnitude(BINADE as nat + 1);
        let m = doubled_midpoint(k);
        assert(m * m <= 0x200_0000 * 0x200_0000) by (nonlinear_arith)
            requires
                0 <= m <= 0x200_0000,
        ;
    }
    if k == INFINITY {
        let m = doubled_midpoint((k - 1) as nat);
        lemma_limit();
        lemma_increasing((INFINITY - 1) as nat, INFINITY as nat);
        let t = pow2(270);
        assert(x <= t && u <= t) by {
            let w = u as real;
            lemma_not_negative(w, 1099511627776real - number(a));
            lemma_ring(w, 1099511627776real, number(a));
            assert(x as real <= w * 1099511627776real);
            lemma_pow2_adds(149, 121);
            lemma_pow2_strictly_increases(40, 121);
            lemma_pow2_strictly_increases(149, 270);
            assert(pow2(40) == 0x100_0000_0000) by {
                vstd::arithmetic::power2::lemma2_to64_rest();
            }
            let q = pow2(121);
            assert(u * 0x100_0000_0000 <= u * q) by (nonlinear_arith)
                requires
                    q >= 0x100_0000_0000,
            ;
        }
        assert(4 * n < m * m) by (nonlinear_arith)
            requires
                n == x * u,
                x <= t,
                u <= t,
                m >= 8 * t,
                t > 0,
        ;
    }
}

/// A larger size and more roundings.
proof fn lemma_follow_weaker(x: Single, e: real, s: (real, real), n: (real, real))
    requires
        follows(x, e, s.0, n.0),
        s.0 <= s.1,
        is_moderate(s.1),
        n.0 <= n.1 <= 48real,
    ensures
        follows(x, e, s.1, n.1),
{
    lemma_not_negative(n.1 - n.0, s.0);
    lemma_ring(s.0, n.1, n.0);
    lemma_ring(n.1 - n.0, s.0, 0real);
    lemma_ring(n.1, s.0, 0real);
    lemma_ring(n.0, s.0, 0real);
    lemma_not_negative(n.1, s.1 - s.0);
    lemma_ring(n.1, s.1, s.0);
}

/// Whether a number is an exact one to within one part in 2 to the 18 of a size.
pub open spec fn is_true_to(x: Single, e: real, s: real) -> bool {
    &&& x.is_finite()
    &&& -s <= (number(x) - e) * 262144real <= s
}

/// A number that follows an exact one is true to it.
proof fn lemma_true(x: Single, e: real, s: (real, real), n: real)
    requires
        follows(x, e, s.0, n),
        s.0 <= s.1,
        is_moderate(s.1),
    ensures
        is_true_to(x, e, s.1),
{
    lemma_follow_weaker(x, e, s, (n, 48real));
}

/// A quotient is above or below what its parts are.
proof fn lemma_quotient_order(s: real, g: real, m: real)
    requires
        g > 0real,
    ensures
        s <= m * g ==> s / g <= m,
        m * g <= s ==> m <= s / g,
{
    let t = s / g;
    lemma_quotient(s, g);
    if t > m {
        lemma_positive(t - m, g);
        lemma_ring(g, t, m);
        lemma_ring(t - m, g, 0real);
        lemma_ring(t, g, 0real);
        lemma_ring(m, g, 0real);
    }
    if t < m {
        lemma_positive(m - t, g);
        lemma_ring(g, m, t);
        lemma_ring(m - t, g, 0real);
        lemma_ring(t, g, 0real);
        lemma_ring(m, g, 0real);
    }
}

/// Whether a size is between 2 to the power -20 and 2 to the 20.
spec fn is_mild(s: real) -> bool {
    1real <= s * 1048576real && s <= 1048576real
}

/// Products of mild sizes are moderate.
proof fn lemma_moderate_product(s: real, t: real)
    requires
        is_mild(s),
        is_mild(t),
    ensures
        is_moderate(s * t),
        s * t > 0real,
{
    lemma_positive(s, t);
    lemma_not_negative(1048576real - s, t);
    lemma_ring(t, 1048576real, s);
    lemma_ring(1048576real - s, t, 0real);
    lemma_ring(s, t, 0real);
    lemma_not_negative(s * 1048576real - 1real, t);
    lemma_ring(t, s * 1048576real, 1real);
    lemma_ring(s * 1048576real - 1real, t, 0real);
    lemma_ring(t, s, 1048576real);
}

/// The constants as real numbers.
proof fn lemma_numbers()
    ensures
        follows(Single { bits: ONE }, 1real, 1real, 0real),
        follows(Single { bits: HALF }, 1real / 2real, 1real / 2real, 0real),
        follows(Single { bits: TWO }, 2real, 2real, 0real),
        follows(Single { bits: MINUS_TWO }, -2real, 2real, 0real),
{
    let two = Single { bits: TWO };
    lemma_number_one();
    lemma_number_half();
    lemma_small_powers();
    lemma_power(1);
    lemma_pow2_adds(1, 149);
    assert(pow2(1) == 2) by {
        vstd::arithmetic::power2::lemma2_to64();
    }
    let u = pow2(149) as real;
    lemma_ring(u, 2real, 0real);
    assert(two.value() == 2 * pow2(149));
    lemma_same_quotient(2real * u, u, 2real);
    lemma_follow_opposite(two, 2real, 2real, 0real);
    assert(two.opposite() == (Single { bits: MINUS_TWO }));
}

/// A number follows itself.
proof fn lemma_follow_itself(x: Single, s: real)
    requires
        x.is_finite(),
        -s <= number(x) <= s,
        is_moderate(s),
    ensures
        follows(x, number(x), s, 0real),
{
    lemma_ring(0real, s, 0real);
    lemma_ring(s, 0real, 0real);
}

/// Whether a cosine and a sine are between minus one and one, and a quality
/// between 2 to the power -10 and 2 to the 10.
pub open spec fn can_pass(cos_w: Single, sin_w: Single, q: Single) -> bool {
    &&& cos_w.is_finite()
    &&& -1real <= number(cos_w) <= 1real
    &&& sin_w.is_finite()
    &&& -1real <= number(sin_w) <= 1real
    &&& q.is_finite()
    &&& 1real <= number(q) * 1024real
    &&& number(q) <= 1024real
}

/// Whether an amplitude is between 2 to the power -16 and 2 to the 16: gains of
/// up to 192 dB.
pub open spec fn can_shape(a: Single) -> bool {
    &&& a.is_finite()
    &&& 1real <= number(a) * 65536real
    &&& number(a) <= 65536real
}

/// Twice a quality.
proof fn lemma_twice(q: Single)
    requires
        q.is_finite(),
        1real <= number(q) * 1024real,
        number(q) <= 1024real,
    ensures
        number((Single { bits: TWO }) * q) == 2real * number(q),
        ((Single { bits: TWO }) * q).is_finite(),
{
    let w = pow2(149) as real;
    lemma_number(q);
    lemma_not_negative(w, 1024real - number(q));
    lemma_ring(w, 1024real, number(q));
    lemma_positive(w, number(q));
    lemma_power(10);
    lemma_pow2_adds(149, 10);
    assert(pow2(10) == 1024) by {
        vstd::arithmetic::power2::lemma2_to64();
    }
    if q.pattern() > power_pattern(10) {
        lemma_increasing(power_pattern(10), q.pattern());
    }
    lemma_number_doubled(q);
    lemma_power(11);
    crate::stability::lemma_two_times(q);
}

/// The bandwidth term.
proof fn lemma_alpha(cos_w: Single, sin_w: Single, q: Single)
    requires
        can_pass(cos_w, sin_w, q),
    ensures
        ({
            let alpha = sin_w / ((Single { bits: TWO }) * q);
            let size = 1real / (2real * number(q));
            &&& follows(alpha, number(sin_w) / (2real * number(q)), size, 2real)
            &&& size <= 512real
            &&& 1real <= size * 2048real
        }),
{
    let g = 2real * number(q);
    lemma_twice(q);
    lemma_follow_itself(sin_w, 1real);
    lemma_quotient_order(1real, g, 512real);
    lemma_quotient_order(1real, g, 1real / 2048real);
    lemma_follow_quotient(
        sin_w,
        (Single { bits: TWO }) * q,
        number(sin_w),
        1real,
        0real,
    );
}

/// One more or less than a number that follows an exact one.
proof fn lemma_around_one(x: Single, e: real, s: real, n: real)
    requires
        follows(x, e, s, n),
        is_moderate(1real + s),
        n <= 46real,
    ensures
        follows((Single { bits: ONE }) + x, 1real + e, 1real + s, n + 2real),
        follows((Single { bits: ONE }) - x, 1real - e, 1real + s, n + 2real),
{
    let one = Single { bits: ONE };
    lemma_numbers();
    lemma_follow_weaker(one, 1real, (1real, 1real), (0real, n));
    lemma_follow_sum(one, x, (1real, e), (1real, s), n);
    lemma_follow_difference(one, x, (1real, e), (1real, s), n);
}

/// Whether the taps of a transfer function are true to those of an exact one, with
/// terms of the size `b` for the input and of the size `a` for the output.
pub open spec fn has_true_taps(t: Transfer, e: Exact, b: real, a: real) -> bool {
    &&& is_true_to(t.b0, e.b0, b)
    &&& is_true_to(t.b1, e.b1, b)
    &&& is_true_to(t.b2, e.b2, b)
    &&& is_true_to(t.a0, e.a0, a)
    &&& is_true_to(t.a1, e.a1, a)
    &&& is_true_to(t.a2, e.a2, a)
}

/// The middle tap of all shapes but the shelves.
proof fn lemma_middle(cos_w: Single)
    requires
        cos_w.is_finite(),
        -1real <= number(cos_w) <= 1real,
    ensures
        follows((Single { bits: MINUS_TWO }) * cos_w, -2real * number(cos_w), 2real, 2real),
{
    lemma_numbers();
    lemma_follow_itself(cos_w, 1real);
    lemma_follow_product(
        Single { bits: MINUS_TWO },
        cos_w,
        (-2real, number(cos_w)),
        (2real, 1real),
        (0real, 0real),
    );
    let m = Single { bits: MINUS_TWO };
    assert(2real * 1real == 2real && 0real + 2real * 0real + 2real == 2real);
    let n = 0real + 2real * 0real + 2real;
    assert(follows(m * cos_w, -2real * number(cos_w), 2real * 1real, n));
}

/// The sections of the crossover have the taps of their transfer functions, for
/// any quality in range.
pub proof fn law_crossover_by_the_book(
    kind: FilterKind,
    cos_w: Single,
    sin_w: Single,
    q: Single,
    a: Single,
    s: Settings,
)
    requires
        !kind.takes_gain(),
        can_pass(cos_w, sin_w, q),
        s.cos_w == number(cos_w),
        s.sin_w == number(sin_w),
        s.q == number(q),
    ensures
        ({
            let size = 2real + 1real / (2real * number(q));
            has_true_taps(Transfer::of(kind, cos_w, sin_w, q, a), Exact::of(kind, s), size, size)
        }),
{
    let (one, half) = (Single { bits: ONE }, Single { bits: HALF });
    let c = number(cos_w);
    let alpha = sin_w / ((Single { bits: TWO }) * q);
    let (e, z) = (number(sin_w) / (2real * number(q)), 1real / (2real * number(q)));
    let size = 2real + z;
    lemma_numbers();
    lemma_alpha(cos_w, sin_w, q);
    lemma_around_one(alpha, e, z, 2real);
    lemma_middle(cos_w);
    lemma_follow_itself(cos_w, 1real);
    lemma_around_one(cos_w, c, 1real, 0real);
    let (m, p) = (one - cos_w, one + cos_w);
    let h = 1real / 2real;
    lemma_follow_product(m, half, (1real - c, h), (2real, h), (2real, 0real));
    lemma_follow_product(p, half, (1real + c, h), (2real, h), (2real, 0real));
    lemma_follow_opposite(p, 1real + c, 2real, 2real);
    assert(2real * (1real / 2real) == 1real && 2real + 2real * 0real + 2real == 4real);
    assert(follows(m * half, (1real - c) * (1real / 2real), 1real, 4real));
    assert(follows(p * half, (1real + c) * (1real / 2real), 1real, 4real));
    lemma_true(m * half, (1real - c) * (1real / 2real), (1real, size), 4real);
    lemma_true(p * half, (1real + c) * (1real / 2real), (1real, size), 4real);
    lemma_true(m, 1real - c, (2real, size), 2real);
    lemma_true(p.opposite(), -(1real + c), (2real, size), 2real);
    lemma_true(one + alpha, 1real + e, (1real + z, size), 4real);
    lemma_true(one - alpha, 1real - e, (1real + z, size), 4real);
    lemma_true((Single { bits: MINUS_TWO }) * cos_w, -2real * c, (2real, size), 2real);
}

/// A peak has the taps of its transfer function, for any quality and gain in range.
pub proof fn law_peak_by_the_book(
    cos_w: Single,
    sin_w: Single,
    q: Single,
    a: Single,
    s: Settings,
)
    requires
        can_pass(cos_w, sin_w, q),
        can_shape(a),
        are_settings(s, cos_w, sin_w, q, a),
    ensures
        ({
            let z = 1real / (2real * number(q));
            has_true_taps(
                Transfer::of(FilterKind::Peaking, cos_w, sin_w, q, a),
                Exact::of(FilterKind::Peaking, s),
                2real + z * number(a),
                2real + z / number(a),
            )
        }),
{
    let one = Single { bits: ONE };
    let (c, g) = (number(cos_w), number(a));
    let alpha = sin_w / ((Single { bits: TWO }) * q);
    let (e, z) = (number(sin_w) / (2real * number(q)), 1real / (2real * number(q)));
    lemma_alpha(cos_w, sin_w, q);
    lemma_middle(cos_w);
    lemma_follow_itself(a, g);
    lemma_moderate_product(z, g);
    lemma_follow_product(alpha, a, (e, g), (z, g), (2real, 0real));
    lemma_quotient_order(z, g, 34359738368real);
    lemma_quotient_order(z, g, 1real / 1099511627776real);
    lemma_follow_quotient(alpha, a, e, z, 2real);
    let (t, v) = (2real + z * g, 2real + z / g);
    assert(z * g <= 33554432real) by {
        lemma_not_negative(512real - z, g);
        lemma_ring(g, 512real, z);
        lemma_ring(512real - z, g, 0real);
        lemma_ring(z, g, 0real);
    }
    lemma_around_one(alpha * a, e * g, z * g, 4real);
    lemma_around_one(alpha / a, e / g, z / g, 4real);
    lemma_true(one + alpha * a, 1real + e * g, (1real + z * g, t), 6real);
    lemma_true(one - alpha * a, 1real - e * g, (1real + z * g, t), 6real);
    lemma_true(one + alpha / a, 1real + e / g, (1real + z / g, v), 6real);
    lemma_true(one - alpha / a, 1real - e / g, (1real + z / g, v), 6real);
    lemma_true((Single { bits: MINUS_TWO }) * cos_w, -2real * c, (2real, t), 2real);
    lemma_true((Single { bits: MINUS_TWO }) * cos_w, -2real * c, (2real, v), 2real);
}

/// The product of two numbers that follow exact ones, of a size and with roundings
/// that are given.
proof fn lemma_product_is(
    x: Single,
    y: Single,
    e: (real, real),
    s: (real, real),
    n: (real, real),
    size: real,
    count: real,
)
    requires
        follows(x, e.0, s.0, n.0),
        follows(y, e.1, s.1, n.1),
        is_mild(s.0),
        is_mild(s.1),
        s.0 * s.1 == size,
        n.0 + 2real * n.1 + 2real == count,
        count <= 48real,
    ensures
        follows(x * y, e.0 * e.1, size, count),
{
    lemma_moderate_product(s.0, s.1);
    lemma_follow_product(x, y, e, s, n);
}

/// The size of the root of an amplitude.
proof fn lemma_root_size(g: real, r: real)
    requires
        1real <= g * 65536real,
        g <= 65536real,
        r > 0real,
        r * r == g,
    ensures
        r <= 256real,
        1real <= r * 256real,
        2real * r <= g + 1real,
{
    lemma_square_order(r, 256real);
    lemma_square_order(1real / 256real, r);
    lemma_ring(r - 1real, r, 1real);
    lemma_ring(r, r, 1real);
    lemma_ring(r, r - 1real, 0real);
    if r >= 1real {
        lemma_not_negative(r - 1real, r - 1real);
    } else {
        lemma_not_negative(1real - r, 1real - r);
        lemma_ring(1real - r, 1real, r);
        lemma_ring(r, 1real, r);
        lemma_ring(r, 1real - r, 0real);
    }
}

/// The term of a shelf that holds the root of the amplitude.
proof fn lemma_root_term(sin_w: Single, a: Single, s: Settings)
    requires
        sin_w.is_finite(),
        -1real <= number(sin_w) <= 1real,
        can_shape(a),
        s.sin_w == number(sin_w),
        s.root_a > 0real,
        s.amplitude() == number(a),
        s.root_2 > 0real,
        s.root_2 * s.root_2 == 2real,
    ensures
        follows(
            Transfer::shelf_term(sin_w, a),
            2real * s.root_a * (s.sin_w * (1real / 2real) * s.root_2),
            number(a) + 1real,
            20real,
        ),
{
    let (half, two) = (Single { bits: HALF }, Single { bits: TWO });
    let sqrt = Single { bits: SQRT_2 };
    let (e, g, r) = (number(sin_w), number(a), s.root_a);
    lemma_numbers();
    lemma_number(a);
    lemma_positive(pow2(149) as real, g);
    lemma_root_size(g, r);
    lemma_follow_root(a, r);
    lemma_follow_itself(sin_w, 1real);
    lemma_root_of_two_close(s.root_2);
    assert(follows(sqrt, s.root_2, 2real, 1real));
    lemma_product_is(
        sin_w,
        half,
        (e, 1real / 2real),
        (1real, 1real / 2real),
        (0real, 0real),
        1real / 2real,
        2real,
    );
    let f = e * (1real / 2real);
    lemma_product_is(
        sin_w * half,
        sqrt,
        (f, s.root_2),
        (1real / 2real, 2real),
        (2real, 1real),
        1real,
        6real,
    );
    let alpha = sin_w * half * sqrt;
    lemma_product_is(
        two,
        a.root(),
        (2real, r),
        (2real, r),
        (0real, 2real),
        2real * r,
        6real,
    );
    lemma_product_is(
        two * a.root(),
        alpha,
        (2real * r, f * s.root_2),
        (2real * r, 1real),
        (6real, 6real),
        2real * r,
        20real,
    );
    lemma_follow_weaker(
        Transfer::shelf_term(sin_w, a),
        2real * r * (f * s.root_2),
        (2real * r, g + 1real),
        (20real, 20real),
    );
}

/// The sums of a shelf: of an outer tap, without the root, and of a middle tap.
/// Up or down are the sign of the cosine in them.
proof fn lemma_shelf_sums(cos_w: Single, a: Single)
    requires
        cos_w.is_finite(),
        -1real <= number(cos_w) <= 1real,
        can_shape(a),
    ensures
        ({
            let (c, g) = (number(cos_w), number(a));
            let p = a + Single { bits: ONE };
            let m = a - Single { bits: ONE };
            let z = 2real * (g + 1real);
            &&& follows(p + m * cos_w, (g + 1real) + (g - 1real) * c, z, 6real)
            &&& follows(p - m * cos_w, (g + 1real) - (g - 1real) * c, z, 6real)
            &&& follows(m + p * cos_w, (g - 1real) + (g + 1real) * c, z, 6real)
            &&& follows(m - p * cos_w, (g - 1real) - (g + 1real) * c, z, 6real)
        }),
{
    let one = Single { bits: ONE };
    let (c, g) = (number(cos_w), number(a));
    let (p, m) = (a + one, a - one);
    let t = g + 1real;
    lemma_numbers();
    lemma_follow_itself(a, g);
    lemma_follow_itself(cos_w, 1real);
    lemma_follow_sum(a, one, (g, 1real), (g, 1real), 0real);
    lemma_follow_difference(a, one, (g, 1real), (g, 1real), 0real);
    assert(follows(p, g + 1real, t, 2real));
    assert(follows(m, g - 1real, t, 2real));
    lemma_ring(t, 1real, 0real);
    lemma_product_is(p, cos_w, (g + 1real, c), (t, 1real), (2real, 0real), t, 4real);
    lemma_product_is(m, cos_w, (g - 1real, c), (t, 1real), (2real, 0real), t, 4real);
    lemma_follow_weaker(p, g + 1real, (t, t), (2real, 4real));
    lemma_follow_weaker(m, g - 1real, (t, t), (2real, 4real));
    let (x, y) = ((g + 1real) * c, (g - 1real) * c);
    lemma_follow_sum(p, m * cos_w, (g + 1real, y), (t, t), 4real);
    lemma_follow_difference(p, m * cos_w, (g + 1real, y), (t, t), 4real);
    lemma_follow_sum(m, p * cos_w, (g - 1real, x), (t, t), 4real);
    lemma_follow_difference(m, p * cos_w, (g - 1real, x), (t, t), 4real);
    assert(t + t == 2real * t && 4real + 2real == 6real);
}

/// The outer taps of a shelf, with and without the factor of the amplitude: `z` is
/// their sum without the root, `t` the term with it.
proof fn lemma_outer(z: Single, t: Single, a: Single, x: real, y: real)
    requires
        can_shape(a),
        follows(z, x, 2real * (number(a) + 1real), 6real),
        follows(t, y, number(a) + 1real, 20real),
    ensures
        ({
            let g = number(a);
            let (b, d) = (4real * (g * (g + 1real)), 4real * (g + 1real));
            &&& is_true_to(z + t, x + y, d)
            &&& is_true_to(z - t, x - y, d)
            &&& is_true_to(a * (z + t), g * (x + y), b)
            &&& is_true_to(a * (z - t), g * (x - y), b)
        }),
{
    let g = number(a);
    let v = g + 1real;
    let (b, d) = (4real * (g * v), 4real * v);
    lemma_follow_weaker(z, x, (2real * v, 2real * v), (6real, 20real));
    lemma_follow_sum(z, t, (x, y), (2real * v, v), 20real);
    lemma_follow_difference(z, t, (x, y), (2real * v, v), 20real);
    assert(2real * v + v == 3real * v && 20real + 2real == 22real);
    assert(follows(z + t, x + y, 3real * v, 22real));
    assert(follows(z - t, x - y, 3real * v, 22real));
    lemma_follow_itself(a, g);
    let w = g * (3real * v);
    lemma_product_is(a, z + t, (g, x + y), (g, 3real * v), (0real, 22real), w, 46real);
    lemma_product_is(a, z - t, (g, x - y), (g, 3real * v), (0real, 22real), w, 46real);
    lemma_moderate_product(g, 4real * v);
    lemma_moderate_product(g, v);
    assert(w == 3real * (g * v) && g * (4real * v) == b) by {
        lemma_ring(g, 3real, v);
        lemma_ring(3real, g, v);
        lemma_ring(g, 4real, v);
        lemma_ring(4real, g, v);
    }
    lemma_true(z + t, x + y, (3real * v, d), 22real);
    lemma_true(z - t, x - y, (3real * v, d), 22real);
    lemma_true(a * (z + t), g * (x + y), (w, b), 46real);
    lemma_true(a * (z - t), g * (x - y), (w, b), 46real);
}

/// The middle taps of a shelf, with and without the factor of the amplitude.
proof fn lemma_middles(z: Single, a: Single, x: real)
    requires
        can_shape(a),
        follows(z, x, 2real * (number(a) + 1real), 6real),
    ensures
        ({
            let g = number(a);
            let (two, minus) = (Single { bits: TWO }, Single { bits: MINUS_TWO });
            let (b, d) = (4real * (g * (g + 1real)), 4real * (g + 1real));
            &&& is_true_to(two * z, 2real * x, d)
            &&& is_true_to(minus * z, -2real * x, d)
            &&& is_true_to(two * a * z, 2real * g * x, b)
            &&& is_true_to(minus * a * z, -2real * g * x, b)
        }),
{
    let (two, minus) = (Single { bits: TWO }, Single { bits: MINUS_TWO });
    let g = number(a);
    let v = g + 1real;
    let (b, d) = (4real * (g * v), 4real * v);
    let h = 2real * v;
    lemma_numbers();
    lemma_follow_itself(a, g);
    lemma_product_is(two, z, (2real, x), (2real, h), (0real, 6real), d, 14real);
    lemma_product_is(minus, z, (-2real, x), (2real, h), (0real, 6real), d, 14real);
    lemma_product_is(two, a, (2real, g), (2real, g), (0real, 0real), 2real * g, 2real);
    lemma_product_is(minus, a, (-2real, g), (2real, g), (0real, 0real), 2real * g, 2real);
    lemma_moderate_product(2real * g, h);
    assert(2real * g * h == b) by {
        lemma_ring(2real * g, 2real, v);
        lemma_ring(2real, g, v);
        lemma_ring(2real * g, v, 0real);
        lemma_ring(2real, 2real * g, v);
    }
    lemma_product_is(two * a, z, (2real * g, x), (2real * g, h), (2real, 6real), b, 16real);
    lemma_product_is(minus * a, z, (-2real * g, x), (2real * g, h), (2real, 6real), b, 16real);
    lemma_true(two * z, 2real * x, (d, d), 14real);
    lemma_true(minus * z, -2real * x, (d, d), 14real);
    lemma_true(two * a * z, 2real * g * x, (b, b), 16real);
    lemma_true(minus * a * z, -2real * g * x, (b, b), 16real);
}

/// The shelves have the taps of their transfer functions, for any gain in range.
pub proof fn law_shelves_by_the_book(
    kind: FilterKind,
    cos_w: Single,
    sin_w: Single,
    q: Single,
    a: Single,
    s: Settings,
)
    requires
        kind is LowShelf || kind is HighShelf,
        can_pass(cos_w, sin_w, q),
        can_shape(a),
        are_settings(s, cos_w, sin_w, q, a),
    ensures
        ({
            let g = number(a);
            has_true_taps(
                Transfer::of(kind, cos_w, sin_w, q, a),
                Exact::of(kind, s),
                4real * (g * (g + 1real)),
                4real * (g + 1real),
            )
        }),
{
    let one = Single { bits: ONE };
    let (c, g) = (number(cos_w), number(a));
    let (p, m) = (a + one, a - one);
    let t = Transfer::shelf_term(sin_w, a);
    let y = 2real * s.root_a * (s.sin_w * (1real / 2real) * s.root_2);
    lemma_root_term(sin_w, a, s);
    lemma_shelf_sums(cos_w, a);
    lemma_outer(p + m * cos_w, t, a, (g + 1real) + (g - 1real) * c, y);
    lemma_outer(p - m * cos_w, t, a, (g + 1real) - (g - 1real) * c, y);
    lemma_middles(m + p * cos_w, a, (g - 1real) + (g + 1real) * c);
    lemma_middles(m - p * cos_w, a, (g - 1real) - (g + 1real) * c);
}

/// Whether coefficients are those of a transfer function divided by its first
/// output tap: each times that tap is the tap it comes from, to within one part
/// in 2 to the 20 of it and a very small number.
pub open spec fn is_normalized(t: Transfer, c: Coefficients) -> bool {
    &&& is_share(t.b0, t.a0, c.b0)
    &&& is_share(t.b1, t.a0, c.b1)
    &&& is_share(t.b2, t.a0, c.b2)
    &&& is_share(t.a1, t.a0, c.a1)
    &&& is_share(t.a2, t.a0, c.a2)
}

/// Whether `c` is `x` over `d`, for numbers of moderate size.
pub open spec fn is_share(x: Single, d: Single, c: Single) -> bool {
    let m = size(number(x)) + 1real / 1048576real;
    let in_range = {
        &&& x.is_finite()
        &&& -524288real <= number(x) <= 524288real
        &&& d.is_finite()
        &&& 1real <= number(d) * 1048576real
        &&& number(d) <= 1048576real
    };
    in_range ==> {
        &&& c.is_finite()
        &&& -m <= (number(c) * number(d) - number(x)) * 1048576real <= m
    }
}

/// The absolute value of a real number.
pub open spec fn size(x: real) -> real {
    if x < 0real {
        -x
    } else {
        x
    }
}

/// A tap times the rounded inverse of another is their quotient.
proof fn lemma_share(x: Single, d: Single)
    ensures
        is_share(x, d, x * ((Single { bits: ONE }) / d)),
{
    let one = Single { bits: ONE };
    let inv = one / d;
    let c = x * inv;
    let (f, g) = (number(x), number(d));
    let m = size(f) + 1real / 1048576real;
    if x.is_finite() && -524288real <= f <= 524288real && d.is_finite() && 1real <= g * 1048576real
        && g <= 1048576real {
        let v = 1real / g;
        lemma_numbers();
        lemma_quotient(1real, g);
        lemma_quotient_order(1real, g, 1048576real);
        lemma_quotient_order(1real, g, 1real / 1048576real);
        lemma_follow_quotient(one, d, 1real, 1real, 0real);
        lemma_follow_itself(x, m);
        lemma_product_is(x, inv, (f, v), (m, v), (0real, 2real), m * v, 6real);
        let h = number(c);
        let e = (h - f * v) * 16777216real;
        assert(g * e == (h * g - f) * 16777216real) by {
            lemma_ring(g, h, f * v);
            lemma_ring(h, g, 0real);
            lemma_ring(f, v, g);
            lemma_ring(f * v, g, 0real);
            lemma_ring(g, h - f * v, 16777216real);
            lemma_ring(f, 1real, 0real);
        }
        let n = 6real * (m * v);
        lemma_scaled_bound(g, e, n);
        assert(n * g == 6real * m) by {
            lemma_ring(6real, m * v, g);
            lemma_ring(m, v, g);
            lemma_ring(m, 1real, 0real);
        }
    }
}

/// Normalization divides every tap by the first output tap.
pub proof fn law_normalization_divides(t: Transfer)
    ensures
        is_normalized(t, t.normalized()),
{
    lemma_share(t.b0, t.a0);
    lemma_share(t.b1, t.a0);
    lemma_share(t.b2, t.a0);
    lemma_share(t.a1, t.a0);
    lemma_share(t.a2, t.a0);
}

/// Whether a transfer function is that of a shape, for a cosine and a sine of its
/// angle, its quality, and its amplitude.
pub open spec fn is_by_the_book(
    t: Transfer,
    kind: FilterKind,
    cos_w: Single,
    sin_w: Single,
    q: Single,
    a: Single,
) -> bool {
    let g = number(a);
    let z = 1real / (2real * number(q));
    match kind {
        FilterKind::LowPass | FilterKind::HighPass | FilterKind::AllPass => forall|s: Settings|
            {
                &&& can_pass(cos_w, sin_w, q)
                &&& s.cos_w == number(cos_w)
                &&& s.sin_w == number(sin_w)
                &&& s.q == number(q)
            } ==> has_true_taps(t, #[trigger] Exact::of(kind, s), 2real + z, 2real + z),
        FilterKind::Peaking => forall|s: Settings|
            can_pass(cos_w, sin_w, q) && can_shape(a) && #[trigger] are_settings(
                s,
                cos_w,
                sin_w,
                q,
                a,
            ) ==> has_true_taps(t, Exact::of(kind, s), 2real + z * g, 2real + z / g),
        FilterKind::LowShelf | FilterKind::HighShelf => forall|s: Settings|
            can_pass(cos_w, sin_w, q) && can_shape(a) && #[trigger] are_settings(
                s,
                cos_w,
                sin_w,
                q,
                a,
            ) ==> has_true_taps(
                t,
                Exact::of(kind, s),
                4real * (g * (g + 1real)),
                4real * (g + 1real),
            ),
    }
}

/// The transfer functions are those of the shapes, in range.
pub proof fn law_by_the_book(kind: FilterKind, cos_w: Single, sin_w: Single, q: Single, a: Single)
    ensures
        is_by_the_book(Transfer::of(kind, cos_w, sin_w, q, a), kind, cos_w, sin_w, q, a),
{
    let t = Transfer::of(kind, cos_w, sin_w, q, a);
    let g = number(a);
    let z = 1real / (2real * number(q));
    if !can_pass(cos_w, sin_w, q) {
    } else if !kind.takes_gain() {
        assert forall|s: Settings|
            s.cos_w == number(cos_w) && s.sin_w == number(sin_w) && s.q == number(
                q,
            ) implies has_true_taps(t, #[trigger] Exact::of(kind, s), 2real + z, 2real + z) by {
            law_crossover_by_the_book(kind, cos_w, sin_w, q, a, s);
        }
    } else if can_shape(a) && kind is Peaking {
        assert forall|s: Settings| #[trigger]
            are_settings(s, cos_w, sin_w, q, a) implies has_true_taps(
            t,
            Exact::of(kind, s),
            2real + z * g,
            2real + z / g,
        ) by {
            law_peak_by_the_book(cos_w, sin_w, q, a, s);
        }
    } else if can_shape(a) {
        assert forall|s: Settings| #[trigger]
            are_settings(s, cos_w, sin_w, q, a) implies has_true_taps(
            t,
            Exact::of(kind, s),
            4real * (g * (g + 1real)),
            4real * (g + 1real),
        ) by {
            law_shelves_by_the_book(kind, cos_w, sin_w, q, a, s);
        }
    }
}

} // verus!
