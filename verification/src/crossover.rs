//! The bands of the crossover sum back to flat, in exact arithmetic.
use vstd::prelude::*;

use crate::biquad::FilterKind;
use crate::engine::{high_plan, low_plan, mid_plan, F_LOW_MID};
use crate::exact::{
    law_crossover_point_sums_to_all_pass, law_stable, lemma_positive, lemma_quotient, lemma_ring,
    lemma_valid, product, sum, Exact, Quartic, Settings,
};

verus! {

/// A complex number.
pub struct Complex {
    pub re: real,
    pub im: real,
}

impl Complex {
    pub open spec fn plus(self, other: Complex) -> Complex {
        Complex { re: self.re + other.re, im: self.im + other.im }
    }

    pub open spec fn times(self, other: Complex) -> Complex {
        Complex {
            re: self.re * other.re - self.im * other.im,
            im: self.re * other.im + self.im * other.re,
        }
    }

    /// The square of the magnitude.
    pub open spec fn norm(self) -> real {
        self.re * self.re + self.im * self.im
    }

    /// The quotient by a number that is not zero.
    pub open spec fn over(self, other: Complex) -> Complex {
        let n = other.norm();
        Complex {
            re: (self.re * other.re + self.im * other.im) / n,
            im: (self.im * other.re - self.re * other.im) / n,
        }
    }

    pub open spec fn is_zero(self) -> bool {
        self.re == 0real && self.im == 0real
    }
}

/// The polynomial with these coefficients at `z`.
pub open spec fn quadratic_at(c0: real, c1: real, c2: real, z: Complex) -> Complex {
    let z2 = z.times(z);
    Complex { re: c0 + c1 * z.re + c2 * z2.re, im: c1 * z.im + c2 * z2.im }
}

/// The polynomial of degree four at `z`.
pub open spec fn quartic_at(q: Quartic, z: Complex) -> Complex {
    let z2 = z.times(z);
    let z3 = z2.times(z);
    let z4 = z2.times(z2);
    Complex {
        re: q.c0 + q.c1 * z.re + q.c2 * z2.re + q.c3 * z3.re + q.c4 * z4.re,
        im: q.c1 * z.im + q.c2 * z2.im + q.c3 * z3.im + q.c4 * z4.im,
    }
}

/// Products of sums and differences of two numbers.
proof fn lemma_binomials(a: real, b: real, c: real, d: real)
    ensures
        (a + b) * (c + d) == a * c + a * d + b * c + b * d,
        (a - b) * (c + d) == a * c + a * d - b * c - b * d,
        (a - b) * (c - d) == a * c - a * d - b * c + b * d,
{
    lemma_ring(a + b, c, d);
    lemma_ring(a - b, c, d);
    lemma_ring(c, a, b);
    lemma_ring(d, a, b);
}

/// The product of sums of three numbers.
proof fn lemma_trinomials(a: real, b: real, c: real, d: real, e: real, f: real)
    ensures
        (a + b + c) * (d + e + f) == a * d + a * e + a * f + b * d + b * e + b * f + c * d + c * e
            + c * f,
        (a + b + c) * (d + e) == a * d + a * e + b * d + b * e + c * d + c * e,
        (d + e) * (a + b + c) == d * a + e * a + d * b + e * b + d * c + e * c,
{
    let x = a + b + c;
    lemma_ring(x, d + e, f);
    lemma_ring(x, d, e);
    lemma_ring(d + e, a + b, c);
    lemma_ring(d + e, a, b);
    lemma_spread(d, e, a);
    lemma_spread(d, e, b);
    lemma_spread(d, e, c);
    lemma_ring(d, a + b, c);
    lemma_ring(d, a, b);
    lemma_ring(e, a + b, c);
    lemma_ring(e, a, b);
    lemma_ring(f, a + b, c);
    lemma_ring(f, a, b);
}

/// The product of two products.
proof fn lemma_regroup(k: real, u: real, m: real, v: real)
    ensures
        (k * u) * (m * v) == (k * m) * (u * v),
{
    lemma_ring(k, u, m * v);
    lemma_ring(u, m, v);
    lemma_ring(m, u, v);
    lemma_ring(k, m, u * v);
}

/// A number times a sum or a difference, on the right.
proof fn lemma_spread(a: real, b: real, k: real)
    ensures
        (a + b) * k == a * k + b * k,
        (a - b) * k == a * k - b * k,
{
    lemma_ring(k, a, b);
    lemma_ring(k, a + b, 0real);
    lemma_ring(k, a - b, 0real);
    lemma_ring(k, b, 0real);
}

/// Rules of complex arithmetic.
proof fn lemma_complex_ring(x: Complex, y: Complex, z: Complex)
    ensures
        x.times(y) == y.times(x),
        x.times(y.times(z)) == x.times(y).times(z),
        x.times(y.plus(z)) == x.times(y).plus(x.times(z)),
{
    let (a, b, c, d, e, f) = (x.re, x.im, y.re, y.im, z.re, z.im);
    lemma_ring(a, c * e, d * f);
    lemma_ring(a, c * f, d * e);
    lemma_ring(b, c * e, d * f);
    lemma_ring(b, c * f, d * e);
    lemma_spread(a * c, b * d, e);
    lemma_spread(a * c, b * d, f);
    lemma_spread(a * d, b * c, e);
    lemma_spread(a * d, b * c, f);
    lemma_ring(a, c, e);
    lemma_ring(a, d, f);
    lemma_ring(a, c, f);
    lemma_ring(a, d, e);
    lemma_ring(b, c, e);
    lemma_ring(b, d, f);
    lemma_ring(b, c, f);
    lemma_ring(b, d, e);
    assert(x.times(y.times(z)).re == x.times(y).times(z).re);
    assert(x.times(y.times(z)).im == x.times(y).times(z).im);
}

/// The norm of a product.
proof fn lemma_norm_product(x: Complex, y: Complex)
    ensures
        x.times(y).norm() == x.norm() * y.norm(),
{
    let (a, b, c, d) = (x.re, x.im, y.re, y.im);
    lemma_binomials(a * c, b * d, a * c, b * d);
    lemma_binomials(a * d, b * c, a * d, b * c);
    lemma_binomials(a * a, b * b, c * c, d * d);
    lemma_regroup(a, c, a, c);
    lemma_regroup(b, d, b, d);
    lemma_regroup(a, d, a, d);
    lemma_regroup(b, c, b, c);
    lemma_regroup(a, c, b, d);
    lemma_regroup(a, d, b, c);
}

/// A term of a product of polynomials.
proof fn lemma_term(k: real, m: real, u: real)
    ensures
        k * (m * u) == (k * m) * u,
        (k * u) * m == (k * m) * u,
{
    lemma_ring(k, m, u);
    lemma_ring(k, u, m);
}

/// The product of polynomials at a point is the product of their values.
proof fn lemma_product_at(x0: real, x1: real, x2: real, y0: real, y1: real, y2: real, z: Complex)
    ensures
        quadratic_at(x0, x1, x2, z).times(quadratic_at(y0, y1, y2, z)) == quartic_at(
            product(x0, x1, x2, y0, y1, y2),
            z,
        ),
{
    let (p, q) = (z.re, z.im);
    let z2 = z.times(z);
    let (r, s) = (z2.re, z2.im);
    // The factors multiplied out.
    lemma_trinomials(x0, x1 * p, x2 * r, y0, y1 * p, y2 * r);
    lemma_binomials(x1 * q, x2 * s, y1 * q, y2 * s);
    lemma_trinomials(x0, x1 * p, x2 * r, y1 * q, y2 * s, 0real);
    lemma_trinomials(y0, y1 * p, y2 * r, x1 * q, x2 * s, 0real);
    // The terms that keep a constant.
    lemma_term(x0, y1, p);
    lemma_term(x0, y2, r);
    lemma_term(x0, y1, q);
    lemma_term(x0, y2, s);
    lemma_term(x1, y0, p);
    lemma_term(x2, y0, r);
    lemma_term(x1, y0, q);
    lemma_term(x2, y0, s);
    // The others.
    lemma_regroup(x1, p, y1, p);
    lemma_regroup(x1, p, y2, r);
    lemma_regroup(x2, r, y1, p);
    lemma_regroup(x2, r, y2, r);
    lemma_regroup(x1, q, y1, q);
    lemma_regroup(x1, q, y2, s);
    lemma_regroup(x2, s, y1, q);
    lemma_regroup(x2, s, y2, s);
    lemma_regroup(x1, p, y1, q);
    lemma_regroup(x1, p, y2, s);
    lemma_regroup(x2, r, y1, q);
    lemma_regroup(x2, r, y2, s);
    lemma_regroup(x1, q, y1, p);
    lemma_regroup(x1, q, y2, r);
    lemma_regroup(x2, s, y1, p);
    lemma_regroup(x2, s, y2, r);
    // The powers.
    lemma_ring(p, r, 0real);
    lemma_ring(q, s, 0real);
    lemma_ring(p, s, 0real);
    lemma_ring(q, r, 0real);
    lemma_ring(p, q, 0real);
    lemma_ring(r, s, 0real);
    lemma_spread(x0 * y1, x1 * y0, p);
    lemma_spread(x0 * y1, x1 * y0, q);
    lemma_spread(x0 * y2 + x1 * y1, x2 * y0, r);
    lemma_spread(x0 * y2, x1 * y1, r);
    lemma_spread(x0 * y2 + x1 * y1, x2 * y0, s);
    lemma_spread(x0 * y2, x1 * y1, s);
    lemma_ring(x1 * y1, p * p, q * q);
    lemma_ring(x1 * y1, p * q, q * p);
    let (t, u) = (r * p - s * q, r * q + s * p);
    lemma_spread(x1 * y2, x2 * y1, t);
    lemma_spread(x1 * y2, x2 * y1, u);
    lemma_ring(x1 * y2, r * p, s * q);
    lemma_ring(x2 * y1, r * p, s * q);
    lemma_ring(x1 * y2, r * q, s * p);
    lemma_ring(x2 * y1, r * q, s * p);
    lemma_ring(x2 * y2, r * r, s * s);
    lemma_ring(x2 * y2, r * s, s * r);
    let (x, y) = (quadratic_at(x0, x1, x2, z), quadratic_at(y0, y1, y2, z));
    let k = quartic_at(product(x0, x1, x2, y0, y1, y2), z);
    assert(x.re * y.re == x0 * y0 + (x0 * y1) * p + (x0 * y2) * r + (x1 * y0) * p + (x1 * y1) * (p
        * p) + (x1 * y2) * (r * p) + (x2 * y0) * r + (x2 * y1) * (r * p) + (x2 * y2) * (r * r));
    assert(x.im * y.im == (x1 * y1) * (q * q) + (x1 * y2) * (s * q) + (x2 * y1) * (s * q) + (x2
        * y2) * (s * s));
    assert(x.re * y.im == (x0 * y1) * q + (x0 * y2) * s + (x1 * y1) * (p * q) + (x1 * y2) * (s * p)
        + (x2 * y1) * (r * q) + (x2 * y2) * (r * s));
    assert(x.im * y.re == (x1 * y0) * q + (x2 * y0) * s + (x1 * y1) * (q * p) + (x1 * y2) * (r * q)
        + (x2 * y1) * (s * p) + (x2 * y2) * (s * r));
    assert(k.re == x0 * y0 + (x0 * y1 + x1 * y0) * p + (x0 * y2 + x1 * y1 + x2 * y0) * r + (x1 * y2
        + x2 * y1) * t + (x2 * y2) * (r * r - s * s));
    assert(x.times(y).re == k.re);
    assert(x.times(y).im == k.im);
}

/// The sum of polynomials at a point is the sum of their values.
proof fn lemma_sum_at(x: Quartic, y: Quartic, z: Complex)
    ensures
        quartic_at(sum(x, y), z) == quartic_at(x, z).plus(quartic_at(y, z)),
{
    let z2 = z.times(z);
    let z3 = z2.times(z);
    let z4 = z2.times(z2);
    lemma_spread(x.c1, y.c1, z.re);
    lemma_spread(x.c2, y.c2, z2.re);
    lemma_spread(x.c3, y.c3, z3.re);
    lemma_spread(x.c4, y.c4, z4.re);
    lemma_spread(x.c1, y.c1, z.im);
    lemma_spread(x.c2, y.c2, z2.im);
    lemma_spread(x.c3, y.c3, z3.im);
    lemma_spread(x.c4, y.c4, z4.im);
    assert(quartic_at(sum(x, y), z).re == quartic_at(x, z).plus(quartic_at(y, z)).re);
    assert(quartic_at(sum(x, y), z).im == quartic_at(x, z).plus(quartic_at(y, z)).im);
}

/// Squares are not negative.
proof fn lemma_square(x: real)
    ensures
        x * x >= 0real,
        x != 0real ==> x * x > 0real,
{
    if x > 0real {
        lemma_positive(x, x);
    } else if x < 0real {
        lemma_positive(-x, -x);
        lemma_ring(-x, x, 0real);
        lemma_ring(x, x, 0real);
        lemma_ring(x, -x, 0real);
    } else {
        lemma_ring(x, x, x);
    }
}

/// Only zero has a norm of zero.
proof fn lemma_norm_positive(x: Complex)
    ensures
        x.norm() >= 0real,
        !x.is_zero() ==> x.norm() > 0real,
{
    lemma_square(x.re);
    lemma_square(x.im);
}

/// A factor that is not zero cancels.
proof fn lemma_cancel_factor(d: Complex, x: Complex, y: Complex)
    requires
        !d.is_zero(),
        d.times(x) == d.times(y),
    ensures
        x == y,
{
    let w = Complex { re: x.re - y.re, im: x.im - y.im };
    lemma_ring(d.re, x.re, y.re);
    lemma_ring(d.im, x.im, y.im);
    lemma_ring(d.re, x.im, y.im);
    lemma_ring(d.im, x.re, y.re);
    let v = d.times(w);
    assert(v.re == d.times(x).re - d.times(y).re);
    assert(v.im == d.times(x).im - d.times(y).im);
    lemma_ring(0real, 0real, 0real);
    lemma_norm_product(d, w);
    lemma_norm_positive(d);
    lemma_norm_positive(w);
    if !w.is_zero() {
        lemma_positive(d.norm(), w.norm());
    }
}

/// A quotient is what gives the dividend back.
proof fn lemma_over(n: Complex, d: Complex)
    requires
        !d.is_zero(),
    ensures
        d.times(n.over(d)) == n,
{
    let (a, b, c, e) = (n.re, n.im, d.re, d.im);
    let k = d.norm();
    let (g, h) = (a * c + b * e, b * c - a * e);
    let (u, v) = (g / k, h / k);
    lemma_norm_positive(d);
    lemma_quotient(g, k);
    lemma_quotient(h, k);
    // Both parts of the product times the norm.
    let (x, y) = (c * u - e * v, c * v + e * u);
    assert(k * x == c * g - e * h) by {
        lemma_ring(k, c * u, e * v);
        lemma_ring(c, u, k);
        lemma_ring(e, v, k);
        lemma_ring(k, c * u, 0real);
        lemma_ring(k, e * v, 0real);
    }
    assert(k * y == c * h + e * g) by {
        lemma_ring(k, c * v, e * u);
        lemma_ring(c, v, k);
        lemma_ring(e, u, k);
        lemma_ring(k, c * v, 0real);
        lemma_ring(k, e * u, 0real);
    }
    assert(c * g - e * h == k * a) by {
        lemma_ring(c, a * c, b * e);
        lemma_ring(e, b * c, a * e);
        lemma_spread(c * c, e * e, a);
        lemma_ring(a, c, c);
        lemma_ring(a, e, e);
        lemma_ring(b, c, e);
        lemma_ring(b, e, c);
        lemma_ring(c, e, 0real);
        lemma_ring(c, a * c, 0real);
        lemma_ring(c, b * e, 0real);
        lemma_ring(e, b * c, 0real);
        lemma_ring(e, a * e, 0real);
        lemma_ring(a, c * c, 0real);
        lemma_ring(a, e * e, 0real);
    }
    assert(c * h + e * g == k * b) by {
        lemma_ring(c, b * c, a * e);
        lemma_ring(e, a * c, b * e);
        lemma_spread(c * c, e * e, b);
        lemma_ring(b, c, c);
        lemma_ring(b, e, e);
        lemma_ring(a, c, e);
        lemma_ring(a, e, c);
        lemma_ring(c, e, 0real);
        lemma_ring(c, b * c, 0real);
        lemma_ring(c, a * e, 0real);
        lemma_ring(e, a * c, 0real);
        lemma_ring(e, b * e, 0real);
        lemma_ring(b, c * c, 0real);
        lemma_ring(b, e * e, 0real);
    }
    lemma_equal_scaled(k, x, a);
    lemma_equal_scaled(k, y, b);
}

/// A positive factor cancels.
proof fn lemma_equal_scaled(k: real, x: real, y: real)
    requires
        k > 0real,
        k * x == k * y,
    ensures
        x == y,
{
    lemma_ring(k, x, y);
    lemma_ring(k, y, x);
    if x > y {
        lemma_positive(k, x - y);
    } else if x < y {
        lemma_positive(k, y - x);
    }
}

/// Whether a complex number lies on the unit circle.
pub open spec fn is_on_circle(z: Complex) -> bool {
    z.norm() == 1real
}

/// A polynomial of degree two on the unit circle, turned back by one sample.
proof fn lemma_turned(a0: real, a1: real, a2: real, z: Complex)
    requires
        is_on_circle(z),
    ensures
        ({
            let back = Complex { re: z.re, im: -z.im };
            &&& is_on_circle(back)
            &&& back.times(quadratic_at(a0, a1, a2, z)) == (Complex {
                re: (a0 + a2) * z.re + a1,
                im: (a2 - a0) * z.im,
            })
        }),
{
    let (p, q) = (z.re, z.im);
    let z2 = z.times(z);
    let (r, s) = (z2.re, z2.im);
    let back = Complex { re: p, im: -q };
    let d = quadratic_at(a0, a1, a2, z);
    let (x, y) = (d.re, d.im);
    lemma_ring(-q, q, 0real);
    lemma_ring(q, -q, 0real);
    lemma_ring(q, q, 0real);
    lemma_ring(q, x, 0real);
    lemma_ring(q, y, 0real);
    lemma_ring(-q, x, 0real);
    lemma_ring(-q, y, 0real);
    lemma_ring(x, q, 0real);
    lemma_ring(y, q, 0real);
    assert(back.times(d).re == p * x + q * y);
    assert(back.times(d).im == p * y - q * x);
    lemma_ring(p, a0 + a1 * p, a2 * r);
    lemma_ring(p, a0, a1 * p);
    lemma_ring(q, a1 * q, a2 * s);
    lemma_ring(p, a1 * q, a2 * s);
    lemma_ring(q, a0 + a1 * p, a2 * r);
    lemma_ring(q, a0, a1 * p);
    lemma_ring(a1, p, p);
    lemma_ring(a1, q, q);
    lemma_ring(a1, p, q);
    lemma_ring(a1, q, p);
    lemma_ring(p, q, 0real);
    lemma_ring(a2, r, p);
    lemma_ring(a2, s, q);
    lemma_ring(a2, s, p);
    lemma_ring(a2, r, q);
    lemma_ring(p, a1 * p, 0real);
    lemma_ring(p, a2 * r, 0real);
    lemma_ring(q, a1 * q, 0real);
    lemma_ring(q, a2 * s, 0real);
    lemma_ring(p, a1 * q, 0real);
    lemma_ring(p, a2 * s, 0real);
    lemma_ring(q, a1 * p, 0real);
    lemma_ring(q, a2 * r, 0real);
    lemma_ring(p, a0, 0real);
    lemma_ring(q, a0, 0real);
    // The square turned back is the number itself.
    assert(r * p + s * q == p && s * p - r * q == q) by {
        let (e, f, g) = (p * p, q * q, p * q);
        lemma_spread(e, f, p);
        lemma_spread(g, g, q);
        lemma_spread(g, g, p);
        lemma_spread(e, f, q);
        lemma_ring(p, q, q);
        lemma_ring(q, p, q);
        lemma_ring(p, p, q);
        lemma_ring(p, q, p);
        lemma_ring(q, p, p);
        lemma_ring(q, q, p);
        lemma_ring(p, q, 0real);
        assert(e + f == 1real);
        assert((e + f) * p == p && (e + f) * q == q);
        assert(f * p == g * q);
        assert(g * p == e * q);
    }
    lemma_ring(a2, r * p, s * q);
    lemma_ring(a2, s * p, r * q);
    assert(a1 * (p * p) + a1 * (q * q) == a1) by {
        lemma_ring(a1, p * p, q * q);
    }
    lemma_spread(a0, a2, p);
    lemma_spread(a2, a0, q);
    assert(p * x + q * y == (a0 + a2) * p + a1);
    assert(p * y - q * x == (a2 - a0) * q);
}

/// A stable denominator has no zero on the unit circle.
proof fn lemma_denominator(e: Exact, z: Complex)
    requires
        e.is_stable(),
        is_on_circle(z),
    ensures
        !quadratic_at(e.a0, e.a1, e.a2, z).is_zero(),
{
    let d = quadratic_at(e.a0, e.a1, e.a2, z);
    let (p, q) = (z.re, z.im);
    if d.is_zero() {
        lemma_turned(e.a0, e.a1, e.a2, z);
        lemma_ring(p, 0real, 0real);
        lemma_ring(-q, 0real, 0real);
        lemma_ring(e.a2 - e.a0, q, 0real);
        if q > 0real {
            lemma_positive(e.a0 - e.a2, q);
            lemma_spread(e.a0, e.a2, q);
            lemma_spread(e.a2, e.a0, q);
        } else if q < 0real {
            lemma_positive(e.a0 - e.a2, -q);
            lemma_ring(e.a0 - e.a2, q, 0real);
            lemma_spread(e.a0, e.a2, q);
            lemma_spread(e.a2, e.a0, q);
        } else {
            // On the real axis the circle holds one and minus one.
            lemma_ring(q, 0real, 0real);
            lemma_binomials(p, 1real, p, 1real);
            lemma_ring(p, 1real, 0real);
            lemma_square(p - 1real);
            lemma_square(p + 1real);
            assert(p == 1real || p == -1real) by {
                if p > 1real {
                    lemma_positive(p - 1real, p);
                    lemma_spread(p, 1real, p);
                } else if p < -1real {
                    lemma_positive(-1real - p, -p);
                    lemma_ring(-1real - p, p, 0real);
                    lemma_spread(-1real, p, p);
                } else if -1real < p < 1real {
                    lemma_positive(1real - p, 1real + p);
                    lemma_ring(1real - p, 1real, p);
                    lemma_spread(1real, p, p);
                }
            }
            lemma_ring(e.a0 + e.a2, 1real, 0real);
            lemma_ring(e.a0 + e.a2, -1real, 0real);
        }
    }
}

/// A polynomial and its reverse have the same norm on the unit circle.
proof fn lemma_reversed(a0: real, a1: real, a2: real, z: Complex)
    requires
        is_on_circle(z),
    ensures
        quadratic_at(a2, a1, a0, z).norm() == quadratic_at(a0, a1, a2, z).norm(),
{
    let back = Complex { re: z.re, im: -z.im };
    let (x, y) = (quadratic_at(a0, a1, a2, z), quadratic_at(a2, a1, a0, z));
    lemma_turned(a0, a1, a2, z);
    lemma_turned(a2, a1, a0, z);
    lemma_norm_product(back, x);
    lemma_norm_product(back, y);
    let (u, v) = ((a2 - a0) * z.im, (a0 - a2) * z.im);
    lemma_spread(a2, a0, z.im);
    lemma_spread(a0, a2, z.im);
    assert(v == -u);
    lemma_ring(u, u, 0real);
    lemma_ring(-u, u, 0real);
    lemma_ring(u, -u, 0real);
    assert((-u) * (-u) == u * u);
    assert((a0 + a2) * z.re + a1 == (a2 + a0) * z.re + a1);
}

/// The response of a section at `z`, one sample of delay at some frequency.
pub open spec fn response(e: Exact, z: Complex) -> Complex {
    quadratic_at(e.b0, e.b1, e.b2, z).over(quadratic_at(e.a0, e.a1, e.a2, z))
}

/// Whether these are settings of a crossover point: valid, with a quality of
/// one over the root of two.
pub open spec fn is_crossover_point(s: Settings) -> bool {
    s.valid() && 2real * s.q * s.q == 1real
}

/// The numerator of a section of a crossover point at `z`: of one of its two
/// sides, or of the all-pass with its phase.
pub open spec fn numerator_at(kind: FilterKind, s: Settings, z: Complex) -> Complex {
    let e = Exact::of(kind, s);
    quadratic_at(e.b0, e.b1, e.b2, z)
}

/// The denominator that the sections of a crossover point share, at `z`.
pub open spec fn denominator_at(s: Settings, z: Complex) -> Complex {
    let e = Exact::of(FilterKind::AllPass, s);
    quadratic_at(e.a0, e.a1, e.a2, z)
}

/// The squares of the two sides of a crossover point sum to the all-pass, at
/// every point of the plane.
pub proof fn law_point_sums_at(s: Settings, z: Complex)
    requires
        is_crossover_point(s),
    ensures
        ({
            let low = numerator_at(FilterKind::LowPass, s, z);
            let high = numerator_at(FilterKind::HighPass, s, z);
            let all = numerator_at(FilterKind::AllPass, s, z);
            low.times(low).plus(high.times(high)) == all.times(denominator_at(s, z))
        }),
{
    let l = Exact::of(FilterKind::LowPass, s);
    let h = Exact::of(FilterKind::HighPass, s);
    let a = Exact::of(FilterKind::AllPass, s);
    law_crossover_point_sums_to_all_pass(s);
    lemma_product_at(l.b0, l.b1, l.b2, l.b0, l.b1, l.b2, z);
    lemma_product_at(h.b0, h.b1, h.b2, h.b0, h.b1, h.b2, z);
    lemma_product_at(a.b0, a.b1, a.b2, a.a0, a.a1, a.a2, z);
    lemma_sum_at(l.numerators(l), h.numerators(h), z);
}

/// The three bands over the denominators that they share: their numerators sum
/// to those of the two all-passes, at every point of the plane.
pub proof fn law_numerators_sum(s1: Settings, s2: Settings, z: Complex)
    requires
        is_crossover_point(s1),
        is_crossover_point(s2),
    ensures
        ({
            let (d1, d2) = (denominator_at(s1, z), denominator_at(s2, z));
            let l1 = numerator_at(FilterKind::LowPass, s1, z);
            let h1 = numerator_at(FilterKind::HighPass, s1, z);
            let a1 = numerator_at(FilterKind::AllPass, s1, z);
            let l2 = numerator_at(FilterKind::LowPass, s2, z);
            let h2 = numerator_at(FilterKind::HighPass, s2, z);
            let a2 = numerator_at(FilterKind::AllPass, s2, z);
            l1.times(l1).times(a2.times(d2)).plus(
                h1.times(h1).times(l2.times(l2).plus(h2.times(h2))),
            ) == a1.times(d1).times(a2.times(d2))
        }),
{
    let l1 = numerator_at(FilterKind::LowPass, s1, z);
    let h1 = numerator_at(FilterKind::HighPass, s1, z);
    let a2 = numerator_at(FilterKind::AllPass, s2, z);
    let k = a2.times(denominator_at(s2, z));
    law_point_sums_at(s1, z);
    law_point_sums_at(s2, z);
    lemma_complex_ring(k, l1.times(l1), h1.times(h1));
    lemma_complex_ring(k, h1.times(h1), k);
    lemma_complex_ring(k, l1.times(l1).plus(h1.times(h1)), k);
}

/// The responses of the two sides of a crossover point, squared, sum to that
/// of the all-pass, which has magnitude one at every frequency.
pub proof fn law_point_sums_flat(s: Settings, z: Complex)
    requires
        is_crossover_point(s),
        is_on_circle(z),
    ensures
        ({
            let low = response(Exact::of(FilterKind::LowPass, s), z);
            let high = response(Exact::of(FilterKind::HighPass, s), z);
            let all = response(Exact::of(FilterKind::AllPass, s), z);
            &&& low.times(low).plus(high.times(high)) == all
            &&& all.norm() == 1real
        }),
{
    let a = Exact::of(FilterKind::AllPass, s);
    let d = denominator_at(s, z);
    let (l, h, k) = (
        numerator_at(FilterKind::LowPass, s, z),
        numerator_at(FilterKind::HighPass, s, z),
        numerator_at(FilterKind::AllPass, s, z),
    );
    let (x, y, w) = (l.over(d), h.over(d), k.over(d));
    law_crossover_point_sums_to_all_pass(s);
    lemma_valid(s);
    law_stable(FilterKind::AllPass, s);
    lemma_denominator(a, z);
    law_point_sums_at(s, z);
    lemma_over(l, d);
    lemma_over(h, d);
    lemma_over(k, d);
    // Times the denominator twice, both sides are the numerators' sum.
    lemma_square_over(d, x);
    lemma_square_over(d, y);
    let v = x.times(x).plus(y.times(y));
    lemma_complex_ring(d, x.times(x), y.times(y));
    lemma_complex_ring(d, d.times(x.times(x)), d.times(y.times(y)));
    assert(d.times(d.times(v)) == l.times(l).plus(h.times(h)));
    assert(d.times(d.times(w)) == k.times(d)) by {
        lemma_complex_ring(d, k, d);
    }
    lemma_cancel_factor(d, d.times(v), d.times(w));
    lemma_cancel_factor(d, v, w);
    // The all-pass is the denominator reversed over the denominator.
    lemma_reversed(a.a0, a.a1, a.a2, z);
    lemma_norm_product(d, w);
    lemma_norm_positive(d);
    lemma_ring(d.norm(), 1real, 0real);
    lemma_equal_scaled(d.norm(), w.norm(), 1real);
}

/// The square of a product.
proof fn lemma_square_over(d: Complex, x: Complex)
    ensures
        d.times(d.times(x.times(x))) == d.times(x).times(d.times(x)),
{
    let y = d.times(x);
    lemma_complex_ring(d, x, x);
    lemma_complex_ring(d, y, x);
    lemma_complex_ring(y, d, x);
    lemma_complex_ring(d, y, y);
}

/// The exact response of a section of the crossover, for the settings of its
/// two points.
pub open spec fn stage_response(
    stage: (FilterKind, u32),
    low_mid: Settings,
    mid_high: Settings,
    z: Complex,
) -> Complex {
    let s = if stage.1 == F_LOW_MID {
        low_mid
    } else {
        mid_high
    };
    response(Exact::of(stage.0, s), z)
}

/// The exact response of the low band.
pub open spec fn low_response(low_mid: Settings, mid_high: Settings, z: Complex) -> Complex {
    let plan = low_plan();
    stage_response(plan.0, low_mid, mid_high, z).times(
        stage_response(plan.1, low_mid, mid_high, z),
    ).times(stage_response(plan.2, low_mid, mid_high, z))
}

/// The exact response of the mid or the high band, by its plan.
pub open spec fn band_response(
    plan: ((FilterKind, u32), (FilterKind, u32), (FilterKind, u32), (FilterKind, u32)),
    low_mid: Settings,
    mid_high: Settings,
    z: Complex,
) -> Complex {
    stage_response(plan.0, low_mid, mid_high, z).times(
        stage_response(plan.1, low_mid, mid_high, z),
    ).times(
        stage_response(plan.2, low_mid, mid_high, z).times(
            stage_response(plan.3, low_mid, mid_high, z),
        ),
    )
}

/// The three bands, blended at unity, sum back to flat: at every frequency
/// their responses sum to the product of the all-passes of the two crossover
/// points, and its magnitude is one.
pub proof fn law_bands_sum_flat(low_mid: Settings, mid_high: Settings, z: Complex)
    requires
        is_crossover_point(low_mid),
        is_crossover_point(mid_high),
        is_on_circle(z),
    ensures
        ({
            let low = low_response(low_mid, mid_high, z);
            let mid = band_response(mid_plan(), low_mid, mid_high, z);
            let high = band_response(high_plan(), low_mid, mid_high, z);
            let total = low.plus(mid).plus(high);
            &&& total == response(Exact::of(FilterKind::AllPass, low_mid), z).times(
                response(Exact::of(FilterKind::AllPass, mid_high), z),
            )
            &&& total.norm() == 1real
        }),
{
    let l1 = response(Exact::of(FilterKind::LowPass, low_mid), z);
    let h1 = response(Exact::of(FilterKind::HighPass, low_mid), z);
    let a1 = response(Exact::of(FilterKind::AllPass, low_mid), z);
    let l2 = response(Exact::of(FilterKind::LowPass, mid_high), z);
    let h2 = response(Exact::of(FilterKind::HighPass, mid_high), z);
    let a2 = response(Exact::of(FilterKind::AllPass, mid_high), z);
    law_point_sums_flat(low_mid, z);
    law_point_sums_flat(mid_high, z);
    let (p, q) = (l1.times(l1), h1.times(h1));
    // The mid and the high band together are high-passed at the first point.
    lemma_complex_ring(q, l2.times(l2), h2.times(h2));
    lemma_complex_ring(a2, p, q);
    lemma_complex_ring(a2, q, a2);
    lemma_complex_ring(a2, a1, a2);
    lemma_norm_product(a1, a2);
    lemma_ring(1real, 1real, 1real);
}

} // verus!
