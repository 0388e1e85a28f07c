//! What the operations on numbers return: of all numbers, the one nearest to the
//! exact result.
use vstd::arithmetic::power2::{lemma_pow2_pos, pow2};
use vstd::prelude::*;

use crate::arithmetic::{
    abs, law_commutative, law_times_zero, lemma_nearest_bounded, lemma_opposite,
    lemma_rounded_parts, lemma_signed, lemma_taken_apart,
};
use crate::biquad::{Biquad, History};
use crate::constants::ZERO;
use crate::grid::{
    doubled_midpoint, is_nearest, is_nearest_root, lemma_increasing, lemma_nearest_root_unique,
    lemma_zero, magnitude, nearest, nearest_root, INFINITY,
};
use crate::single::Single;
use crate::stability::lemma_root_found;

verus! {

/// Whether `r` is the number nearest to the exact result `n / d`: no other number
/// is nearer, and of two that are equally near it is the one with the even
/// pattern. Infinity counts as the power of two that follows the finite range.
pub open spec fn is_closest(r: Single, n: int, d: int) -> bool {
    &&& !r.is_nan()
    &&& forall|z: Single|
        !z.is_nan() ==> abs(d * r.value() - n) <= abs(d * (#[trigger] z.value()) - n)
    &&& forall|z: Single|
        !z.is_nan() && (#[trigger] z.value()) != r.value() && abs(d * z.value() - n) == abs(
            d * r.value() - n,
        ) ==> r.pattern() % 2 == 0
}

/// No pattern is nearer than the nearest, and of two that are equally near the
/// even one is taken.
proof fn lemma_no_nearer(n: nat, d: nat, m: nat, k: nat)
    requires
        d > 0,
        k <= INFINITY,
        is_nearest(n, d, m),
    ensures
        abs(d * magnitude(m) - n) <= abs(d * magnitude(k) - n),
        k != m && abs(d * magnitude(m) - n) == abs(d * magnitude(k) - n) ==> m % 2 == 0,
{
    let (x, y) = (d * magnitude(m), d * magnitude(k));
    if k > m {
        let z = d * magnitude(m + 1);
        lemma_increasing(m, k);
        lemma_increasing(m + 1, k);
        lemma_scaled(d, magnitude(m), magnitude(k));
        lemma_scaled(d, magnitude(m + 1), magnitude(k));
        assert(d * doubled_midpoint(m) == x + z) by (nonlinear_arith)
            requires
                x == d * magnitude(m),
                z == d * magnitude(m + 1),
                doubled_midpoint(m) == magnitude(m) + magnitude(m + 1),
        ;
    } else if k < m {
        let p = (m - 1) as nat;
        let z = d * magnitude(p);
        lemma_increasing(k, m);
        lemma_increasing(k, p);
        lemma_scaled(d, magnitude(k), magnitude(m));
        lemma_scaled(d, magnitude(k), magnitude(p));
        assert(d * doubled_midpoint(p) == x + z) by (nonlinear_arith)
            requires
                x == d * magnitude(m),
                z == d * magnitude(p),
                doubled_midpoint(p) == magnitude(p) + magnitude(m),
        ;
    }
}

/// A factor keeps the order.
proof fn lemma_scaled(d: nat, a: nat, b: nat)
    requires
        d > 0,
        a <= b,
    ensures
        d * a <= d * b,
        a < b ==> d * a < d * b,
{
    assert(d * a <= d * b && (a < b ==> d * a < d * b)) by (nonlinear_arith)
        requires
            d > 0,
            a <= b,
    ;
}

/// A number with the sign of the exact result and the pattern nearest to its size
/// is the number nearest to it.
proof fn lemma_closest(r: Single, n: int, d: int)
    requires
        d > 0,
        is_nearest(abs(n) as nat, d as nat, r.pattern()),
        n < 0 ==> r.negative(),
        n > 0 ==> !r.negative(),
    ensures
        is_closest(r, n, d),
{
    let m = r.pattern();
    let e = d as nat;
    let size = abs(n) as nat;
    let x = magnitude(m) as int;
    lemma_zero(m);
    assert(d * (-x) == -(d * x)) by (nonlinear_arith);
    assert(abs(d * r.value() - n) == abs(d * x - abs(n))) by {
        if n == 0 {
            lemma_no_nearer(size, e, m, 0);
            vstd::arithmetic::mul::lemma_mul_by_zero_is_zero(d);
        }
    }
    assert forall|z: Single| !z.is_nan() implies abs(d * r.value() - n) <= abs(
        d * (#[trigger] z.value()) - n,
    ) && (z.value() != r.value() && abs(d * z.value() - n) == abs(d * r.value() - n) ==> m % 2
        == 0) by {
        let k = z.pattern();
        let y = magnitude(k) as int;
        lemma_zero(k);
        lemma_no_nearer(size, e, m, k);
        lemma_no_nearer(size, e, m, 0);
        vstd::arithmetic::mul::lemma_mul_by_zero_is_zero(d);
        assert(d * (-y) == -(d * y)) by (nonlinear_arith);
        lemma_scaled(e, 0, y as nat);
    }
}

/// A sum of finite numbers is the number nearest to the exact sum. A sum of zero
/// is positive, unless both terms are negative.
pub proof fn law_sum_is_nearest(x: Single, y: Single)
    requires
        x.is_finite(),
        y.is_finite(),
    ensures
        is_closest(x + y, x.value() + y.value(), 1),
        x.value() + y.value() == 0 ==> (x + y).is_zero() && ((x + y).negative() <==> x.negative()
            && y.negative()),
{
    reveal(Single::spec_add);
    let v = x.value() + y.value();
    if v == 0 {
        lemma_zero(0);
        lemma_signed(x.negative() && y.negative(), 0);
        crate::grid::lemma_exact(0, 1, 0);
    } else {
        lemma_rounded_parts(v);
    }
    lemma_closest(x + y, v, 1);
}

/// A difference is the sum with the opposite, and a finite number and its
/// opposite have opposite values.
pub proof fn law_difference_is_nearest(x: Single, y: Single)
    requires
        x.is_finite(),
        y.is_finite(),
    ensures
        is_closest(x - y, x.value() - y.value(), 1),
        x.value() == y.value() ==> (x - y).is_zero() && ((x - y).negative() <==> x.negative()
            && !y.negative()),
{
    lemma_opposite(y);
    law_sum_is_nearest(x, y.opposite());
}

/// A product of finite numbers is the number nearest to the exact product, with
/// the sign of a product.
pub proof fn law_product_is_nearest(x: Single, y: Single)
    requires
        x.is_finite(),
        y.is_finite(),
    ensures
        is_closest(x * y, x.value() * y.value(), pow2(149) as int),
        (x * y).negative() == (x.negative() != y.negative()),
{
    reveal(Single::spec_mul);
    let (a, b) = (magnitude(x.pattern()), magnitude(y.pattern()));
    let n = a * b;
    lemma_pow2_pos(149);
    lemma_nearest_bounded(n, pow2(149));
    lemma_signed(x.negative() != y.negative(), nearest(n, pow2(149)));
    let (i, j) = (a as int, b as int);
    assert((-i) * j == -(i * j) && i * (-j) == -(i * j) && (-i) * (-j) == i * j && i * j >= 0 && n
        == i * j) by (nonlinear_arith)
        requires
            i >= 0,
            j >= 0,
            n == a * b,
            i == a,
            j == b,
    ;
    lemma_closest(x * y, x.value() * y.value(), pow2(149) as int);
}

/// A quotient of finite numbers is the number nearest to the exact quotient, with
/// the sign of a quotient.
pub proof fn law_quotient_is_nearest(x: Single, y: Single)
    requires
        x.is_finite(),
        y.is_finite(),
        !y.is_zero(),
    ensures
        y.value() > 0 ==> is_closest(x / y, x.value() * pow2(149), y.value()),
        y.value() < 0 ==> is_closest(x / y, -(x.value() * pow2(149)), -y.value()),
        y.value() != 0,
        (x / y).negative() == (x.negative() != y.negative()),
{
    reveal(Single::spec_div);
    let (a, b) = (magnitude(x.pattern()), magnitude(y.pattern()));
    let u = pow2(149);
    let n = a * u;
    lemma_pow2_pos(149);
    lemma_zero(y.pattern());
    lemma_nearest_bounded(n, b);
    lemma_signed(x.negative() != y.negative(), nearest(n, b));
    let i = a as int;
    assert((-i) * u == -(i * u) && i * u >= 0 && n == i * u) by (nonlinear_arith)
        requires
            i >= 0,
            i == a,
            n == a * u,
    ;
    if y.value() > 0 {
        lemma_closest(x / y, x.value() * u, y.value());
    } else {
        lemma_closest(x / y, -(x.value() * u), -y.value());
    }
}

/// Whether `r` is the number nearest to the square root of `n`: that lies below
/// every midpoint with a larger number and above every midpoint with a smaller
/// one, or on a midpoint if the pattern of `r` is even.
pub open spec fn is_closest_root(r: Single, n: int) -> bool {
    &&& !r.is_nan()
    &&& !r.negative()
    &&& forall|z: Single|
        !z.is_nan() && !z.negative() && (#[trigger] z.value()) > r.value() ==> 4 * n <= (r.value()
            + z.value()) * (r.value() + z.value())
    &&& forall|z: Single|
        !z.is_nan() && !z.negative() && (#[trigger] z.value()) < r.value() ==> 4 * n >= (r.value()
            + z.value()) * (r.value() + z.value())
    &&& forall|z: Single|
        !z.is_nan() && !z.negative() && (#[trigger] z.value()) != r.value() && 4 * n == (r.value()
            + z.value()) * (r.value() + z.value()) ==> r.pattern() % 2 == 0
}

/// The squares of two sums with one term in common.
proof fn lemma_squares(a: nat, b: nat, c: nat)
    requires
        b <= c,
    ensures
        (a + b) * (a + b) <= (a + c) * (a + c),
        b < c ==> (a + b) * (a + b) < (a + c) * (a + c),
{
    let (x, y) = (a + b, a + c);
    assert(x * x <= y * y && (x < y ==> x * x < y * y)) by (nonlinear_arith)
        requires
            0 <= x <= y,
    ;
}

/// The square root of a finite number that is not negative is the number nearest
/// to the exact root.
pub proof fn law_root_is_nearest(x: Single)
    requires
        x.is_finite(),
        !x.negative(),
    ensures
        is_closest_root(x.root(), x.value() * pow2(149)),
{
    let n = magnitude(x.pattern()) * pow2(149);
    let r = x.root();
    let m = r.pattern();
    lemma_zero(0);
    if x.is_zero() {
        vstd::arithmetic::mul::lemma_mul_by_zero_is_zero(pow2(149) as int);
        lemma_increasing(0, 1);
        lemma_zero(1);
        let q = doubled_midpoint(0);
        assert(q * q > 0) by (nonlinear_arith)
            requires
                q > 0,
        ;
        assert(is_nearest_root(n, m));
    } else {
        lemma_root_found(n, 0);
        lemma_nearest_root_unique(n, nearest_root(n));
        lemma_signed(false, nearest_root(n));
    }
    assert forall|z: Single| !z.is_nan() && !z.negative() implies {
        let s = r.value() + (#[trigger] z.value());
        &&& z.value() > r.value() ==> 4 * n <= s * s
        &&& z.value() < r.value() ==> 4 * n >= s * s
        &&& z.value() != r.value() && 4 * n == s * s ==> m % 2 == 0
    } by {
        let k = z.pattern();
        if k > m {
            lemma_increasing(m + 1, k);
            lemma_increasing(m, k);
            lemma_squares(magnitude(m), magnitude(m + 1), magnitude(k));
        } else if k < m {
            let p = (m - 1) as nat;
            lemma_increasing(k, p);
            lemma_increasing(k, m);
            lemma_squares(magnitude(m), magnitude(k), magnitude(p));
        }
    }
}

/// What is not a number makes no number.
pub proof fn law_not_a_number(x: Single, y: Single)
    requires
        x.is_nan() || y.is_nan(),
    ensures
        (x + y).is_nan(),
        (x - y).is_nan(),
        (x * y).is_nan(),
        (x / y).is_nan(),
        x.is_nan() ==> x.root().is_nan(),
        !x.at_least(y),
{
    reveal(Single::spec_add);
    reveal(Single::spec_mul);
    reveal(Single::spec_div);
    lemma_opposite(y);
}

/// Infinite terms: an infinite number outweighs every finite one, a product and a
/// quotient have the sign of their terms, a number over an infinite one is zero,
/// one other than zero over zero is infinite, and what has no limit is not a
/// number. A negative number has no root.
pub proof fn law_infinite_terms(x: Single, y: Single)
    requires
        !x.is_nan(),
        !y.is_nan(),
    ensures
        x.is_infinite() && y.is_finite() ==> x + y == x && y + x == x && x - y == x,
        x.is_infinite() && y.is_infinite() ==> if x.negative() == y.negative() {
            x + y == x && (x - y).is_nan()
        } else {
            (x + y).is_nan() && x - y == x
        },
        (x.is_infinite() || y.is_infinite()) && !x.is_zero() && !y.is_zero() ==> (x
            * y).is_infinite() && (x * y).negative() == (x.negative() != y.negative()),
        x.is_infinite() && y.is_zero() ==> (x * y).is_nan() && (y * x).is_nan(),
        x.is_infinite() && y.is_finite() || !x.is_zero() && y.is_zero() ==> (x / y).is_infinite()
            && (x / y).negative() == (x.negative() != y.negative()),
        x.is_finite() && y.is_infinite() ==> (x / y).is_zero() && (x / y).negative() == (
        x.negative() != y.negative()),
        x.is_infinite() && y.is_infinite() || x.is_zero() && y.is_zero() ==> (x / y).is_nan(),
        x.is_infinite() && !x.negative() ==> x.root() == x,
        x.negative() && !x.is_zero() ==> x.root().is_nan(),
        x.is_zero() ==> x.root() == x,
{
    reveal(Single::spec_add);
    reveal(Single::spec_mul);
    reveal(Single::spec_div);
    lemma_opposite(y);
    lemma_signed(x.negative() != y.negative(), INFINITY as nat);
    lemma_signed(x.negative() != y.negative(), 0);
    lemma_signed(!y.negative(), INFINITY as nat);
}

/// Numbers compare by their values, and a number that vanishes is zero.
pub proof fn law_order(x: Single, y: Single)
    requires
        !x.is_nan(),
        !y.is_nan(),
    ensures
        x.at_least(y) <==> x.value() >= y.value(),
        x.at_least(y) || y.at_least(x),
        x.is_zero() <==> x.value() == 0,
        x.opposite().value() == -x.value(),
        x.opposite().opposite() == x,
        x.opposite().negative() != x.negative(),
{
    lemma_zero(x.pattern());
    lemma_opposite(x);
    lemma_taken_apart(x);
    lemma_opposite(x.opposite());
    lemma_taken_apart(x.opposite().opposite());
}

/// A blank section lets nothing through.
pub proof fn law_blank_is_silent(l: Single, r: Single)
    requires
        l.is_finite(),
        r.is_finite(),
    ensures
        ({
            let (x, y) = Biquad::blank().output(l, r);
            x.is_zero() && y.is_zero()
        }),
{
    lemma_blank_channel(l);
    lemma_blank_channel(r);
}

/// One channel of a blank section.
proof fn lemma_blank_channel(x: Single)
    requires
        x.is_finite(),
    ensures
        History::silent().output(Biquad::blank().coefficients, x).is_zero(),
{
    let zero = Single { bits: ZERO };
    let p = zero * x;
    let q = zero * zero;
    lemma_zero(0);
    law_commutative(zero, x);
    law_times_zero(x, zero);
    law_times_zero(zero, zero);
    lemma_signed(x.negative(), 0);
    lemma_signed(false, 0);
    law_sum_is_nearest(p, q);
    law_sum_is_nearest(p + q, q);
    law_difference_is_nearest(p + q + q, q);
    law_difference_is_nearest(p + q + q - q, q);
}

} // verus!
