//! Laws of single-precision arithmetic.
use vstd::arithmetic::mul::lemma_mul_is_commutative;
use vstd::arithmetic::power2::{
    lemma_pow2_adds, lemma_pow2_pos, lemma_pow2_strictly_increases, lemma_pow2_unfold, pow2,
};
use vstd::prelude::*;

use crate::constants::{HALF, ONE, TWO, ZERO};
use crate::grid::{
    is_nearest, lemma_compose, lemma_exact, lemma_increasing, lemma_nearest_exists,
    lemma_nearest_monotone, lemma_nearest_unique, lemma_overflow, lemma_parts,
    lemma_passes_monotone, lemma_step, lemma_zero, magnitude, nearest, passes, scale, significand,
    BINADE, INFINITY,
};
use crate::single::{rounded, signed, Single, NAN, SIGN};

verus! {

/// Whether a number can be the result of an operation: if it is not a number,
/// it is the one pattern that operations return.
pub open spec fn is_canonical(x: Single) -> bool {
    x.is_nan() ==> x.bits == NAN
}

/// The absolute value of an integer.
pub open spec fn abs(x: int) -> int {
    if x < 0 {
        -x
    } else {
        x
    }
}

/// A number is put together from its sign and its pattern.
pub proof fn lemma_signed(negative: bool, m: nat)
    requires
        m < SIGN,
    ensures
        signed(negative, m).negative() == negative,
        signed(negative, m).pattern() == m,
{
}

/// A number is its sign and its pattern.
pub proof fn lemma_taken_apart(x: Single)
    ensures
        signed(x.negative(), x.pattern()) == x,
        x.pattern() < SIGN,
{
}

/// The magnitudes of the numbers one half, one and two.
pub proof fn lemma_small_powers()
    ensures
        magnitude(HALF as nat) == pow2(148),
        magnitude(ONE as nat) == pow2(149),
        magnitude(TWO as nat) == pow2(150),
        pow2(149) == 2 * pow2(148),
        pow2(150) == 2 * pow2(149),
        pow2(148) > 0,
{
    assert(pow2(23) == BINADE) by {
        vstd::arithmetic::power2::lemma2_to64();
    }
    lemma_compose(125, BINADE as nat);
    lemma_compose(126, BINADE as nat);
    lemma_compose(127, BINADE as nat);
    lemma_pow2_adds(23, 125);
    lemma_pow2_adds(23, 126);
    lemma_pow2_adds(23, 127);
    lemma_pow2_unfold(149);
    lemma_pow2_unfold(150);
    lemma_pow2_pos(148);
}

/// The nearest pattern is within the range of patterns.
pub proof fn lemma_nearest_bounded(n: nat, d: nat)
    ensures
        nearest(n, d) <= INFINITY,
        is_nearest(n, d, nearest(n, d)),
{
    lemma_nearest_exists(n, d);
}

/// Operations return canonical results.
pub proof fn lemma_results_canonical(x: Single, y: Single)
    ensures
        is_canonical(x + y),
        is_canonical(x - y),
        is_canonical(x * y),
        is_canonical(x / y),
{
    reveal(Single::spec_mul);
    reveal(Single::spec_div);
    lemma_sum_canonical(x, y);
    lemma_sum_canonical(x, y.opposite());
    lemma_nearest_bounded(magnitude(x.pattern()) * magnitude(y.pattern()), pow2(149));
    lemma_nearest_bounded(magnitude(x.pattern()) * pow2(149), magnitude(y.pattern()));
}

proof fn lemma_sum_canonical(x: Single, y: Single)
    ensures
        is_canonical(x + y),
{
    reveal(Single::spec_add);
    let v = x.value() + y.value();
    lemma_nearest_bounded(v as nat, 1);
    lemma_nearest_bounded((-v) as nat, 1);
}

/// Sums and products do not depend on the order of their terms.
pub proof fn law_commutative(x: Single, y: Single)
    ensures
        x + y == y + x,
        x * y == y * x,
{
    reveal(Single::spec_add);
    reveal(Single::spec_mul);
    lemma_mul_is_commutative(magnitude(x.pattern()) as int, magnitude(y.pattern()) as int);
}

/// A finite number other than zero is the rounding of its value.
pub proof fn lemma_rounded_value(x: Single)
    requires
        x.is_finite(),
        !x.is_zero(),
    ensures
        rounded(x.value()) == x,
        x.value() != 0,
        x.negative() <==> x.value() < 0,
{
    let m = x.pattern();
    lemma_zero(m);
    lemma_exact(magnitude(m), 1, m);
    lemma_taken_apart(x);
}

/// Adding a zero changes nothing but the sign of a negative zero, and that
/// only if the zero added is positive.
pub proof fn law_add_zero(x: Single, z: Single)
    requires
        !x.is_nan(),
        z.is_zero(),
        x == signed(true, 0) ==> z.negative(),
    ensures
        x + z == x,
{
    reveal(Single::spec_add);
    lemma_zero(x.pattern());
    if x.is_finite() {
        if !x.is_zero() {
            lemma_rounded_value(x);
        }
    }
}

/// Multiplying or dividing by one changes nothing.
pub proof fn law_times_one(x: Single)
    requires
        is_canonical(x),
    ensures
        x * (Single { bits: ONE }) == x,
        (Single { bits: ONE }) * x == x,
        x / (Single { bits: ONE }) == x,
{
    reveal(Single::spec_mul);
    reveal(Single::spec_div);
    let one = Single { bits: ONE };
    lemma_small_powers();
    law_commutative(x, one);
    lemma_taken_apart(x);
    if x.is_finite() {
        let m = x.pattern();
        lemma_mul_is_commutative(magnitude(m) as int, pow2(149) as int);
        lemma_exact(magnitude(m) * pow2(149), pow2(149), m);
    }
}

/// A finite number times zero is zero.
pub proof fn law_times_zero(x: Single, z: Single)
    requires
        x.is_finite(),
        z.is_zero(),
    ensures
        x * z == signed(x.negative() != z.negative(), 0),
{
    reveal(Single::spec_mul);
    lemma_zero(0);
    lemma_pow2_pos(149);
    vstd::arithmetic::mul::lemma_mul_by_zero_is_zero(magnitude(x.pattern()) as int);
    vstd::arithmetic::mul::lemma_mul_by_zero_is_zero(pow2(149) as int);
    lemma_exact(0, pow2(149), 0);
}

/// A finite number less itself is positive zero.
pub proof fn law_minus_itself(x: Single)
    requires
        x.is_finite(),
    ensures
        x - x == (Single { bits: ZERO }),
{
    reveal(Single::spec_add);
}

/// Rounding keeps the order of integers.
pub proof fn law_rounding_monotone(x: int, y: int)
    requires
        x <= y,
    ensures
        rounded(x).value() <= rounded(y).value(),
{
    lemma_rounded_parts(x);
    lemma_rounded_parts(y);
    let a = abs(x) as nat;
    let b = abs(y) as nat;
    if x >= 0 {
        lemma_nearest_monotone(a, 1, nearest(a, 1), b, 1, nearest(b, 1));
        lemma_increasing(nearest(a, 1), nearest(b, 1));
    } else if y < 0 {
        lemma_nearest_monotone(b, 1, nearest(b, 1), a, 1, nearest(a, 1));
        lemma_increasing(nearest(b, 1), nearest(a, 1));
    }
}

/// The sign and the pattern of a rounded integer.
pub proof fn lemma_rounded_parts(x: int)
    ensures
        rounded(x).negative() == (x < 0),
        rounded(x).pattern() == nearest(abs(x) as nat, 1),
        is_nearest(abs(x) as nat, 1, nearest(abs(x) as nat, 1)),
        !rounded(x).is_nan(),
{
    lemma_nearest_bounded(abs(x) as nat, 1);
    lemma_signed(x < 0, nearest(abs(x) as nat, 1));
}

/// Patterns up to the first power of two of the second binade are their own
/// magnitudes.
pub proof fn lemma_small_magnitude(m: nat)
    requires
        m <= 2 * BINADE,
    ensures
        magnitude(m) == m,
{
    assert(pow2(0) == 1 && pow2(1) == 2) by {
        vstd::arithmetic::power2::lemma2_to64();
    }
    if m < 2 * BINADE {
        lemma_compose(0, m);
    } else {
        lemma_compose(1, BINADE as nat);
    }
}

/// The magnitude of a pattern beyond the subnormal range is at least
/// 2 to the 23 of its steps.
pub proof fn lemma_precise(m: nat)
    requires
        BINADE <= m <= INFINITY,
    ensures
        magnitude(m) >= BINADE * pow2(scale(m)),
{
    lemma_parts(m);
    let q = significand(m);
    let p = pow2(scale(m));
    assert(q * p >= BINADE * p) by (nonlinear_arith)
        requires
            q >= BINADE,
    ;
}

/// Rounding an integer to a finite number moves it by at most one part in
/// 2 to the 24.
pub proof fn law_rounding_error(x: int)
    requires
        rounded(x).is_finite(),
    ensures
        abs(rounded(x).value() - x) * 0x100_0000 <= abs(x),
{
    let n = abs(x) as nat;
    lemma_rounded_parts(x);
    let m = nearest(n, 1);
    if n <= 2 * BINADE {
        lemma_small_magnitude(n);
        lemma_exact(n, 1, n);
    } else {
        lemma_small_magnitude(2 * BINADE as nat);
        lemma_exact(2 * BINADE as nat, 1, 2 * BINADE as nat);
        lemma_nearest_monotone(2 * BINADE as nat, 1, 2 * BINADE as nat, n, 1, m);
        let p = (m - 1) as nat;
        lemma_step(m);
        lemma_step(p);
        lemma_precise(m);
        lemma_precise(p);
    }
}

/// A sum of finite numbers that is within the finite range, or rounds into it,
/// is finite and has at most the rounding error of its value.
pub proof fn lemma_sum(x: Single, y: Single)
    requires
        x.is_finite(),
        y.is_finite(),
        (x + y).is_finite(),
    ensures
        abs((x + y).value() - (x.value() + y.value())) * 0x100_0000 <= abs(x.value() + y.value()),
{
    reveal(Single::spec_add);
    let v = x.value() + y.value();
    if v == 0 {
        lemma_zero(0);
        lemma_signed(x.negative() && y.negative(), 0);
    } else {
        law_rounding_error(v);
    }
}

/// The opposite of a number has the opposite value.
pub proof fn lemma_opposite(x: Single)
    ensures
        x.opposite().value() == -x.value(),
        x.opposite().pattern() == x.pattern(),
        x.opposite().negative() == !x.negative(),
{
    lemma_taken_apart(x);
    lemma_signed(!x.negative(), x.pattern());
}

/// The sum of two finite numbers is the rounding of the sum of their values,
/// as far as values go.
pub proof fn lemma_sum_value(x: Single, y: Single)
    requires
        x.is_finite(),
        y.is_finite(),
    ensures
        (x + y).value() == rounded(x.value() + y.value()).value(),
        (x + y).pattern() == rounded(x.value() + y.value()).pattern(),
{
    reveal(Single::spec_add);
    let v = x.value() + y.value();
    if v == 0 {
        lemma_zero(0);
        lemma_signed(x.negative() && y.negative(), 0);
        lemma_exact(0, 1, 0);
        lemma_signed(false, 0);
    }
}

/// The pattern nearest to half a magnitude.
proof fn lemma_half_pattern(m: nat, k: nat)
    requires
        m < INFINITY,
        is_nearest(magnitude(m) * pow2(148), pow2(149), k),
    ensures
        k < INFINITY,
        -1 <= 2 * magnitude(k) - magnitude(m) <= 1,
        magnitude(m) % 2 == 0 ==> 2 * magnitude(k) == magnitude(m),
{
    let v = magnitude(m);
    let h = pow2(148);
    let d = pow2(149);
    let n = v * h;
    lemma_small_powers();
    lemma_parts(m);
    if m < 2 * BINADE {
        lemma_small_magnitude(m);
        let cap = BINADE as nat;
        if k > cap {
            let p = (k - 1) as nat;
            lemma_increasing(cap, p);
            lemma_increasing(cap + 1, k);
            lemma_small_magnitude(cap);
            lemma_small_magnitude(cap + 1);
            let mid = magnitude(p) + magnitude(k);
            assert(false) by (nonlinear_arith)
                requires
                    2 * n >= d * mid,
                    n == v * h,
                    d == 2 * h,
                    h > 0,
                    v < mid,
            ;
        }
        lemma_small_magnitude(k);
        lemma_small_magnitude(k + 1);
        assert(v <= 2 * k + 1) by (nonlinear_arith)
            requires
                2 * n <= d * (2 * k + 1),
                n == v * h,
                d == 2 * h,
                h > 0,
        ;
        if k > 0 {
            lemma_small_magnitude((k - 1) as nat);
            assert(v >= 2 * k - 1) by (nonlinear_arith)
                requires
                    2 * n >= d * (2 * k - 1),
                    n == v * h,
                    d == 2 * h,
                    h > 0,
            ;
        }
        if v % 2 == 0 {
            assert(v == 2 * k);
        }
    } else {
        let s = scale(m);
        let q = significand(m);
        let j = (s - 1) as nat * BINADE as nat + q;
        lemma_compose((s - 1) as nat, q);
        lemma_pow2_unfold(s);
        assert(v == 2 * magnitude(j)) by (nonlinear_arith)
            requires
                v == q * pow2(s),
                pow2(s) == 2 * pow2((s - 1) as nat),
                magnitude(j) == q * pow2((s - 1) as nat),
        ;
        assert(n == d * magnitude(j)) by (nonlinear_arith)
            requires
                n == v * h,
                d == 2 * h,
                v == 2 * magnitude(j),
        ;
        lemma_exact(n, d, j);
        lemma_nearest_unique(n, d, k);
    }
}

/// Half of a finite number is exact, but for an odd multiple of the smallest
/// number, which has no exact half and goes to a neighbour.
pub proof fn law_half(x: Single)
    requires
        x.is_finite(),
    ensures
        ((Single { bits: HALF }) * x).is_finite(),
        abs(2 * ((Single { bits: HALF }) * x).value() - x.value()) <= 1,
        x.value() % 2 == 0 ==> 2 * ((Single { bits: HALF }) * x).value() == x.value(),
{
    reveal(Single::spec_mul);
    let half = Single { bits: HALF };
    let m = x.pattern();
    lemma_small_powers();
    lemma_mul_is_commutative(magnitude(m) as int, pow2(148) as int);
    lemma_nearest_bounded(magnitude(m) * pow2(148), pow2(149));
    let k = nearest(magnitude(m) * pow2(148), pow2(149));
    lemma_half_pattern(m, k);
    lemma_signed(x.negative(), k);
}

/// The largest finite magnitude.
pub open spec fn largest() -> nat {
    magnitude((INFINITY - 1) as nat)
}

/// The finite numbers end at the largest magnitude, and an integer that
/// exceeds it by no more than the number one still rounds to it.
pub proof fn lemma_finite_range(x: int)
    ensures
        abs(x) <= largest() + pow2(149) ==> rounded(x).is_finite(),
        pow2(149) >= 1,
{
    let top = (INFINITY - 1) as nat;
    lemma_step(top);
    lemma_small_powers();
    lemma_compose(253, (2 * BINADE - 1) as nat);
    lemma_pow2_strictly_increases(150, 253);
    lemma_rounded_parts(x);
}

/// A finite number is within the finite range.
pub proof fn lemma_finite_bounded(x: Single)
    requires
        x.is_finite(),
    ensures
        abs(x.value()) <= largest(),
{
    lemma_increasing(x.pattern(), (INFINITY - 1) as nat);
}

/// A finite number that rounds from its own value has that value.
pub proof fn lemma_rounded_self(x: Single)
    requires
        x.is_finite(),
    ensures
        rounded(x.value()).value() == x.value(),
{
    if x.is_zero() {
        lemma_zero(0);
        lemma_exact(0, 1, 0);
        lemma_signed(false, 0);
    } else {
        lemma_rounded_value(x);
    }
}

/// Whether two numbers are the same but for the sign of a zero.
pub open spec fn alike(x: Single, y: Single) -> bool {
    x == y || x.is_zero() && y.is_zero()
}

/// Sums, products and opposites of like numbers are alike.
pub proof fn law_alike(x: Single, x2: Single, y: Single, y2: Single)
    requires
        alike(x, x2),
        alike(y, y2),
    ensures
        alike(x + y, x2 + y2),
        alike(x - y, x2 - y2),
        alike(x * y, x2 * y2),
{
    lemma_opposite(y);
    lemma_opposite(y2);
    lemma_alike_sum(x, x2, y, y2);
    lemma_alike_sum(x, x2, y.opposite(), y2.opposite());
    reveal(Single::spec_mul);
    if x.is_finite() && y.is_finite() && (x != x2 || y != y2) {
        if x != x2 {
            law_commutative(x, y);
            law_commutative(x2, y2);
            law_times_zero(y, x);
            law_times_zero(y2, x2);
        } else {
            law_times_zero(x, y);
            law_times_zero(x2, y2);
        }
    }
}

proof fn lemma_alike_sum(x: Single, x2: Single, y: Single, y2: Single)
    requires
        alike(x, x2),
        alike(y, y2),
    ensures
        alike(x + y, x2 + y2),
{
    reveal(Single::spec_add);
    lemma_zero(0);
}

/// A finite result has finite terms.
pub proof fn law_finite_terms(x: Single, y: Single)
    ensures
        (x + y).is_finite() ==> x.is_finite() && y.is_finite(),
        (x - y).is_finite() ==> x.is_finite() && y.is_finite(),
        (x * y).is_finite() ==> x.is_finite() && y.is_finite(),
{
    reveal(Single::spec_add);
    reveal(Single::spec_mul);
    lemma_opposite(y);
}

/// How far a nearest pattern is from the number it stands for: at most one
/// part in 2 to the 24, and half of the smallest number. Beyond the subnormal
/// range, at most one part in 2 to the 24 of what it names.
pub proof fn lemma_nearest_error(n: nat, d: nat, m: nat)
    requires
        d > 0,
        m < INFINITY,
        is_nearest(n, d, m),
    ensures
        abs(d * magnitude(m) - n) * 0x100_0000 <= n + d * 0x80_0000,
        m >= BINADE ==> abs(d * magnitude(m) - n) * 0x100_0000 <= d * magnitude(m),
{
    let v = magnitude(m);
    let dv = d * v;
    lemma_step(m);
    let up = pow2(scale(m));
    assert(2 * n <= 2 * dv + d * up) by (nonlinear_arith)
        requires
            2 * n <= d * (v + (v + up)),
            dv == d * v,
    ;
    if m >= BINADE {
        lemma_precise(m);
        assert(dv >= d * up * 0x80_0000) by (nonlinear_arith)
            requires
                v >= 0x80_0000 * up,
                dv == d * v,
        ;
    } else {
        assert(up == 1) by {
            vstd::arithmetic::power2::lemma2_to64();
        }
        assert(d * up == d) by (nonlinear_arith)
            requires
                up == 1,
        ;
    }
    if m == 0 {
        lemma_zero(0);
        vstd::arithmetic::mul::lemma_mul_by_zero_is_zero(d as int);
    } else {
        let p = (m - 1) as nat;
        let down = pow2(scale(p));
        lemma_step(p);
        assert(2 * n >= 2 * dv - d * down) by (nonlinear_arith)
            requires
                2 * n >= d * (magnitude(p) + v),
                v == magnitude(p) + down,
                dv == d * v,
        ;
        if m > BINADE {
            lemma_precise(p);
            let w = magnitude(p);
            assert(dv - d * down >= d * down * 0x80_0000) by (nonlinear_arith)
                requires
                    w >= 0x80_0000 * down,
                    v == w + down,
                    dv == d * v,
            ;
        } else {
            assert(down == 1) by {
                vstd::arithmetic::power2::lemma2_to64();
            }
            assert(d * down == d) by (nonlinear_arith)
                requires
                    down == 1,
            ;
        }
    }
}

/// A finite product is the exact one to within one part in 2 to the 24 and
/// half of the smallest number.
pub proof fn law_product_error(x: Single, y: Single)
    requires
        (x * y).is_finite(),
    ensures
        abs(pow2(149) * (x * y).value() - x.value() * y.value()) * 0x100_0000 <= abs(
            x.value() * y.value(),
        ) + pow2(149) * 0x80_0000,
{
    law_finite_terms(x, y);
    reveal(Single::spec_mul);
    let a = magnitude(x.pattern());
    let b = magnitude(y.pattern());
    let n = a * b;
    lemma_pow2_pos(149);
    lemma_nearest_bounded(n, pow2(149));
    let m = nearest(n, pow2(149));
    let negative = x.negative() != y.negative();
    lemma_signed(negative, m);
    lemma_nearest_error(n, pow2(149), m);
    let u = pow2(149);
    let v = magnitude(m);
    assert((-(a as int)) * (b as int) == -(n as int) && (a as int) * (-(b as int)) == -(n as int)
        && (-(a as int)) * (-(b as int)) == n && u * (-(v as int)) == -(u * v)) by (nonlinear_arith)
        requires
            n == a * b,
    ;
}

/// The pattern of twice the magnitude.
pub open spec fn doubled_pattern(m: nat) -> nat {
    if m < BINADE {
        2 * m
    } else {
        m + BINADE as nat
    }
}

/// A doubled pattern names twice the magnitude.
pub proof fn lemma_doubled_pattern(m: nat)
    requires
        m <= INFINITY,
    ensures
        magnitude(doubled_pattern(m)) == 2 * magnitude(m),
{
    let j = doubled_pattern(m);
    if m < BINADE {
        lemma_small_magnitude(m);
        lemma_small_magnitude(j);
    } else {
        let s = scale(m);
        let q = significand(m);
        lemma_parts(m);
        lemma_compose(s + 1, q);
        lemma_pow2_unfold(s + 1);
        assert(q * pow2(s + 1) == 2 * (q * pow2(s))) by (nonlinear_arith)
            requires
                pow2(s + 1) == 2 * pow2(s),
        ;
    }
}

/// Twice a number passes the doubled pattern where the number passes the
/// pattern.
proof fn lemma_passes_doubled(n: nat, d: nat, k: nat)
    requires
        BINADE <= k < INFINITY,
    ensures
        passes(2 * n, d, k + BINADE as nat) == passes(n, d, k),
{
    lemma_doubled_pattern(k);
    lemma_doubled_pattern(k + 1);
    let x = magnitude(k);
    let y = magnitude(k + 1);
    assert(d * (2 * x + 2 * y) == 2 * (d * (x + y))) by (nonlinear_arith);
    assert((k + BINADE as nat) % 2 == k % 2);
}

/// The smaller of a pattern and infinity.
pub open spec fn capped(m: nat) -> nat {
    if m < INFINITY {
        m
    } else {
        INFINITY as nat
    }
}

/// Rounding commutes with doubling from the smallest normal number on.
pub proof fn lemma_nearest_doubled(n: nat, d: nat, m: nat)
    requires
        d > 0,
        BINADE <= m < INFINITY,
        n >= d * BINADE,
        is_nearest(n, d, m),
    ensures
        is_nearest(2 * n, d, capped(doubled_pattern(m))),
{
    let j = doubled_pattern(m);
    if m == BINADE {
        let k = (2 * BINADE - 1) as nat;
        lemma_passes_doubled(n, d, m);
        lemma_small_magnitude(k);
        lemma_small_magnitude(k + 1);
        assert(2 * (2 * n) > d * (k + (k + 1))) by (nonlinear_arith)
            requires
                d > 0,
                n >= d * BINADE,
                k == 2 * BINADE - 1,
        ;
    } else if j <= INFINITY {
        lemma_passes_doubled(n, d, (m - 1) as nat);
        lemma_passes_doubled(n, d, m);
    } else {
        let k = (INFINITY - 1 - BINADE) as nat;
        lemma_passes_monotone(n, d, (m - 1) as nat, n, d, k);
        lemma_passes_doubled(n, d, k);
    }
}

/// Twice a number, as a sum: the pattern is doubled and the sign kept.
pub proof fn law_double(x: Single)
    requires
        x.is_finite(),
    ensures
        x + x == signed(x.negative(), capped(doubled_pattern(x.pattern()))),
        (x + x).is_finite() ==> (x + x).value() == 2 * x.value(),
{
    reveal(Single::spec_add);
    let m = x.pattern();
    let j = doubled_pattern(m);
    let v = 2 * magnitude(m);
    lemma_zero(m);
    lemma_doubled_pattern(m);
    if j <= INFINITY {
        lemma_exact(v, 1, j);
    } else {
        lemma_increasing(INFINITY as nat, j);
        lemma_overflow(v, 1);
        lemma_nearest_unique(v, 1, INFINITY as nat);
    }
    lemma_signed(x.negative(), capped(j));
}

/// A product with a factor between zero and one half is at most half of the
/// other factor, rounded up to a whole unit, and has its sign.
pub proof fn law_small_share(x: Single, share: Single)
    requires
        x.is_finite(),
        !share.negative(),
        !share.is_nan(),
        (Single { bits: HALF }).at_least(share),
    ensures
        (x * share).is_finite(),
        2 * abs((x * share).value()) <= abs(x.value()) + 1,
        x.value() >= 0 ==> (x * share).value() >= 0,
        x.value() <= 0 ==> (x * share).value() <= 0,
{
    reveal(Single::spec_mul);
    let half = Single { bits: HALF };
    let m = x.pattern();
    let a = magnitude(m);
    let b = magnitude(share.pattern());
    lemma_small_powers();
    lemma_zero(m);
    if !share.is_finite() {
        lemma_increasing(ONE as nat, INFINITY as nat);
    }
    let d = pow2(149);
    lemma_nearest_bounded(a * b, d);
    lemma_nearest_bounded(a * pow2(148), d);
    let k = nearest(a * b, d);
    let j = nearest(a * pow2(148), d);
    lemma_half_pattern(m, j);
    assert(a * b * d <= a * pow2(148) * d) by (nonlinear_arith)
        requires
            b <= pow2(148),
    ;
    lemma_nearest_monotone(a * b, d, k, a * pow2(148), d, j);
    lemma_increasing(k, j);
    lemma_signed(x.negative(), k);
    if m == 0 {
        law_commutative(x, share);
        law_times_zero(share, x);
        lemma_zero(0);
        lemma_signed(x.negative(), 0);
    }
}

/// The opposite of a factor gives the opposite product.
pub proof fn law_opposite_factor(x: Single, y: Single)
    ensures
        (x * y).is_nan() || x * y.opposite() == (x * y).opposite(),
        (x * y).is_nan() || x.opposite() * y == (x * y).opposite(),
        (x * y).is_nan() ==> (x * y.opposite()).is_nan() && (x.opposite() * y).is_nan(),
{
    reveal(Single::spec_mul);
    lemma_opposite(x);
    lemma_opposite(y);
    lemma_nearest_bounded(magnitude(x.pattern()) * magnitude(y.pattern()), pow2(149));
}

/// Zero plus a number and zero less a number, but for the sign of a zero.
pub proof fn law_from_zero(y: Single)
    requires
        !y.is_nan(),
        !y.is_zero(),
    ensures
        (Single { bits: ZERO }) + y == y,
        (Single { bits: ZERO }) - y == y.opposite(),
{
    let zero = Single { bits: ZERO };
    lemma_opposite(y);
    law_commutative(zero, y);
    law_commutative(zero, y.opposite());
    law_add_zero(y, zero);
    law_add_zero(y.opposite(), zero);
}

/// One and one are two.
pub proof fn lemma_one_and_one()
    ensures
        (Single { bits: ONE }) + (Single { bits: ONE }) == (Single { bits: TWO }),
{
    reveal(Single::spec_add);
    lemma_small_powers();
    lemma_rounded_value(Single { bits: TWO });
}

} // verus!
