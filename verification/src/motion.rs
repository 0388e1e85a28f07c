//! How a smoother moves: by its share of the distance in every sample, and so
//! as near to any target as rounding lets it.
use vstd::arithmetic::power2::{lemma_pow2_adds, pow2};
use vstd::prelude::*;

use crate::arithmetic::{
    abs, law_finite_terms, law_product_error, lemma_opposite, lemma_rounded_parts,
    lemma_small_powers, lemma_sum, lemma_sum_value,
};
use crate::grid::{lemma_increasing, lemma_nearest_monotone, lemma_zero, nearest};
use crate::laws::law_smoother_never_overshoots;
use crate::single::Single;
use crate::smoother::Smoother;

verus! {

/// The absolute value of a product.
pub proof fn lemma_abs_product(x: int, y: int)
    ensures
        abs(x * y) == abs(x) * abs(y),
        x * y == y * x,
{
    assert((x >= 0 && y >= 0 ==> x * y >= 0) && (x >= 0 && y <= 0 ==> x * y <= 0) && (x <= 0 && y
        >= 0 ==> x * y <= 0) && (x <= 0 && y <= 0 ==> x * y >= 0)) by (nonlinear_arith);
    assert((-x) * y == -(x * y) && x * (-y) == -(x * y) && (-x) * (-y) == x * y && x * y == y * x)
        by (nonlinear_arith);
}

/// How the three roundings of a step add up: `a` is the distance times the
/// share, `b` the rounded distance times the share, `q` the rounded product,
/// `m` the sum with it, and `r` the rounded sum, with `h` the present value, all
/// in units of the square of the smallest number.
proof fn lemma_step_errors(u: int, a: int, b: int, q: int, h: int, r: int)
    requires
        u > 0,
        abs(b - a) * 0x100_0000 <= abs(a),
        abs(q - b) * 0x100_0000 <= abs(b) + u * 0x80_0000,
        abs(r - (h + q)) * 0x100_0000 <= abs(h + q),
    ensures
        abs(r - (h + a)) * 0x100_0000 <= 2 * abs(r) + 3 * abs(a) + u * 0x80_0000,
{
}

/// A smoother moves by its share of the distance to the target: the new value
/// is within rounding of the present one and that step, whatever the target.
pub proof fn law_smoother_step(s: Smoother)
    requires
        s.next().is_finite(),
    ensures
        ({
            let u = pow2(149);
            let (c, t, k) = (s.current.value(), s.target.value(), s.coef.value());
            let n = s.next().value();
            abs(u * n - (u * c + k * (t - c))) * 0x100_0000 <= 2 * abs(u * n) + 3 * abs(k * (t - c))
                + u * 0x80_0000
        }),
{
    let u = pow2(149) as int;
    let d = s.target - s.current;
    let p = d * s.coef;
    lemma_small_powers();
    law_finite_terms(s.current, p);
    law_finite_terms(d, s.coef);
    law_finite_terms(s.target, s.current);
    lemma_opposite(s.current);
    lemma_sum(s.target, s.current.opposite());
    law_product_error(d, s.coef);
    lemma_sum(s.current, p);
    let (c, t, k) = (s.current.value(), s.target.value(), s.coef.value());
    let (dv, pv, n) = (d.value(), p.value(), s.next().value());
    let e = dv - (t - c);
    lemma_abs_product(e, k);
    lemma_abs_product(t - c, k);
    let (x, y, z) = (abs(e), abs(t - c), abs(k));
    assert(x * z * 0x100_0000 <= y * z) by (nonlinear_arith)
        requires
            x * 0x100_0000 <= y,
            z >= 0,
    ;
    assert(e * k == dv * k - k * (t - c) && (t - c) * k == k * (t - c)) by (nonlinear_arith)
        requires
            e == dv - (t - c),
    ;
    let f = n - (c + pv);
    lemma_abs_product(f, u);
    lemma_abs_product(c + pv, u);
    let (v, w) = (abs(f), abs(c + pv));
    assert(v * u * 0x100_0000 <= w * u) by (nonlinear_arith)
        requires
            v * 0x100_0000 <= w,
            u >= 0,
    ;
    assert(f * u == u * n - (u * c + u * pv) && (c + pv) * u == u * c + u * pv) by (nonlinear_arith)
        requires
            f == n - (c + pv),
    ;
    lemma_step_errors(u, k * (t - c), dv * k, u * pv, u * c, u * n);
}

/// How far the value is from its target.
pub open spec fn distance(s: Smoother) -> int {
    abs(s.target.value() - s.current.value())
}

/// The larger of the present value and the target, by their absolute values.
pub open spec fn extent(s: Smoother) -> int {
    if abs(s.current.value()) < abs(s.target.value()) {
        abs(s.target.value())
    } else {
        abs(s.current.value())
    }
}

/// Whether a smoother can move: finite, with a share above zero and at most
/// one half.
pub open spec fn can_move(s: Smoother) -> bool {
    &&& s.current.is_finite()
    &&& s.target.is_finite()
    &&& (s.target - s.current).is_finite()
    &&& s.gradual()
    &&& s.coef.value() > 0
}

/// Whether a step of the share `k` over the distance `d` is lost in the
/// roundings of numbers of the size `m`: it is less than sixteen units in their
/// last place, or than one smallest number.
pub open spec fn is_lost(k: int, d: int, m: int) -> bool {
    k * d * 0x10_0000 < pow2(149) * (m + 0x10_0000)
}

/// One step, in terms of distances: `d` and `e` are those before and after,
/// `a` the step, `r` the new value.
proof fn lemma_step_shrinks(w: int, h: int, a: int, r: int, m: int, d: int, e: int, u: int)
    requires
        u > 0,
        abs(r - (h + a)) * 0x100_0000 <= 2 * abs(r) + 3 * abs(a) + u * 0x80_0000,
        abs(r) <= m,
        abs(a) <= m,
        d == abs(w - h),
        e == abs(w - r),
        w >= h ==> h <= r <= w && 0 <= a <= w - h,
        w < h ==> w <= r <= h && w - h <= a <= 0,
        abs(a) * 0x10_0000 >= m + u * 0x10_0000,
    ensures
        2 * e <= 2 * d - abs(a),
{
}

/// A smoother makes progress: with a share of at most one half, a step that is
/// not lost in the roundings takes at least half of the share off the distance,
/// whatever the target. No step adds to it.
pub proof fn law_smoother_progresses(s: Smoother)
    requires
        can_move(s),
    ensures
        s.next().is_finite(),
        can_move(s.advanced()),
        s.advanced().target == s.target,
        s.advanced().coef == s.coef,
        distance(s.advanced()) <= distance(s),
        extent(s.advanced()) <= extent(s),
        !is_lost(s.coef.value(), distance(s), extent(s)) ==> 2 * pow2(149) * distance(s.advanced())
            <= (2 * pow2(149) - s.coef.value()) * distance(s),
{
    let u = pow2(149) as int;
    let (c, t, k) = (s.current.value(), s.target.value(), s.coef.value());
    let n = s.next().value();
    let (d, m) = (distance(s), extent(s));
    lemma_small_powers();
    lemma_stays_movable(s);
    assert(2 * k <= u) by {
        lemma_pow2_adds(148, 1);
        assert(pow2(1) == 2) by {
            vstd::arithmetic::power2::lemma2_to64();
        }
    }
    if !is_lost(k, d, m) {
        law_smoother_step(s);
        let a = k * (t - c);
        lemma_abs_product(t - c, k);
        lemma_abs_product(n, u);
        lemma_abs_product(t - c, u);
        lemma_abs_product(t - n, u);
        let (x, e) = (abs(n), abs(t - n));
        assert(u * n == n * u && u * (m + 0x10_0000) == u * m + u * 0x10_0000 && x * u <= m * u && m
            * u == u * m) by (nonlinear_arith)
            requires
                x <= m,
                u > 0,
        ;
        assert((t - c) * k == a && (t - c) * u == u * t - u * c && (t - n) * u == u * t - u * n)
            by (nonlinear_arith)
            requires
                a == k * (t - c),
        ;
        let (x, y, z) = (u * t, u * c, u * n);
        assert((t >= c ==> 0 <= a <= x - y && y <= z <= x) && (t < c ==> x - y <= a <= 0 && x <= z
            <= y)) by {
            lemma_step_sides(c, t, k, n, u);
        }
        assert(k * d == d * k && abs(a) <= m * u) by {
            assert(k * d == d * k && d * k <= m * u) by (nonlinear_arith)
                requires
                    0 <= d <= 2 * m,
                    0 <= 2 * k <= u,
            ;
        }
        lemma_step_shrinks(u * t, u * c, a, u * n, m * u, d * u, e * u, u);
        assert(2 * u * e == 2 * (e * u)) by (nonlinear_arith);
        assert((2 * u - k) * d == 2 * (d * u) - d * k) by (nonlinear_arith);
    }
}

/// A number no larger than a finite one is finite.
proof fn lemma_not_beyond(x: Single, y: Single)
    requires
        !x.is_nan(),
        y.is_finite(),
        abs(x.value()) <= abs(y.value()),
    ensures
        x.is_finite(),
{
    if !x.is_finite() {
        lemma_increasing(y.pattern(), x.pattern());
    }
}

/// A smoother that can move stays between where it was and where it goes, and
/// can move on.
proof fn lemma_stays_movable(s: Smoother)
    requires
        can_move(s),
    ensures
        s.next().is_finite(),
        can_move(s.advanced()),
        s.target.value() >= s.current.value() ==> s.current.value() <= s.next().value()
            <= s.target.value(),
        s.target.value() <= s.current.value() ==> s.target.value() <= s.next().value()
            <= s.current.value(),
{
    let (c, t, n) = (s.current.value(), s.target.value(), s.next().value());
    law_smoother_never_overshoots(s);
    if abs(n) <= abs(c) {
        lemma_not_beyond(s.next(), s.current);
    } else {
        lemma_not_beyond(s.next(), s.target);
    }
    lemma_opposite(s.current);
    lemma_opposite(s.next());
    lemma_sum_value(s.target, s.current.opposite());
    lemma_sum_value(s.target, s.next().opposite());
    let (x, y) = (abs(t - n) as nat, abs(t - c) as nat);
    lemma_rounded_parts(t - n);
    lemma_rounded_parts(t - c);
    lemma_nearest_monotone(x, 1, nearest(x, 1), y, 1, nearest(y, 1));
}

/// The signs of a step.
proof fn lemma_step_sides(c: int, t: int, k: int, n: int, u: int)
    requires
        0 <= 2 * k <= u,
        t >= c ==> c <= n <= t,
        t < c ==> t <= n <= c,
    ensures
        t >= c ==> 0 <= k * (t - c) <= u * t - u * c && u * c <= u * n <= u * t,
        t < c ==> u * t - u * c <= k * (t - c) <= 0 && u * t <= u * n <= u * c,
{
    assert(t >= c ==> 0 <= k * (t - c) <= u * t - u * c && u * c <= u * n <= u * t)
        by (nonlinear_arith)
        requires
            0 <= 2 * k <= u,
            t >= c ==> c <= n <= t,
    ;
    assert(t < c ==> u * t - u * c <= k * (t - c) <= 0 && u * t <= u * n <= u * c)
        by (nonlinear_arith)
        requires
            0 <= 2 * k <= u,
            t < c ==> t <= n <= c,
    ;
}

/// The smoother after a number of samples.
pub open spec fn moved(s: Smoother, n: nat) -> Smoother
    decreases n,
{
    if n == 0 {
        s
    } else {
        moved(s, (n - 1) as nat).advanced()
    }
}

/// The step of an induction: `a` and `b` are distances before and after a
/// sample, `n` the samples so far, `u` one, `k` the share.
proof fn lemma_one_more(u: int, k: int, n: int, d: int, a: int, b: int)
    requires
        u > 0,
        0 <= k <= u,
        n >= 0,
        a >= 0,
        d >= 0,
        a * (2 * u + n * k) <= 2 * u * d,
        2 * u * b <= (2 * u - k) * a,
    ensures
        b * (2 * u + (n + 1) * k) <= 2 * u * d,
{
    let w = 2 * u;
    let m = w + (n + 1) * k;
    // (w - k) * m <= w * (w + n * k)
    assert((w - k) * m <= w * (w + n * k)) by (nonlinear_arith)
        requires
            m == w + (n + 1) * k,
            k >= 0,
            n >= 0,
    ;
    let e = w + n * k;
    assert(m >= 0) by (nonlinear_arith)
        requires
            m == w + (n + 1) * k,
            k >= 0,
            n >= 0,
            w > 0,
    ;
    // w * b * m <= (w - k) * a * m <= w * e * a <= w * w * d
    assert(w * b * m <= (w - k) * a * m) by (nonlinear_arith)
        requires
            w * b <= (w - k) * a,
            m >= 0,
    ;
    assert((w - k) * a * m <= w * e * a) by (nonlinear_arith)
        requires
            (w - k) * m <= w * e,
            a >= 0,
    ;
    assert(w * e * a <= w * (w * d)) by (nonlinear_arith)
        requires
            a * e <= w * d,
            w > 0,
    ;
    assert(b * m <= w * d) by (nonlinear_arith)
        requires
            w * b * m <= w * (w * d),
            w > 0,
    ;
}

/// A smoother approaches any target: `n` samples divide the distance by at
/// least one and half the share times `n`, as long as its steps are not lost in
/// roundings.
pub proof fn law_smoother_approaches(s: Smoother, n: nat)
    requires
        can_move(s),
    ensures
        ({
            let u = pow2(149);
            let k = s.coef.value();
            let e = moved(s, n);
            &&& can_move(e)
            &&& e.target == s.target
            &&& e.coef == s.coef
            &&& distance(e) <= distance(s)
            &&& extent(e) <= extent(s)
            &&& is_lost(k, distance(e), extent(s)) || distance(e) * (2 * u + n * k) <= 2 * u
                * distance(s)
        }),
    decreases n,
{
    let u = pow2(149) as int;
    let k = s.coef.value();
    lemma_small_powers();
    if n > 0 {
        let p = (n - 1) as nat;
        let e = moved(s, p);
        law_smoother_approaches(s, p);
        law_smoother_progresses(e);
        lemma_stays_movable(s);
        let f = e.advanced();
        let (a, b, m, x) = (distance(e), distance(f), extent(s), extent(e));
        assert(k <= u) by {
            lemma_pow2_adds(148, 1);
            assert(pow2(1) == 2) by {
                vstd::arithmetic::power2::lemma2_to64();
            }
        }
        // Once a step is lost, so are those that follow.
        assert(k * b * 0x10_0000 <= k * a * 0x10_0000) by (nonlinear_arith)
            requires
                b <= a,
                k >= 0,
        ;
        assert(u * (x + 0x10_0000) <= u * (m + 0x10_0000)) by (nonlinear_arith)
            requires
                x <= m,
                u >= 0,
        ;
        if !is_lost(k, a, m) {
            lemma_one_more(u, k, p as int, distance(s), a, b);
        }
    } else {
        let d = distance(s);
        assert(d * (2 * u + 0 * k) == 2 * u * d) by (nonlinear_arith);
    }
}

/// In particular the distance halves in the number of samples that twice the
/// share goes into two, whatever the target.
pub proof fn law_smoother_halves(s: Smoother, n: nat)
    requires
        can_move(s),
        n * s.coef.value() >= 2 * pow2(149),
    ensures
        2 * distance(moved(s, n)) <= distance(s) || is_lost(
            s.coef.value(),
            distance(moved(s, n)),
            extent(s),
        ),
{
    let u = pow2(149) as int;
    let k = s.coef.value();
    lemma_small_powers();
    law_smoother_approaches(s, n);
    let (a, d) = (distance(moved(s, n)), distance(s));
    let m = n * k;
    if !is_lost(k, a, extent(s)) {
        assert(2 * a <= d) by (nonlinear_arith)
            requires
                a * (2 * u + m) <= 2 * u * d,
                m >= 2 * u,
                a >= 0,
                u > 0,
        ;
    }
}

/// The samples of two stretches, one after the other.
proof fn lemma_moved_on(s: Smoother, n: nat, m: nat)
    ensures
        moved(moved(s, n), m) == moved(s, n + m),
    decreases m,
{
    if m > 0 {
        lemma_moved_on(s, n, (m - 1) as nat);
    }
}

/// A smoother that goes to zero falls below any power of two down to 2 to the
/// power -134: with a share of at least 2 to the power -14, every stretch of
/// samples that the share goes into twice halves it.
pub proof fn law_smoother_vanishes(s: Smoother, n: nat, m: nat)
    requires
        can_move(s),
        s.target.is_zero(),
        s.coef.value() * 0x4000 >= pow2(149),
        n * s.coef.value() >= 2 * pow2(149),
    ensures
        can_move(moved(s, n * m)),
        moved(s, n * m).target == s.target,
        moved(s, n * m).coef == s.coef,
        abs(moved(s, n * m).current.value()) * pow2(m) <= abs(s.current.value()) || abs(
            moved(s, n * m).current.value(),
        ) <= 0x8000,
    decreases m,
{
    lemma_zero(0);
    assert(n * 0 == 0) by (nonlinear_arith);
    assert(pow2(0) == 1) by {
        vstd::arithmetic::power2::lemma2_to64();
    }
    if m > 0 {
        let p = (m - 1) as nat;
        law_smoother_vanishes(s, n, p);
        let e = moved(s, n * p);
        assert(n * p + n == n * m) by (nonlinear_arith)
            requires
                m == p + 1,
        ;
        lemma_moved_on(s, n * p, n);
        law_smoother_approaches(e, n);
        law_smoother_halves(e, n);
        let f = moved(e, n);
        let (x, y, k) = (abs(e.current.value()), abs(f.current.value()), s.coef.value());
        let u = pow2(149) as int;
        lemma_small_powers();
        if is_lost(k, y, x) {
            // A lost step is over a small part of what was there.
            assert(y * 0x10_0000 <= 0x4000 * (x + 0x10_0000)) by (nonlinear_arith)
                requires
                    k * y * 0x10_0000 < u * (x + 0x10_0000),
                    k * 0x4000 >= u,
                    u > 0,
                    x >= 0,
                    y >= 0,
            ;
        }
        assert(2 * y <= x || y <= 0x8000);
        lemma_pow2_adds(1, p);
        assert(pow2(1) == 2) by {
            vstd::arithmetic::power2::lemma2_to64();
        }
        let (z, q, w) = (abs(s.current.value()), pow2(p), pow2(m));
        if 2 * y <= x && x * q <= z {
            assert(y * w <= z) by (nonlinear_arith)
                requires
                    2 * y <= x,
                    x * q <= z,
                    w == 2 * q,
                    q >= 0,
            ;
        }
    }
}

} // verus!
