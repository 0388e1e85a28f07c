//! What a parameter write does: it sets the one thing that the parameter is
//! for, to what the value stands for, and nothing else.
use vstd::arithmetic::power2::{lemma_pow2_adds, pow2};
use vstd::prelude::*;

use crate::arithmetic::{
    abs, lemma_nearest_bounded, lemma_nearest_error, lemma_signed, lemma_small_powers,
    lemma_taken_apart,
};
use crate::chain::{Chain, Change};
use crate::constants::{FORTY, HALF, ONE, PI, TEN, TWENTY};
use crate::elementary::{powf_gives, Elementary};
use crate::engine::{
    means, written, Engine, F_HIGH_SHELF, F_LOW_MID, F_LOW_SHELF, F_MID_HIGH, F_PEAK, Q_LR, Q_PEAK,
};
use crate::grid::{
    lemma_compose, lemma_exact, lemma_increasing, lemma_nearest_monotone, lemma_zero, magnitude,
    nearest, BINADE, INFINITY,
};
use crate::single::Single;
use crate::smoother::Smoother;

verus! {

/// A quotient is the exact one to within one part in 2 to the 24 and half of
/// the smallest number, and finite where it is no larger than the dividend.
pub proof fn law_quotient_error(x: Single, y: Single)
    requires
        x.is_finite(),
        y.is_finite(),
        !y.is_zero(),
    ensures
        abs(y.value()) >= pow2(149) ==> (x / y).is_finite(),
        (x / y).is_finite() ==> abs((x / y).value() * y.value() - x.value() * pow2(149))
            * 0x100_0000 <= abs(x.value() * pow2(149)) + abs(y.value()) * 0x80_0000,
        x.negative() == y.negative() ==> (x / y).value() >= 0,
        x.negative() != y.negative() ==> (x / y).value() <= 0,
{
    let u = pow2(149);
    let (a, b) = (magnitude(x.pattern()), magnitude(y.pattern()));
    let n = a * u;
    let m = nearest(n, b);
    let negative = x.negative() != y.negative();
    lemma_small_powers();
    lemma_zero(y.pattern());
    lemma_nearest_bounded(n, b);
    lemma_signed(negative, m);
    assert((x / y).negative() == negative && (x / y).pattern() == m) by {
        reveal(Single::spec_div);
    }
    if b >= u {
        lemma_exact(a, 1, x.pattern());
        assert(n * 1 <= a * b) by (nonlinear_arith)
            requires
                n == a * u,
                u <= b,
        ;
        lemma_nearest_monotone(n, b, m, a, 1, x.pattern());
    }
    if m < INFINITY {
        lemma_nearest_error(n, b, m);
        let (k, i, j) = (magnitude(m) as int, a as int, b as int);
        assert(b * magnitude(m) == k * j && (-k) * j == -(k * j) && k * (-j) == -(k * j) && (-k) * (
        -j) == k * j && (-i) * u == -(i * u) && i * u == n) by (nonlinear_arith)
            requires
                k == magnitude(m),
                i == a,
                j == b,
                n == a * u,
        ;
        let v = (x / y).value();
        assert(v == k || v == -k);
    }
}

/// The value of a number that a pattern names, of `n` over one: its significand
/// is `n` times 2 to the `k`.
proof fn lemma_whole(bits: u32, s: nat, n: nat, k: nat)
    requires
        s + k == 149,
        bits == s * BINADE + n * pow2(k),
        BINADE <= n * pow2(k) < 2 * BINADE,
        bits < 0x8000_0000,
    ensures
        (Single { bits }).value() == n * pow2(149),
        (Single { bits }).pattern() == bits,
        (Single { bits }).is_finite(),
        !(Single { bits }).negative(),
{
    let q = n * pow2(k);
    lemma_compose(s, q);
    lemma_pow2_adds(k, s);
    assert(q * pow2(s) == n * pow2(149)) by (nonlinear_arith)
        requires
            q == n * pow2(k),
            pow2(k) * pow2(s) == pow2(149),
    ;
}

/// The constants of the parameters are the numbers they are named for: ten,
/// twenty and forty, the frequencies of the chain in hertz, half of a turn, and
/// the qualities, one over the root of two and nine tenths.
pub proof fn law_constants()
    ensures
        ({
            let one = pow2(149);
            &&& (Single { bits: ONE }).value() == one
            &&& 2 * (Single { bits: HALF }).value() == one
            &&& (Single { bits: TEN }).value() == 10 * one
            &&& (Single { bits: TWENTY }).value() == 20 * one
            &&& (Single { bits: FORTY }).value() == 40 * one
            &&& (Single { bits: F_LOW_SHELF }).value() == 120 * one
            &&& (Single { bits: F_PEAK }).value() == 1200 * one
            &&& (Single { bits: F_HIGH_SHELF }).value() == 8000 * one
            &&& (Single { bits: F_LOW_MID }).value() == 200 * one
            &&& (Single { bits: F_MID_HIGH }).value() == 2000 * one
            &&& 0x40_0000 * (Single { bits: PI }).value() == 13176795 * one
            &&& 0x100_0000 * (Single { bits: Q_LR }).value() == 11863284 * one
            &&& 0x100_0000 * (Single { bits: Q_PEAK }).value() == 15099494 * one
        }),
{
    lemma_small_powers();
    lemma_pow2_adds(148, 1);
    assert(pow2(1) == 2 && pow2(11) == 0x800 && pow2(13) == 0x2000 && pow2(16) == 0x1_0000 && pow2(
        17,
    ) == 0x2_0000 && pow2(18) == 0x4_0000 && pow2(19) == 0x8_0000 && pow2(20) == 0x10_0000 && pow2(
        22,
    ) == 0x40_0000) by {
        vstd::arithmetic::power2::lemma2_to64();
    }
    lemma_whole(TEN, 129, 10, 20);
    lemma_whole(TWENTY, 130, 20, 19);
    lemma_whole(FORTY, 131, 40, 18);
    lemma_whole(F_LOW_SHELF, 132, 120, 17);
    lemma_whole(F_LOW_MID, 133, 200, 16);
    lemma_whole(F_PEAK, 136, 1200, 13);
    lemma_whole(F_MID_HIGH, 136, 2000, 13);
    lemma_whole(F_HIGH_SHELF, 138, 8000, 11);
    lemma_compose(127, 13176795);
    lemma_pow2_adds(22, 127);
    let p = pow2(127);
    assert(0x40_0000 * (13176795 * p) == 13176795 * (0x40_0000 * p)) by (nonlinear_arith);
    assert(pow2(24) == 0x100_0000) by {
        vstd::arithmetic::power2::lemma2_to64();
    }
    lemma_compose(125, 11863284);
    lemma_compose(125, 15099494);
    lemma_pow2_adds(24, 125);
    let q = pow2(125);
    assert(0x100_0000 * (11863284 * q) == 11863284 * (0x100_0000 * q) && 0x100_0000 * (15099494 * q)
        == 15099494 * (0x100_0000 * q)) by (nonlinear_arith);
}

/// Whether `e` is one part in `n` of `v`, to within rounding; of an infinite number
/// that is the number itself, and of what is not a number it is not a number.
pub open spec fn is_part(v: Single, n: int, e: Single) -> bool {
    &&& v.is_finite() <==> e.is_finite()
    &&& v.is_nan() <==> e.is_nan()
    &&& v.is_infinite() ==> e == v
    &&& v.is_finite() ==> abs(n * e.value() - v.value()) * 0x100_0000 <= abs(v.value()) + n
        * 0x80_0000
}

/// One part in a whole number of a value.
pub proof fn lemma_part(v: Single, d: Single, n: int)
    requires
        1 <= n <= 64,
        d.is_finite(),
        !d.negative(),
        d.value() == n * pow2(149),
    ensures
        is_part(v, n, v / d),
{
    let u = pow2(149) as int;
    lemma_small_powers();
    lemma_zero(d.pattern());
    assert(d.value() >= u) by (nonlinear_arith)
        requires
            d.value() == n * u,
            n >= 1,
            u > 0,
    ;
    if v.is_finite() {
        let e = v / d;
        law_quotient_error(v, d);
        let (x, y) = (e.value(), v.value());
        let f = n * x - y;
        assert(x * (n * u) - y * u == f * u && n * u * 0x80_0000 == n * 0x80_0000 * u)
            by (nonlinear_arith)
            requires
                f == n * x - y,
        ;
        let (g, h) = (abs(f), abs(y));
        assert(abs(f * u) == g * u && abs(y * u) == h * u) by {
            assert((f >= 0 ==> f * u >= 0) && (f < 0 ==> f * u <= 0) && (-f) * u == -(f * u) && (y
                >= 0 ==> y * u >= 0) && (y < 0 ==> y * u <= 0) && (-y) * u == -(y * u))
                by (nonlinear_arith)
                requires
                    u > 0,
            ;
        }
        assert(g * 0x100_0000 <= h + n * 0x80_0000) by (nonlinear_arith)
            requires
                g * u * 0x100_0000 <= h * u + n * 0x80_0000 * u,
                u > 0,
        ;
    } else {
        reveal(Single::spec_div);
        lemma_signed(v.negative() != d.negative(), INFINITY as nat);
        lemma_taken_apart(v);
    }
}

/// Whether `g` is what the host gives for ten to the power of one part in `n` of
/// a level in decibels.
pub open spec fn is_power<M: Elementary>(math: &M, v: Single, n: int, g: Single) -> bool {
    exists|b: Single, e: Single|
        {
            &&& #[trigger] powf_gives(math, b, e, g)
            &&& b.value() == 10 * pow2(149)
            &&& is_part(v, n, e)
        }
}

/// A write to the width makes the value its target, whatever the value.
pub proof fn law_write_sets_the_width<M: Elementary>(
    before: Engine,
    math: &M,
    v: Single,
    after: Engine,
)
    requires
        written(before, math, 3, v, after),
    ensures
        ({
            let c = before.chain;
            after == (Engine {
                chain: Chain { width: Smoother { target: v, ..c.width }, ..c },
                ..before
            })
        }),
{
}

/// A write to the switch of the crossover sends its share to one for a value of
/// at least one half, and to zero for every other.
pub proof fn law_write_switches<M: Elementary>(
    before: Engine,
    math: &M,
    v: Single,
    after: Engine,
)
    requires
        written(before, math, 5, v, after),
    ensures
        ({
            let c = before.chain;
            let on = !v.is_nan() && 2 * v.value() >= pow2(149);
            let t = after.chain.mb_wet.target;
            &&& after == (Engine {
                chain: Chain { mb_wet: Smoother { target: t, ..c.mb_wet }, ..c },
                ..before
            })
            &&& t.is_finite() && !t.negative()
            &&& t.value() == if on {
                pow2(149) as int
            } else {
                0
            }
        }),
{
    law_constants();
    lemma_zero(0);
}

/// The gain that a write of a level in decibels means.
proof fn lemma_gain_written<M: Elementary>(math: &M, v: Single, g: Single)
    requires
        powf_gives(math, Single { bits: TEN }, v / Single { bits: TWENTY }, g),
    ensures
        is_power(math, v, 20, g),
{
    law_constants();
    lemma_part(v, Single { bits: TWENTY }, 20);
}

/// A write to a gain makes its target the host's power of ten for the level:
/// ten to one part in twenty of it, for every level, boost or cut. The
/// parameters are the output gain and the gains of the three bands.
pub proof fn law_write_sets_a_gain<M: Elementary>(
    before: Engine,
    math: &M,
    id: u32,
    v: Single,
    after: Engine,
)
    requires
        id == 4 || id == 6 || id == 7 || id == 8,
        written(before, math, id, v, after),
    ensures
        ({
            let c = before.chain;
            let d = after.chain;
            let chain = match id {
                4 => Chain {
                    out_gain_lin: Smoother { target: d.out_gain_lin.target, ..c.out_gain_lin },
                    ..c
                },
                6 => Chain {
                    mb_low_gain: Smoother { target: d.mb_low_gain.target, ..c.mb_low_gain },
                    ..c
                },
                7 => Chain {
                    mb_mid_gain: Smoother { target: d.mb_mid_gain.target, ..c.mb_mid_gain },
                    ..c
                },
                _ => Chain {
                    mb_high_gain: Smoother { target: d.mb_high_gain.target, ..c.mb_high_gain },
                    ..c
                },
            };
            &&& after == (Engine { chain, ..before })
            &&& is_power(math, v, 20, gain_of(d, id))
        }),
{
    let fs = before.sample_rate;
    let change = choose|change: Change| #[trigger]
        means(change, math, id, v, fs) && after.chain == before.chain.changed(change);
    lemma_gain_written(math, v, gain_of(after.chain, id));
}

/// The target of the gain that a parameter sets.
pub open spec fn gain_of(c: Chain, id: u32) -> Single {
    match id {
        4 => c.out_gain_lin.target,
        6 => c.mb_low_gain.target,
        7 => c.mb_mid_gain.target,
        _ => c.mb_high_gain.target,
    }
}

/// A write to an unknown parameter changes nothing.
pub proof fn law_write_ignored<M: Elementary>(
    before: Engine,
    math: &M,
    id: u32,
    v: Single,
    after: Engine,
)
    requires
        id > 8,
        written(before, math, id, v, after),
    ensures
        after == before,
{
}

/// Whether the host's powers of ten rise with the exponent.
pub open spec fn rises<M: Elementary>(math: &M) -> bool {
    forall|b: Single, x: Single, y: Single, p: Single, q: Single|
        {
            &&& #[trigger] powf_gives(math, b, x, p)
            &&& #[trigger] powf_gives(math, b, y, q)
            &&& b.value() == 10 * pow2(149)
            &&& x.at_least(y)
        } ==> p.at_least(q)
}

/// A larger number has a larger part.
proof fn lemma_parts_rise(v: Single, w: Single, d: Single)
    requires
        v.is_finite(),
        w.is_finite(),
        d.is_finite(),
        !d.negative(),
        d.value() >= pow2(149),
        v.at_least(w),
    ensures
        (v / d).at_least(w / d),
{
    let u = pow2(149);
    let (a, b, k) = (magnitude(v.pattern()), magnitude(w.pattern()), magnitude(d.pattern()));
    lemma_small_powers();
    lemma_zero(d.pattern());
    lemma_zero(v.pattern());
    lemma_zero(w.pattern());
    law_quotient_error(v, d);
    law_quotient_error(w, d);
    let (m, n) = (nearest(a * u, k), nearest(b * u, k));
    lemma_nearest_bounded(a * u, k);
    lemma_nearest_bounded(b * u, k);
    lemma_signed(v.negative(), m);
    lemma_signed(w.negative(), n);
    reveal(Single::spec_div);
    if a <= b {
        assert(a * u * k <= b * u * k) by (nonlinear_arith)
            requires
                a <= b,
        ;
        lemma_nearest_monotone(a * u, k, m, b * u, k, n);
        lemma_increasing(m, n);
    }
    if b <= a {
        assert(b * u * k <= a * u * k) by (nonlinear_arith)
            requires
                b <= a,
        ;
        lemma_nearest_monotone(b * u, k, n, a * u, k, m);
        lemma_increasing(n, m);
    }
    if a == 0 && b == 0 {
        vstd::arithmetic::mul::lemma_mul_by_zero_is_zero(u as int);
        vstd::arithmetic::mul::lemma_mul_by_zero_is_zero(k as int);
        lemma_exact(0, k, 0);
        lemma_zero(0);
    }
}

/// More decibels never mean less gain: of two writes to one gain, the one of
/// the higher level leaves the target at least as high, if the host's powers
/// rise.
pub proof fn law_more_decibels_more_gain<M: Elementary>(
    before: Engine,
    math: &M,
    id: u32,
    v: Single,
    w: Single,
    after_v: Engine,
    after_w: Engine,
)
    requires
        id == 4 || id == 6 || id == 7 || id == 8,
        written(before, math, id, v, after_v),
        written(before, math, id, w, after_w),
        v.is_finite(),
        w.is_finite(),
        v.at_least(w),
        rises(math),
    ensures
        gain_of(after_v.chain, id).at_least(gain_of(after_w.chain, id)),
{
    let fs = before.sample_rate;
    let (ten, twenty) = (Single { bits: TEN }, Single { bits: TWENTY });
    let x = choose|x: Change| #[trigger]
        means(x, math, id, v, fs) && after_v.chain == before.chain.changed(x);
    let y = choose|y: Change| #[trigger]
        means(y, math, id, w, fs) && after_w.chain == before.chain.changed(y);
    law_constants();
    lemma_small_powers();
    lemma_parts_rise(v, w, twenty);
    assert(powf_gives(math, ten, v / twenty, gain_of(after_v.chain, id)));
    assert(powf_gives(math, ten, w / twenty, gain_of(after_w.chain, id)));
}

} // verus!
