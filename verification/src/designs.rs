//! What the host is asked for when a section or a smoother is set up, and what
//! is made of its answers.
use vstd::arithmetic::power2::{
    lemma_pow2_adds, lemma_pow2_pos, lemma_pow2_strictly_increases, pow2,
};
use vstd::prelude::*;

use crate::arithmetic::{
    abs, law_finite_terms, law_product_error, lemma_finite_bounded, lemma_finite_range,
    lemma_opposite, lemma_small_powers, lemma_sum, lemma_sum_value,
};
use crate::biquad::{
    amplitude_exponent, angular_frequency, Biquad, Coefficients, FilterKind, History, Transfer,
};
use crate::chain::{Chain, Change};
use crate::constants::{FORTY, MINUS_ONE, ONE, PI, TEN, TWO, ZERO};
use crate::cookbook::{is_by_the_book, is_normalized, law_by_the_book, law_normalization_divides};
use crate::elementary::{cos_gives, exp_gives, powf_gives, sin_gives, Elementary};
use crate::engine::{
    is_fresh, is_fresh_band, is_fresh_chain, is_fresh_low, means, written, Engine, F_HIGH_SHELF,
    F_LOW_MID, F_LOW_SHELF, F_MID_HIGH, F_PEAK, Q_LR, Q_PEAK, T_FAST, T_SLOW,
};
use crate::exact::{number, Exact, Settings};
use crate::grid::{lemma_compose, lemma_increasing, lemma_zero};
use crate::motion::lemma_abs_product;
use crate::nearness::are_settings;
use crate::path::lemma_product_finite;
use crate::shapes::{
    is_in_range, is_shaped, law_crossover_shaped, law_equalizer_gains, law_equalizer_shaped,
    nearly_passes_alternating, nearly_passes_constant, nearly_peaks,
};
use crate::single::Single;
use crate::smoother::Smoother;
use crate::stability::{
    is_amplitude, lemma_constants, lemma_power, lemma_product_range, lemma_quotient_range,
    lemma_two_times, power_pattern,
};
use crate::writes::{is_power, law_constants, law_quotient_error, lemma_part};

verus! {

/// Whether `w` is the angle of a frequency at the sample rate `fs`, in radians per
/// sample: a full turn times the frequency over the sample rate, to within
/// rounding, at sample rates from one hertz on. The frequency is given by its
/// value.
pub open spec fn is_turn(f: int, fs: Single, w: Single) -> bool {
    let one = pow2(149) as int;
    let turn = 6283185307 * (f * one);
    fs.is_finite() && fs.value() >= one ==> {
        &&& w.is_finite()
        &&& abs(1_000_000_000 * (w.value() * fs.value()) - turn) * 0x10_0000 <= turn
            + 4_000_000_000 * fs.value() * 0x10_0000
    }
}

/// The errors of an angle: `x` is the angle times the sample rate `f`, `q` the
/// rounded product of a turn and the frequency, `t` the frequency, all times one.
proof fn lemma_turn_errors(u: int, f: int, x: int, q: int, t: int)
    requires
        u > 0,
        f >= u,
        t >= 0,
        abs(x - q) * 0x100_0000 <= abs(q) + f * 0x80_0000,
        abs(0x40_0000 * q - 26353590 * t) * 0x100_0000 <= 26353590 * t + 0x2000_0000_0000 * u,
    ensures
        abs(1_000_000_000 * x - 6283185307 * t) * 0x10_0000 <= 6283185307 * t + 4_000_000_000 * f
            * 0x10_0000,
{
}

/// The angle of a frequency of up to sixteen megahertz.
pub proof fn law_angle_turns(f0: Single, fs: Single)
    requires
        f0.is_finite(),
        0 <= f0.value() <= 0x100_0000 * pow2(149),
    ensures
        is_turn(f0.value(), fs, angular_frequency(f0, fs)),
{
    let u = pow2(149) as int;
    let (two, pi) = (Single { bits: TWO }, Single { bits: PI });
    let t = two * pi;
    let p = t * f0;
    let w = p / fs;
    if fs.is_finite() && fs.value() >= u {
        lemma_small_powers();
        law_constants();
        lemma_power(1);
        lemma_power(2);
        lemma_power(3);
        lemma_power(10);
        lemma_power(11);
        lemma_power(24);
        lemma_power(27);
        lemma_two_times(pi);
        lemma_product_range(two, pi, 1, 2);
        // The frequency is below 2 to the 24.
        lemma_pow2_adds(149, 24);
        assert(pow2(24) == 0x100_0000) by {
            vstd::arithmetic::power2::lemma2_to64();
        }
        if f0.pattern() > power_pattern(24) {
            lemma_increasing(power_pattern(24), f0.pattern());
        }
        lemma_zero(f0.pattern());
        lemma_product_range(t, f0, 3, 24);
        law_product_error(t, f0);
        lemma_zero(fs.pattern());
        law_quotient_error(p, fs);
        let (tv, pv, wv, fv) = (t.value(), p.value(), w.value(), fs.value());
        let f = f0.value();
        let k = f * u;
        assert(0x40_0000 * (tv * f) == 26353590 * k) by (nonlinear_arith)
            requires
                0x40_0000 * tv == 26353590 * u,
                k == f * u,
        ;
        assert(k >= 0 && pv * u == u * pv && u * 0x80_0000 * 0x40_0000 == 0x2000_0000_0000 * u)
            by (nonlinear_arith)
            requires
                k == f * u,
                f >= 0,
                u >= 0,
        ;
        lemma_turn_errors(u, fv, wv * fv, pv * u, k);
    }
}

/// Whether a band of the equalizer has the gain that its amplitude stands for:
/// a shelf at its end of the spectrum, a peak at its centre.
pub open spec fn has_gain(c: Coefficients, kind: FilterKind, cos_w: Single, a: Single) -> bool {
    let gain = number(a) * number(a);
    match kind {
        FilterKind::LowShelf => nearly_passes_constant(c, gain) && nearly_passes_alternating(
            c,
            1real,
        ),
        FilterKind::HighShelf => nearly_passes_constant(c, 1real) && nearly_passes_alternating(
            c,
            gain,
        ),
        _ => nearly_peaks(c, number(cos_w), gain) && nearly_passes_constant(c, 1real)
            && nearly_passes_alternating(c, 1real),
    }
}

/// Whether the coefficients of a section of the crossover are close to those of
/// its exact transfer function.
pub open spec fn is_close_to_crossover(
    c: Coefficients,
    kind: FilterKind,
    cos_w: Single,
    sin_w: Single,
    q: Single,
) -> bool {
    forall|s: Settings|
        s.cos_w == number(cos_w) && s.sin_w == number(sin_w) && s.q == number(q) ==> is_shaped(
            c,
            #[trigger] Exact::of(kind, s),
            64real,
        )
}

/// Whether the coefficients of a band of the equalizer are close to those of
/// its exact transfer function.
pub open spec fn is_close_to_equalizer(
    c: Coefficients,
    kind: FilterKind,
    cos_w: Single,
    sin_w: Single,
    q: Single,
    a: Single,
) -> bool {
    forall|s: Settings|
        #[trigger] are_settings(s, cos_w, sin_w, q, a) ==> is_shaped(
            c,
            Exact::of(kind, s),
            8192real,
        ) && (abs(cos_w.value()) < pow2(149) && sin_w.value() > 0 ==> has_gain(c, kind, cos_w, a))
}

/// Whether these are the coefficients of a shape, for a cosine and a sine of
/// its angle, its quality, and its amplitude: those of the transfer function,
/// normalized, which is the one of the cookbook, and so, in range, close to the
/// exact ones and with the gains that the amplitude stands for.
pub open spec fn is_shape(
    c: Coefficients,
    kind: FilterKind,
    cos_w: Single,
    sin_w: Single,
    q: Single,
    a: Single,
) -> bool {
    &&& c == Transfer::of(kind, cos_w, sin_w, q, a).normalized()
    &&& exists|t: Transfer| #[trigger]
        is_by_the_book(t, kind, cos_w, sin_w, q, a) && is_normalized(t, c)
    &&& is_in_range(cos_w, sin_w, q) && !kind.takes_gain() ==> is_close_to_crossover(
        c,
        kind,
        cos_w,
        sin_w,
        q,
    )
    &&& is_in_range(cos_w, sin_w, q) && kind.takes_gain() && is_amplitude(a)
        ==> is_close_to_equalizer(c, kind, cos_w, sin_w, q, a)
}

/// The coefficients of a normalized transfer function are those of its shape.
proof fn lemma_shape(kind: FilterKind, cos_w: Single, sin_w: Single, q: Single, a: Single)
    ensures
        is_shape(
            Transfer::of(kind, cos_w, sin_w, q, a).normalized(),
            kind,
            cos_w,
            sin_w,
            q,
            a,
        ),
{
    let t = Transfer::of(kind, cos_w, sin_w, q, a);
    let c = t.normalized();
    law_by_the_book(kind, cos_w, sin_w, q, a);
    law_normalization_divides(t);
    if is_in_range(cos_w, sin_w, q) {
        if !kind.takes_gain() {
            assert forall|s: Settings|
                s.cos_w == number(cos_w) && s.sin_w == number(sin_w) && s.q == number(
                    q,
                ) implies is_shaped(c, #[trigger] Exact::of(kind, s), 64real) by {
                law_crossover_shaped(kind, cos_w, sin_w, q, a, s);
            }
            assert(is_close_to_crossover(c, kind, cos_w, sin_w, q));
        } else if is_amplitude(a) {
            assert forall|s: Settings| #[trigger]
                are_settings(s, cos_w, sin_w, q, a) implies is_shaped(
                c,
                Exact::of(kind, s),
                8192real,
            ) && (abs(cos_w.value()) < pow2(149) && sin_w.value() > 0 ==> has_gain(
                c,
                kind,
                cos_w,
                a,
            )) by {
                law_equalizer_shaped(kind, cos_w, sin_w, q, a, s);
                if abs(cos_w.value()) < pow2(149) && sin_w.value() > 0 {
                    law_equalizer_gains(kind, cos_w, sin_w, q, a, s);
                }
            }
            assert(is_close_to_equalizer(c, kind, cos_w, sin_w, q, a));
        }
    }
}

/// Whether these are the coefficients of a filter of the frequency `f` with a gain
/// in decibels: those of its shape for what the host gives for the angle of that
/// frequency, and for ten to one part in forty of the gain.
pub open spec fn is_design<M: Elementary>(
    c: Coefficients,
    math: &M,
    kind: FilterKind,
    f: int,
    q: Single,
    gain_db: Single,
    fs: Single,
) -> bool {
    exists|w: Single, cos_w: Single, sin_w: Single, a: Single|
        {
            &&& #[trigger] cos_gives(math, w, cos_w)
            &&& #[trigger] sin_gives(math, w, sin_w)
            &&& is_turn(f, fs, w)
            &&& kind.takes_gain() ==> is_power(math, gain_db, 40, a)
            &&& #[trigger] is_shape(c, kind, cos_w, sin_w, q, a)
        }
}

/// What the host computes for a filter makes the coefficients of that filter,
/// for every gain.
pub proof fn law_tuned_is_designed<M: Elementary>(
    c: Coefficients,
    math: &M,
    kind: FilterKind,
    f0: Single,
    q: Single,
    gain_db: Single,
    fs: Single,
)
    requires
        c.tuned(math, kind, f0, q, gain_db, fs),
        f0.is_finite(),
        0 <= f0.value() <= 0x100_0000 * pow2(149),
    ensures
        is_design(c, math, kind, f0.value(), q, gain_db, fs),
{
    let w = angular_frequency(f0, fs);
    let (cos_w, sin_w, a) = choose|cos_w: Single, sin_w: Single, a: Single|
        {
            &&& #[trigger] cos_gives(math, w, cos_w)
            &&& #[trigger] sin_gives(math, w, sin_w)
            &&& kind.takes_gain() ==> powf_gives(
                math,
                Single { bits: TEN },
                amplitude_exponent(gain_db),
                a,
            )
            &&& c == (#[trigger] Transfer::of(kind, cos_w, sin_w, q, a)).normalized()
        };
    law_angle_turns(f0, fs);
    lemma_shape(kind, cos_w, sin_w, q, a);
    law_constants();
    lemma_part(gain_db, Single { bits: FORTY }, 40);
}

/// Whether `e` is the exponent of a smoother with the time constant `time` at the
/// sample rate `fs`: minus one over their product, to within rounding, for time
/// constants from 2 to the power -20 samples to 2 to the 40.
pub open spec fn is_rate(fs: Single, time: Single, e: Single) -> bool {
    let one = pow2(149) as int;
    let (f, t) = (fs.value(), time.value());
    let in_range = {
        &&& fs.is_finite() && f >= 0
        &&& time.is_finite() && t >= 0
        &&& one * one <= 0x10_0000 * (f * t)
        &&& f * t <= 0x100_0000_0000 * (one * one)
    };
    in_range ==> {
        &&& e.is_finite()
        &&& abs(e.value() * (f * t) + one * one * one) * 0x10_0000 <= one * one * one
    }
}

/// Whether a smoother is at rest at a value, and covers in every sample what the
/// host's exponential for its time constant leaves of the distance.
pub open spec fn is_timed<M: Elementary>(
    s: Smoother,
    math: &M,
    initial: Single,
    fs: Single,
    time: Single,
) -> bool {
    &&& s.current == initial
    &&& s.target == initial
    &&& exists|e: Single, d: Single|
        {
            &&& #[trigger] exp_gives(math, e, d)
            &&& is_rate(fs, time, e)
            &&& d.is_finite() <==> s.coef.is_finite()
            &&& d.is_finite() ==> abs(s.coef.value() - (pow2(149) - d.value())) * 0x100_0000 <= abs(
                pow2(149) - d.value(),
            )
        }
}

/// The exponent of a smoother is minus one over the sample rate times the time
/// constant.
pub proof fn law_exponent_is_the_rate(fs: Single, time: Single)
    ensures
        is_rate(fs, time, Smoother::exponent(fs, time)),
{
    let u = pow2(149) as int;
    let minus = Single { bits: MINUS_ONE };
    let p = fs * time;
    let e = minus / p;
    let (f, t) = (fs.value(), time.value());
    let k = u * u;
    if fs.is_finite() && f >= 0 && time.is_finite() && t >= 0 && k <= 0x10_0000 * (f * t) && f * t
        <= 0x100_0000_0000 * k {
        lemma_small_powers();
        lemma_big();
        lemma_opposite(Single { bits: ONE });
        assert((Single { bits: ONE }).opposite() == minus);
        assert(k * 0x100_0000_0000 <= u * pow2(270)) by {
            lemma_pow2_adds(149, 121);
            lemma_big_power();
            let q = pow2(121) as int;
            assert(k * 0x100_0000_0000 <= u * (u * q)) by (nonlinear_arith)
                requires
                    q >= 0x100_0000_0000,
                    k == u * u,
                    u > 0,
            ;
        }
        assert(u * 0x80_0000 * 0x10_0000 <= k && k > 0) by (nonlinear_arith)
            requires
                u >= 0x1_0000_0000_0000_0000,
                k == u * u,
        ;
        lemma_product_finite(fs, time);
        law_product_error(fs, time);
        let pv = p.value();
        assert(u <= 0x20_0000 * pv && pv <= 0x200_0000_0000 * u) by (nonlinear_arith)
            requires
                u * pv * 0x100_0000 >= (f * t) * 0x100_0000 - 2 * (f * t),
                u * pv * 0x100_0000 <= (f * t) * 0x100_0000 + 2 * (f * t),
                k <= 0x10_0000 * (f * t),
                f * t <= 0x100_0000_0000 * k,
                k == u * u,
                u > 0,
        ;
        lemma_power(-21);
        lemma_power(0);
        lemma_power(21);
        lemma_constants();
        lemma_pow2_adds(128, 21);
        assert(pow2(21) == 0x20_0000) by {
            vstd::arithmetic::power2::lemma2_to64();
        }
        if p.pattern() < power_pattern(-21) {
            lemma_increasing(p.pattern(), power_pattern(-21));
        }
        lemma_zero(p.pattern());
        lemma_quotient_range(minus, p, 0, -21);
        law_quotient_error(minus, p);
        let ev = e.value();
        assert(pv * 0x80_0000 <= k) by (nonlinear_arith)
            requires
                pv <= 0x200_0000_0000 * u,
                u >= 0x1_0000_0000_0000_0000,
                k == u * u,
        ;
        assert((-u) * u == -k) by (nonlinear_arith)
            requires
                k == u * u,
        ;
        lemma_rate(u, k, f * t, pv, ev);
    }
}

/// The exponent `e` times the product `y` of sample rate and time constant, from
/// what it is times the rounded product `p`.
proof fn lemma_rate(u: int, k: int, y: int, p: int, e: int)
    requires
        u > 0,
        k == u * u,
        abs(e * p + k) * 0x100_0000 <= 2 * k,
        abs(u * p - y) * 0x100_0000 <= 2 * abs(y),
    ensures
        abs(e * y + k * u) * 0x10_0000 <= k * u,
{
    let w = k * u;
    let x = (e * p) * u;
    let z = e * y;
    assert(w > 0) by (nonlinear_arith)
        requires
            w == k * u,
            k == u * u,
            u > 0,
    ;
    let a = e * p + k;
    lemma_abs_product(u, a);
    let a1 = abs(a);
    assert(u * a1 * 0x100_0000 <= 2 * w && u * a == x + w) by (nonlinear_arith)
        requires
            a1 * 0x100_0000 <= 2 * k,
            w == k * u,
            x == (e * p) * u,
            a == e * p + k,
            u > 0,
    ;
    let b = u * p - y;
    lemma_abs_product(e, b);
    lemma_abs_product(e, y);
    let (e1, b1, c1) = (abs(e), abs(b), abs(y));
    assert(e1 * b1 * 0x100_0000 <= 2 * (e1 * c1)) by (nonlinear_arith)
        requires
            b1 * 0x100_0000 <= 2 * c1,
            e1 >= 0,
    ;
    assert(e * b == x - z) by (nonlinear_arith)
        requires
            b == u * p - y,
            x == (e * p) * u,
            z == e * y,
    ;
}

/// A power of two above any number of samples.
proof fn lemma_big_power()
    ensures
        pow2(121) >= 0x100_0000_0000,
{
    assert(pow2(40) == 0x100_0000_0000) by {
        vstd::arithmetic::power2::lemma2_to64_rest();
    }
    lemma_pow2_strictly_increases(40, 121);
}

/// The size of one.
proof fn lemma_big()
    ensures
        pow2(149) >= 0x1_0000_0000_0000_0000,
{
    assert(pow2(64) == 0x1_0000_0000_0000_0000) by {
        vstd::arithmetic::power2::lemma2_to64();
    }
    lemma_pow2_adds(64, 85);
    lemma_pow2_pos(85);
    assert(pow2(64) * pow2(85) >= 0x1_0000_0000_0000_0000) by (nonlinear_arith)
        requires
            pow2(64) == 0x1_0000_0000_0000_0000,
            pow2(85) >= 1,
    ;
}

/// A new smoother is at rest, and covers in every sample what the host's
/// exponential for its time constant leaves of the distance.
pub proof fn law_tuned_is_timed<M: Elementary>(
    s: Smoother,
    math: &M,
    initial: Single,
    fs: Single,
    time: Single,
)
    requires
        s.tuned(math, initial, fs, time),
    ensures
        is_timed(s, math, initial, fs, time),
{
    let e = Smoother::exponent(fs, time);
    let d = choose|d: Single| #[trigger]
        exp_gives(math, e, d) && s == Smoother::at_rest(initial, d);
    let one = Single { bits: ONE };
    law_exponent_is_the_rate(fs, time);
    law_finite_terms(one, d);
    lemma_small_powers();
    if d.is_finite() {
        lemma_opposite(d);
        lemma_finite_bounded(d);
        lemma_finite_range(one.value() - d.value());
        lemma_sum_value(one, d.opposite());
        lemma_sum(one, d.opposite());
    }
}

/// A write to a band of the equalizer gives the band the coefficients of its
/// shape at that gain, for every value, boost or cut: a low shelf at 120 Hz, a
/// peak at 1200 Hz, a high shelf at 8000 Hz. Nothing else changes.
pub proof fn law_write_shapes_the_equalizer<M: Elementary>(
    before: Engine,
    math: &M,
    id: u32,
    v: Single,
    after: Engine,
)
    requires
        id <= 2,
        written(before, math, id, v, after),
    ensures
        ({
            let fs = before.sample_rate;
            let c = before.chain;
            let low = after.chain.low_eq.coefficients;
            let mid = after.chain.mid_eq.coefficients;
            let high = after.chain.high_eq.coefficients;
            let q_shelf = Single { bits: Q_LR };
            let q_peak = Single { bits: Q_PEAK };
            let one = pow2(149) as int;
            let chain = match id {
                0 => Chain { low_eq: Biquad { coefficients: low, ..c.low_eq }, ..c },
                1 => Chain { mid_eq: Biquad { coefficients: mid, ..c.mid_eq }, ..c },
                _ => Chain { high_eq: Biquad { coefficients: high, ..c.high_eq }, ..c },
            };
            &&& after == (Engine { chain, ..before })
            &&& id == 0 ==> is_design(low, math, FilterKind::LowShelf, 120 * one, q_shelf, v, fs)
            &&& id == 1 ==> is_design(mid, math, FilterKind::Peaking, 1200 * one, q_peak, v, fs)
            &&& id == 2 ==> is_design(high, math, FilterKind::HighShelf, 8000 * one, q_shelf, v, fs)
        }),
{
    let fs = before.sample_rate;
    let change = choose|change: Change| #[trigger]
        means(change, math, id, v, fs) && after.chain == before.chain.changed(change);
    let q_shelf = Single { bits: Q_LR };
    let q_peak = Single { bits: Q_PEAK };
    lemma_small_powers();
    law_constants();
    match change {
        Change::LowEq(c) => {
            let f0 = Single { bits: F_LOW_SHELF };
            law_tuned_is_designed(c, math, FilterKind::LowShelf, f0, q_shelf, v, fs);
        },
        Change::MidEq(c) => {
            let f0 = Single { bits: F_PEAK };
            law_tuned_is_designed(c, math, FilterKind::Peaking, f0, q_peak, v, fs);
        },
        Change::HighEq(c) => {
            let f0 = Single { bits: F_HIGH_SHELF };
            law_tuned_is_designed(c, math, FilterKind::HighShelf, f0, q_shelf, v, fs);
        },
        _ => {},
    }
}

/// Whether a section has the coefficients of a filter at 0 dB, and no past.
pub open spec fn is_new_section<M: Elementary>(
    b: Biquad,
    math: &M,
    kind: FilterKind,
    hz: int,
    q: u32,
    fs: Single,
) -> bool {
    let zero = Single { bits: ZERO };
    &&& is_design(b.coefficients, math, kind, hz * pow2(149), Single { bits: q }, zero, fs)
    &&& b.left == (History { x1: zero, x2: zero, y1: zero, y2: zero })
    &&& b.right == b.left
}

/// A section that is as new.
proof fn lemma_new_section<M: Elementary>(
    b: Biquad,
    math: &M,
    kind: FilterKind,
    f0: u32,
    hz: int,
    q: u32,
    fs: Single,
)
    requires
        is_fresh(b, math, kind, f0, q, fs),
        1 <= hz <= 8192,
        (Single { bits: f0 }).is_finite(),
        (Single { bits: f0 }).value() == hz * pow2(149),
    ensures
        is_new_section(b, math, kind, hz, q, fs),
{
    let zero = Single { bits: ZERO };
    let f = Single { bits: f0 };
    let u = pow2(149) as int;
    assert(0 <= hz * u <= 0x100_0000 * u) by (nonlinear_arith)
        requires
            0 <= hz <= 8192,
            u >= 0,
    ;
    law_tuned_is_designed(b.coefficients, math, kind, f, Single { bits: q }, zero, fs);
}

/// A new engine has width and gains at one and the crossover switched off, the
/// width and the output gain with the fast time constant and the rest with the
/// slow one. Its equalizer is flat; its low band is below 200 Hz, its mid band
/// between 200 Hz and 2000 Hz, and its high band above that, two sections to
/// every slope, with an all-pass at 2000 Hz for the low band.
pub proof fn law_new_chain<M: Elementary>(c: Chain, math: &M, fs: Single)
    requires
        is_fresh_chain(c, math, fs),
    ensures
        ({
            let one = Single { bits: ONE };
            let zero = Single { bits: ZERO };
            let fast = Single { bits: T_FAST };
            let slow = Single { bits: T_SLOW };
            &&& is_timed(c.width, math, one, fs, fast)
            &&& is_timed(c.out_gain_lin, math, one, fs, fast)
            &&& is_timed(c.mb_wet, math, zero, fs, slow)
            &&& is_timed(c.mb_low_gain, math, one, fs, slow)
            &&& is_timed(c.mb_mid_gain, math, one, fs, slow)
            &&& is_timed(c.mb_high_gain, math, one, fs, slow)
        }),
        is_new_section(c.low_eq, math, FilterKind::LowShelf, 120, Q_LR, fs),
        is_new_section(c.mid_eq, math, FilterKind::Peaking, 1200, Q_PEAK, fs),
        is_new_section(c.high_eq, math, FilterKind::HighShelf, 8000, Q_LR, fs),
        is_new_section(c.low.first, math, FilterKind::LowPass, 200, Q_LR, fs),
        is_new_section(c.low.second, math, FilterKind::LowPass, 200, Q_LR, fs),
        is_new_section(c.low.third, math, FilterKind::AllPass, 2000, Q_LR, fs),
        is_new_section(c.mid.first, math, FilterKind::HighPass, 200, Q_LR, fs),
        is_new_section(c.mid.second, math, FilterKind::HighPass, 200, Q_LR, fs),
        is_new_section(c.mid.third, math, FilterKind::LowPass, 2000, Q_LR, fs),
        is_new_section(c.mid.fourth, math, FilterKind::LowPass, 2000, Q_LR, fs),
        is_new_section(c.high.first, math, FilterKind::HighPass, 200, Q_LR, fs),
        is_new_section(c.high.second, math, FilterKind::HighPass, 200, Q_LR, fs),
        is_new_section(c.high.third, math, FilterKind::HighPass, 2000, Q_LR, fs),
        is_new_section(c.high.fourth, math, FilterKind::HighPass, 2000, Q_LR, fs),
{
    let one = Single { bits: ONE };
    let zero = Single { bits: ZERO };
    let (fast, slow) = (Single { bits: T_FAST }, Single { bits: T_SLOW });
    law_time_constants();
    law_tuned_is_timed(c.width, math, one, fs, fast);
    law_tuned_is_timed(c.out_gain_lin, math, one, fs, fast);
    law_tuned_is_timed(c.mb_wet, math, zero, fs, slow);
    law_tuned_is_timed(c.mb_low_gain, math, one, fs, slow);
    law_tuned_is_timed(c.mb_mid_gain, math, one, fs, slow);
    law_tuned_is_timed(c.mb_high_gain, math, one, fs, slow);
    law_constants();
    reveal(is_fresh_low);
    reveal(is_fresh_band);
    lemma_new_section(c.low_eq, math, FilterKind::LowShelf, F_LOW_SHELF, 120, Q_LR, fs);
    lemma_new_section(c.mid_eq, math, FilterKind::Peaking, F_PEAK, 1200, Q_PEAK, fs);
    lemma_new_section(c.high_eq, math, FilterKind::HighShelf, F_HIGH_SHELF, 8000, Q_LR, fs);
    lemma_new_section(c.low.first, math, FilterKind::LowPass, F_LOW_MID, 200, Q_LR, fs);
    lemma_new_section(c.low.second, math, FilterKind::LowPass, F_LOW_MID, 200, Q_LR, fs);
    lemma_new_section(c.low.third, math, FilterKind::AllPass, F_MID_HIGH, 2000, Q_LR, fs);
    lemma_new_section(c.mid.first, math, FilterKind::HighPass, F_LOW_MID, 200, Q_LR, fs);
    lemma_new_section(c.mid.second, math, FilterKind::HighPass, F_LOW_MID, 200, Q_LR, fs);
    lemma_new_section(c.mid.third, math, FilterKind::LowPass, F_MID_HIGH, 2000, Q_LR, fs);
    lemma_new_section(c.mid.fourth, math, FilterKind::LowPass, F_MID_HIGH, 2000, Q_LR, fs);
    lemma_new_section(c.high.first, math, FilterKind::HighPass, F_LOW_MID, 200, Q_LR, fs);
    lemma_new_section(c.high.second, math, FilterKind::HighPass, F_LOW_MID, 200, Q_LR, fs);
    lemma_new_section(c.high.third, math, FilterKind::HighPass, F_MID_HIGH, 2000, Q_LR, fs);
    lemma_new_section(c.high.fourth, math, FilterKind::HighPass, F_MID_HIGH, 2000, Q_LR, fs);
}

/// The fast time constant is one fiftieth of a second, the slow one a twentieth.
pub proof fn law_time_constants()
    ensures
        (Single { bits: T_FAST }).is_finite(),
        !(Single { bits: T_FAST }).negative(),
        abs(50 * (Single { bits: T_FAST }).value() - pow2(149)) * 0x100_0000 <= pow2(149),
        (Single { bits: T_SLOW }).is_finite(),
        !(Single { bits: T_SLOW }).negative(),
        abs(20 * (Single { bits: T_SLOW }).value() - pow2(149)) * 0x100_0000 <= pow2(149),
{
    lemma_compose(120, 10737418);
    lemma_compose(121, 13421773);
    lemma_pow2_adds(29, 120);
    lemma_pow2_adds(1, 120);
    assert(pow2(29) == 0x2000_0000 && pow2(1) == 2) by {
        vstd::arithmetic::power2::lemma2_to64();
    }
    let p = pow2(120) as int;
    assert(50 * (10737418 * p) == 536870900 * p && 0x2000_0000 * p == 536870912 * p) by (
        nonlinear_arith);
    assert(20 * (13421773 * (2 * p)) == 536870920 * p) by (nonlinear_arith);
    lemma_pow2_pos(120);
}

} // verus!
