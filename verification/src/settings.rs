//! What holds of the parameters over any history of writes and blocks.
use vstd::prelude::*;

use crate::arithmetic::{
    law_rounding_monotone, lemma_opposite, lemma_rounded_self, lemma_small_powers, lemma_sum_value,
};
use crate::biquad::{
    amplitude_exponent, angular_frequency, Biquad, Coefficients, FilterKind, Transfer,
};
use crate::chain::{Band, Chain, Change, LowBand};
use crate::constants::{HALF, ONE, TEN, TWENTY, ZERO};
use crate::elementary::{cos_gives, exp_gives, powf_gives, repeats, sin_gives, Elementary};
use crate::engine::{
    gain_exponent, high_plan, is_fresh, is_fresh_band, is_fresh_chain, is_fresh_low, low_plan,
    means, mid_plan, run, written, Engine, F_HIGH_SHELF, F_LOW_SHELF, F_PEAK, Q_LR, Q_PEAK, T_FAST,
    T_SLOW,
};
use crate::filters::{lemma_zero_over, tells_unity};
use crate::grid::{lemma_increasing, lemma_zero, INFINITY};
use crate::laws::{between, is_switch, law_wet_stays_in_range};
use crate::single::Single;
use crate::smoother::Smoother;

verus! {

/// A host that repeats itself makes coefficients that depend on their settings
/// alone: two computations of one filter agree. The shelves ignore the
/// quality, the shapes without a gain the gain.
pub proof fn law_coefficients_repeat<M: Elementary>(
    math: &M,
    kind: FilterKind,
    f0: Single,
    q1: Single,
    q2: Single,
    gain1: Single,
    gain2: Single,
    fs: Single,
    c1: Coefficients,
    c2: Coefficients,
)
    requires
        repeats(math),
        c1.tuned(math, kind, f0, q1, gain1, fs),
        c2.tuned(math, kind, f0, q2, gain2, fs),
        q1 == q2 || kind is LowShelf || kind is HighShelf,
        gain1 == gain2 || !kind.takes_gain(),
    ensures
        c1 == c2,
{
    let w = angular_frequency(f0, fs);
    let ten = Single { bits: TEN };
    let (cos1, sin1, a1) = choose|cos_w: Single, sin_w: Single, a: Single|
        {
            &&& #[trigger] cos_gives(math, w, cos_w)
            &&& #[trigger] sin_gives(math, w, sin_w)
            &&& kind.takes_gain() ==> powf_gives(math, ten, amplitude_exponent(gain1), a)
            &&& c1 == (#[trigger] Transfer::of(kind, cos_w, sin_w, q1, a)).normalized()
        };
    let (cos2, sin2, a2) = choose|cos_w: Single, sin_w: Single, a: Single|
        {
            &&& #[trigger] cos_gives(math, w, cos_w)
            &&& #[trigger] sin_gives(math, w, sin_w)
            &&& kind.takes_gain() ==> powf_gives(math, ten, amplitude_exponent(gain2), a)
            &&& c2 == (#[trigger] Transfer::of(kind, cos_w, sin_w, q2, a)).normalized()
        };
    assert(cos1 == cos2);
    assert(sin1 == sin2);
}

/// The value at which a parameter has no effect: 0 dB, width one, crossover
/// off.
pub open spec fn neutral(id: u32) -> Single {
    if id == 3 {
        Single { bits: ONE }
    } else {
        Single { bits: ZERO }
    }
}

/// A new chain holds the neutral value of every parameter: writing it changes
/// nothing, if the host repeats itself and takes ten to the power of zero for
/// one.
pub proof fn law_fresh_holds_neutral_values<M: Elementary>(
    c: Chain,
    math: &M,
    fs: Single,
    id: u32,
    change: Change,
)
    requires
        is_fresh_chain(c, math, fs),
        means(change, math, id, neutral(id), fs),
        repeats(math),
        tells_unity(math),
    ensures
        c.changed(change) == c,
{
    let zero = Single { bits: ZERO };
    lemma_zero_over(Single { bits: TWENTY });
    assert(gain_exponent(zero) == zero);
    match change {
        Change::LowEq(k) => {
            law_coefficients_repeat(
                math,
                FilterKind::LowShelf,
                Single { bits: F_LOW_SHELF },
                Single { bits: Q_LR },
                Single { bits: Q_LR },
                zero,
                zero,
                fs,
                k,
                c.low_eq.coefficients,
            );
        },
        Change::MidEq(k) => {
            law_coefficients_repeat(
                math,
                FilterKind::Peaking,
                Single { bits: F_PEAK },
                Single { bits: Q_PEAK },
                Single { bits: Q_PEAK },
                zero,
                zero,
                fs,
                k,
                c.mid_eq.coefficients,
            );
        },
        Change::HighEq(k) => {
            law_coefficients_repeat(
                math,
                FilterKind::HighShelf,
                Single { bits: F_HIGH_SHELF },
                Single { bits: Q_LR },
                Single { bits: Q_LR },
                zero,
                zero,
                fs,
                k,
                c.high_eq.coefficients,
            );
        },
        Change::Wet(v) => {
            lemma_small_powers();
            lemma_zero(0);
        },
        _ => {},
    }
}

/// The same of a new engine: after a write of a neutral value it is as it was,
/// in every field.
pub proof fn law_neutral_write_changes_nothing<M: Elementary>(
    before: Engine,
    math: &M,
    id: u32,
    after: Engine,
)
    requires
        is_fresh_chain(before.chain, math, before.sample_rate),
        written(before, math, id, neutral(id), after),
        repeats(math),
        tells_unity(math),
    ensures
        after == before,
{
    let fs = before.sample_rate;
    let change = choose|change: Change| #[trigger]
        means(change, math, id, neutral(id), fs) && after.chain == before.chain.changed(change);
    law_fresh_holds_neutral_values(before.chain, math, fs, id, change);
}

/// Two new smoothers with equal settings are equal, if the host repeats itself.
proof fn lemma_smoothers_repeat<M: Elementary>(
    s: Smoother,
    t: Smoother,
    math: &M,
    initial: Single,
    fs: Single,
    time: Single,
)
    requires
        repeats(math),
        s.tuned(math, initial, fs, time),
        t.tuned(math, initial, fs, time),
    ensures
        s == t,
{
    let x = choose|x: Single| #[trigger]
        exp_gives(math, Smoother::exponent(fs, time), x) && s == Smoother::at_rest(initial, x);
    let y = choose|y: Single| #[trigger]
        exp_gives(math, Smoother::exponent(fs, time), y) && t == Smoother::at_rest(initial, y);
    assert(x == y);
}

/// Two new sections with equal settings are equal, if the host repeats itself.
proof fn lemma_sections_repeat<M: Elementary>(
    a: Biquad,
    b: Biquad,
    math: &M,
    kind: FilterKind,
    f0: u32,
    q: u32,
    fs: Single,
)
    requires
        repeats(math),
        is_fresh(a, math, kind, f0, q, fs),
        is_fresh(b, math, kind, f0, q, fs),
    ensures
        a == b,
{
    law_coefficients_repeat(
        math,
        kind,
        Single { bits: f0 },
        Single { bits: q },
        Single { bits: q },
        Single { bits: ZERO },
        Single { bits: ZERO },
        fs,
        a.coefficients,
        b.coefficients,
    );
}

/// Two new bands by one plan are equal, if the host repeats itself.
proof fn lemma_bands_repeat<M: Elementary>(
    a: Band,
    b: Band,
    math: &M,
    plan: ((FilterKind, u32), (FilterKind, u32), (FilterKind, u32), (FilterKind, u32)),
    fs: Single,
)
    requires
        repeats(math),
        is_fresh_band(a, math, plan, fs),
        is_fresh_band(b, math, plan, fs),
    ensures
        a == b,
{
    reveal(is_fresh_band);
    lemma_sections_repeat(a.first, b.first, math, plan.0.0, plan.0.1, Q_LR, fs);
    lemma_sections_repeat(a.second, b.second, math, plan.1.0, plan.1.1, Q_LR, fs);
    lemma_sections_repeat(a.third, b.third, math, plan.2.0, plan.2.1, Q_LR, fs);
    lemma_sections_repeat(a.fourth, b.fourth, math, plan.3.0, plan.3.1, Q_LR, fs);
}

/// Two new low bands are equal, if the host repeats itself.
proof fn lemma_lows_repeat<M: Elementary>(a: LowBand, b: LowBand, math: &M, fs: Single)
    requires
        repeats(math),
        is_fresh_low(a, math, fs),
        is_fresh_low(b, math, fs),
    ensures
        a == b,
{
    reveal(is_fresh_low);
    let plan = low_plan();
    lemma_sections_repeat(a.first, b.first, math, plan.0.0, plan.0.1, Q_LR, fs);
    lemma_sections_repeat(a.second, b.second, math, plan.1.0, plan.1.1, Q_LR, fs);
    lemma_sections_repeat(a.third, b.third, math, plan.2.0, plan.2.1, Q_LR, fs);
}

/// New chains at one sample rate are equal, if the host repeats itself.
pub proof fn law_fresh_chains_repeat<M: Elementary>(c: Chain, d: Chain, math: &M, fs: Single)
    requires
        repeats(math),
        is_fresh_chain(c, math, fs),
        is_fresh_chain(d, math, fs),
    ensures
        c == d,
{
    let zero = Single { bits: ZERO };
    let one = Single { bits: ONE };
    let fast = Single { bits: T_FAST };
    let slow = Single { bits: T_SLOW };
    lemma_smoothers_repeat(c.width, d.width, math, one, fs, fast);
    lemma_smoothers_repeat(c.out_gain_lin, d.out_gain_lin, math, one, fs, fast);
    lemma_smoothers_repeat(c.mb_wet, d.mb_wet, math, zero, fs, slow);
    lemma_smoothers_repeat(c.mb_low_gain, d.mb_low_gain, math, one, fs, slow);
    lemma_smoothers_repeat(c.mb_mid_gain, d.mb_mid_gain, math, one, fs, slow);
    lemma_smoothers_repeat(c.mb_high_gain, d.mb_high_gain, math, one, fs, slow);
    let (low, mid, high) = (FilterKind::LowShelf, FilterKind::Peaking, FilterKind::HighShelf);
    lemma_sections_repeat(c.low_eq, d.low_eq, math, low, F_LOW_SHELF, Q_LR, fs);
    lemma_sections_repeat(c.mid_eq, d.mid_eq, math, mid, F_PEAK, Q_PEAK, fs);
    lemma_sections_repeat(c.high_eq, d.high_eq, math, high, F_HIGH_SHELF, Q_LR, fs);
    lemma_lows_repeat(c.low, d.low, math, fs);
    lemma_bands_repeat(c.mid, d.mid, math, mid_plan(), fs);
    lemma_bands_repeat(c.high, d.high, math, high_plan(), fs);
}

/// Frames leave the switch of the crossover in range.
pub proof fn law_share_in_range_over_a_run(c: Chain, l: Seq<Single>, r: Seq<Single>, n: nat)
    requires
        is_switch(c.mb_wet),
    ensures
        is_switch(run(c, l, r, n).mb_wet),
    decreases n,
{
    reveal(Chain::advanced);
    if n > 0 {
        law_share_in_range_over_a_run(c, l, r, (n - 1) as nat);
        law_wet_stays_in_range(run(c, l, r, (n - 1) as nat).mb_wet, true);
    }
}

/// Parameter writes leave the switch of the crossover in range.
pub proof fn law_share_in_range_over_a_write<M: Elementary>(
    c: Chain,
    math: &M,
    id: u32,
    v: Single,
    fs: Single,
    change: Change,
)
    requires
        is_switch(c.mb_wet),
        means(change, math, id, v, fs),
    ensures
        is_switch(c.changed(change).mb_wet),
{
}

/// A new chain has the switch of the crossover in range, for exponentials
/// between one half and one.
pub proof fn law_share_in_range_at_first<M: Elementary>(c: Chain, math: &M, fs: Single)
    requires
        is_fresh_chain(c, math, fs),
        forall|y: Single| #[trigger]
            exp_gives(math, Smoother::exponent(fs, Single { bits: T_SLOW }), y) ==> between(
                Single { bits: HALF },
                y,
                Single { bits: ONE },
            ),
    ensures
        is_switch(c.mb_wet),
{
    lemma_tuned_switch(c.mb_wet, math, fs, Single { bits: T_SLOW });
}

/// A new switch is in range, for exponentials between one half and one.
proof fn lemma_tuned_switch<M: Elementary>(s: Smoother, math: &M, fs: Single, time: Single)
    requires
        s.tuned(math, Single { bits: ZERO }, fs, time),
        forall|y: Single| #[trigger]
            exp_gives(math, Smoother::exponent(fs, time), y) ==> between(
                Single { bits: HALF },
                y,
                Single { bits: ONE },
            ),
    ensures
        is_switch(s),
{
    let zero = Single { bits: ZERO };
    let decay = choose|decay: Single| #[trigger]
        exp_gives(math, Smoother::exponent(fs, time), decay) && s == Smoother::at_rest(zero, decay);
    lemma_share(decay);
    lemma_small_powers();
    lemma_zero(0);
}

/// One less a number between one half and one is between zero and one half.
proof fn lemma_share(decay: Single)
    requires
        between(Single { bits: HALF }, decay, Single { bits: ONE }),
    ensures
        ({
            let coef = Single { bits: ONE } - decay;
            !coef.negative() && !coef.is_nan() && (Single { bits: HALF }).at_least(coef)
        }),
{
    let one = Single { bits: ONE };
    let half = Single { bits: HALF };
    lemma_small_powers();
    lemma_zero(0);
    if !decay.is_finite() {
        lemma_increasing(ONE as nat, (ONE + 1) as nat);
        lemma_increasing((ONE + 1) as nat, INFINITY as nat);
    }
    lemma_opposite(decay);
    let v = one.value() - decay.value();
    lemma_sum_value(one, decay.opposite());
    lemma_rounded_self(half);
    law_rounding_monotone(v, half.value());
    crate::arithmetic::lemma_rounded_parts(v);
    assert(!(one - decay).negative()) by {
        reveal(Single::spec_add);
        crate::arithmetic::lemma_signed(false, 0);
    }
}

/// Whether every smoother has a finite target.
pub open spec fn targets_finite(c: Chain) -> bool {
    &&& c.width.target.is_finite()
    &&& c.out_gain_lin.target.is_finite()
    &&& c.mb_wet.target.is_finite()
    &&& c.mb_low_gain.target.is_finite()
    &&& c.mb_mid_gain.target.is_finite()
    &&& c.mb_high_gain.target.is_finite()
}

/// The targets of the smoothers are finite in a new chain.
pub proof fn law_targets_finite_at_first<M: Elementary>(c: Chain, math: &M, fs: Single)
    requires
        is_fresh_chain(c, math, fs),
    ensures
        targets_finite(c),
{
}

/// They stay finite over a write of a finite value, where the host's power for
/// it is finite.
pub proof fn law_targets_finite_over_a_write<M: Elementary>(
    c: Chain,
    math: &M,
    id: u32,
    v: Single,
    fs: Single,
    change: Change,
)
    requires
        targets_finite(c),
        means(change, math, id, v, fs),
        v.is_finite(),
        forall|y: Single| #[trigger]
            powf_gives(math, Single { bits: TEN }, gain_exponent(v), y) ==> y.is_finite(),
    ensures
        targets_finite(c.changed(change)),
{
}

/// They stay as they are over a run of frames.
pub proof fn law_targets_kept_over_a_run(c: Chain, l: Seq<Single>, r: Seq<Single>, n: nat)
    ensures
        ({
            let d = run(c, l, r, n);
            &&& d.width.target == c.width.target
            &&& d.out_gain_lin.target == c.out_gain_lin.target
            &&& d.mb_wet.target == c.mb_wet.target
            &&& d.mb_low_gain.target == c.mb_low_gain.target
            &&& d.mb_mid_gain.target == c.mb_mid_gain.target
            &&& d.mb_high_gain.target == c.mb_high_gain.target
        }),
    decreases n,
{
    reveal(Chain::advanced);
    if n > 0 {
        law_targets_kept_over_a_run(c, l, r, (n - 1) as nat);
    }
}

/// Neither frames nor writes to anything but the equalizer change the
/// coefficients of a section.
pub proof fn law_coefficients_kept_over_a_run(c: Chain, l: Seq<Single>, r: Seq<Single>, n: nat)
    ensures
        ({
            let d = run(c, l, r, n);
            &&& d.low_eq.coefficients == c.low_eq.coefficients
            &&& d.mid_eq.coefficients == c.mid_eq.coefficients
            &&& d.high_eq.coefficients == c.high_eq.coefficients
            &&& d.low.first.coefficients == c.low.first.coefficients
            &&& d.low.second.coefficients == c.low.second.coefficients
            &&& d.low.third.coefficients == c.low.third.coefficients
            &&& d.mid.first.coefficients == c.mid.first.coefficients
            &&& d.mid.second.coefficients == c.mid.second.coefficients
            &&& d.mid.third.coefficients == c.mid.third.coefficients
            &&& d.mid.fourth.coefficients == c.mid.fourth.coefficients
            &&& d.high.first.coefficients == c.high.first.coefficients
            &&& d.high.second.coefficients == c.high.second.coefficients
            &&& d.high.third.coefficients == c.high.third.coefficients
            &&& d.high.fourth.coefficients == c.high.fourth.coefficients
        }),
    decreases n,
{
    reveal(Chain::advanced);
    if n > 0 {
        law_coefficients_kept_over_a_run(c, l, r, (n - 1) as nat);
    }
}

/// What can happen to a chain: a parameter write that means a change, or a run
/// of frames.
pub enum Event {
    Written(Change),
    Ran(Seq<Single>, Seq<Single>, nat),
}

/// The chain after a history of events.
pub open spec fn after(c: Chain, events: Seq<Event>) -> Chain
    decreases events.len(),
{
    if events.len() == 0 {
        c
    } else {
        let d = after(c, events.drop_last());
        match events.last() {
            Event::Written(change) => d.changed(change),
            Event::Ran(l, r, n) => run(d, l, r, n),
        }
    }
}

/// Whether some write of a finite value means this change, with finite powers
/// of the host for it.
pub open spec fn is_written<M: Elementary>(math: &M, fs: Single, change: Change) -> bool {
    exists|id: u32, v: Single|
        {
            &&& #[trigger] means(change, math, id, v, fs)
            &&& v.is_finite()
            &&& forall|y: Single| #[trigger]
                powf_gives(math, Single { bits: TEN }, gain_exponent(v), y) ==> y.is_finite()
        }
}

/// Over any history of writes and frames, the share of the crossover in the
/// mix stays between nothing and everything, on its way to one of the two, and
/// every smoother has a finite target.
pub proof fn law_in_range_over_any_history<M: Elementary>(
    c: Chain,
    math: &M,
    fs: Single,
    events: Seq<Event>,
)
    requires
        is_switch(c.mb_wet),
        targets_finite(c),
        forall|i: int|
            0 <= i < events.len() ==> (#[trigger] events[i] matches Event::Written(change)
                ==> is_written(math, fs, change)),
    ensures
        is_switch(after(c, events).mb_wet),
        targets_finite(after(c, events)),
    decreases events.len(),
{
    if events.len() > 0 {
        let before = events.drop_last();
        assert forall|i: int| 0 <= i < before.len() implies (#[trigger] before[i] matches
            Event::Written(change) ==> is_written(math, fs, change)) by {
            assert(before[i] == events[i]);
        }
        law_in_range_over_any_history(c, math, fs, before);
        let d = after(c, before);
        assert(events.last() == events[events.len() - 1]);
        match events.last() {
            Event::Written(change) => {
                let (id, v) = choose|id: u32, v: Single|
                    {
                        &&& #[trigger] means(change, math, id, v, fs)
                        &&& v.is_finite()
                        &&& forall|y: Single| #[trigger]
                            powf_gives(math, Single { bits: TEN }, gain_exponent(v), y)
                                ==> y.is_finite()
                    };
                law_share_in_range_over_a_write(d, math, id, v, fs, change);
                law_targets_finite_over_a_write(d, math, id, v, fs, change);
            },
            Event::Ran(l, r, n) => {
                law_share_in_range_over_a_run(d, l, r, n);
                law_targets_kept_over_a_run(d, l, r, n);
            },
        }
    }
}

} // verus!
