//! Nothing comes of nothing: an engine without a past is silent while nothing
//! comes in.
use vstd::prelude::*;

use crate::arithmetic::{
    law_commutative, law_times_zero, lemma_finite_bounded, lemma_finite_range, lemma_opposite,
    lemma_signed, lemma_small_powers, lemma_sum_value,
};
use crate::biquad::Biquad;
use crate::chain::{blend, mix, widen, Band, Chain, LowBand};
use crate::constants::{HALF, ONE, ZERO};
use crate::elementary::{exp_gives, Elementary};
use crate::engine::{frame, is_fresh_band, is_fresh_chain, is_fresh_low, run, T_FAST, T_SLOW};
use crate::laws::{law_smoother_rests, lemma_tuned_rests};
use crate::scaling::{law_silence, lemma_zeros};
use crate::single::{signed, Single};
use crate::smoother::Smoother;
use crate::stability::{
    is_stable_band, is_stable_chain, is_stable_low, law_stable_at_first, tells_amplitude,
    tells_frequencies,
};

verus! {

/// Whether a section has no past.
pub open spec fn is_silent(b: Biquad) -> bool {
    b.left.is_silent() && b.right.is_silent()
}

/// Whether the low band has no past.
pub open spec fn is_silent_low(b: LowBand) -> bool {
    is_silent(b.first) && is_silent(b.second) && is_silent(b.third)
}

/// Whether a band has no past.
pub open spec fn is_silent_band(b: Band) -> bool {
    is_silent(b.first) && is_silent(b.second) && is_silent(b.third) && is_silent(b.fourth)
}

/// Whether a chain has no past.
pub open spec fn is_silent_chain(c: Chain) -> bool {
    &&& is_silent(c.low_eq) && is_silent(c.mid_eq) && is_silent(c.high_eq)
    &&& is_silent_low(c.low) && is_silent_band(c.mid) && is_silent_band(c.high)
}

/// Whether a smoother has arrived at a finite target.
pub open spec fn is_at_rest(s: Smoother) -> bool {
    s.resting(s.target) && s.target.is_finite() && s.target != signed(true, 0)
}

/// Whether all smoothers of a chain have arrived at finite targets.
pub open spec fn is_chain_at_rest(c: Chain) -> bool {
    &&& is_at_rest(c.width) && is_at_rest(c.out_gain_lin) && is_at_rest(c.mb_wet)
    &&& is_at_rest(c.mb_low_gain) && is_at_rest(c.mb_mid_gain) && is_at_rest(c.mb_high_gain)
}

/// A zero times a finite number.
proof fn lemma_zero_times(z: Single, x: Single)
    requires
        z.is_zero(),
        x.is_finite(),
    ensures
        (z * x).is_zero(),
        (x * z).is_zero(),
{
    law_times_zero(x, z);
    law_commutative(z, x);
}

/// The low band without a past is silent while nothing comes in.
proof fn lemma_low_silent(b: LowBand, l: Single, r: Single)
    requires
        is_silent_low(b),
        is_stable_low(b),
        l.is_zero(),
        r.is_zero(),
    ensures
        b.output(l, r).0.is_zero(),
        b.output(l, r).1.is_zero(),
        is_silent_low(b.advanced(l, r)),
{
    let (l1, r1) = b.first.output(l, r);
    let (l2, r2) = b.second.output(l1, r1);
    law_silence(b.first, l, r);
    law_silence(b.second, l1, r1);
    law_silence(b.third, l2, r2);
}

/// A band without a past is silent while nothing comes in.
proof fn lemma_band_silent(b: Band, l: Single, r: Single)
    requires
        is_silent_band(b),
        is_stable_band(b),
        l.is_zero(),
        r.is_zero(),
    ensures
        b.output(l, r).0.is_zero(),
        b.output(l, r).1.is_zero(),
        is_silent_band(b.advanced(l, r)),
{
    let (l1, r1) = b.first.output(l, r);
    let (l2, r2) = b.second.output(l1, r1);
    let (l3, r3) = b.third.output(l2, r2);
    law_silence(b.first, l, r);
    law_silence(b.second, l1, r1);
    law_silence(b.third, l2, r2);
    law_silence(b.fourth, l3, r3);
}

/// A mix of nothing.
proof fn lemma_mix_silent(
    low: Single,
    g_low: Single,
    mid: Single,
    g_mid: Single,
    high: Single,
    g_high: Single,
)
    requires
        low.is_zero() && mid.is_zero() && high.is_zero(),
        g_low.is_finite() && g_mid.is_finite() && g_high.is_finite(),
    ensures
        mix(low, g_low, mid, g_mid, high, g_high).is_zero(),
{
    lemma_zero_times(low, g_low);
    lemma_zero_times(mid, g_mid);
    lemma_zero_times(high, g_high);
    lemma_zeros(low * g_low, mid * g_mid);
    lemma_zeros(low * g_low + mid * g_mid, high * g_high);
}

/// A blend of nothing.
proof fn lemma_blend_silent(dry: Single, multiband: Single, wet: Single)
    requires
        dry.is_zero(),
        multiband.is_zero(),
        wet.is_finite(),
    ensures
        blend(dry, multiband, wet).is_zero(),
{
    let one = Single { bits: ONE };
    lemma_opposite(wet);
    lemma_small_powers();
    lemma_finite_bounded(wet);
    lemma_finite_range(one.value() - wet.value());
    lemma_sum_value(one, wet.opposite());
    lemma_zero_times(dry, one - wet);
    lemma_zero_times(multiband, wet);
    lemma_zeros(dry * (one - wet), multiband * wet);
}

/// The width of nothing.
proof fn lemma_width_silent(l: Single, r: Single, width: Single)
    requires
        l.is_zero(),
        r.is_zero(),
        width.is_finite(),
    ensures
        widen(l, r, width).0.is_zero(),
        widen(l, r, width).1.is_zero(),
{
    let half = Single { bits: HALF };
    lemma_zeros(l, r);
    lemma_zero_times(l + r, half);
    lemma_zero_times(l - r, half);
    lemma_zero_times(half * (l - r), width);
    lemma_zeros(half * (l + r), half * (l - r) * width);
}

/// A chain without a past and with its smoothers at rest puts out zeros for
/// zeros, and stays as it is.
pub proof fn law_chain_silent(c: Chain, l: Single, r: Single)
    requires
        is_silent_chain(c),
        is_chain_at_rest(c),
        is_stable_chain(c),
        l.is_zero(),
        r.is_zero(),
    ensures
        c.output(l, r).0.is_zero(),
        c.output(l, r).1.is_zero(),
        is_silent_chain(c.advanced(l, r)),
        is_chain_at_rest(c.advanced(l, r)),
        is_stable_chain(c.advanced(l, r)),
{
    reveal(Chain::blended);
    reveal(Chain::output);
    reveal(Chain::advanced);
    law_smoother_rests(c.width, c.width.target);
    law_smoother_rests(c.out_gain_lin, c.out_gain_lin.target);
    law_smoother_rests(c.mb_wet, c.mb_wet.target);
    law_smoother_rests(c.mb_low_gain, c.mb_low_gain.target);
    law_smoother_rests(c.mb_mid_gain, c.mb_mid_gain.target);
    law_smoother_rests(c.mb_high_gain, c.mb_high_gain.target);
    lemma_width_silent(l, r, c.width.next());
    let (l0, r0) = c.widened(l, r);
    law_silence(c.low_eq, l0, r0);
    let (l1, r1) = c.low_equalized(l, r);
    law_silence(c.mid_eq, l1, r1);
    let (l2, r2) = c.mid_equalized(l, r);
    law_silence(c.high_eq, l2, r2);
    let (l3, r3) = c.equalized(l, r);
    lemma_low_silent(c.low, l3, r3);
    lemma_band_silent(c.mid, l3, r3);
    lemma_band_silent(c.high, l3, r3);
    let (ll, lr) = c.low.output(l3, r3);
    let (ml, mr) = c.mid.output(l3, r3);
    let (hl, hr) = c.high.output(l3, r3);
    let (g_low, g_mid) = (c.mb_low_gain.next(), c.mb_mid_gain.next());
    let g_high = c.mb_high_gain.next();
    lemma_mix_silent(ll, g_low, ml, g_mid, hl, g_high);
    lemma_mix_silent(lr, g_low, mr, g_mid, hr, g_high);
    let (mb_l, mb_r) = c.multiband(l, r);
    lemma_blend_silent(l3, mb_l, c.mb_wet.next());
    lemma_blend_silent(r3, mb_r, c.mb_wet.next());
    let (b_l, b_r) = c.blended(l, r);
    lemma_zero_times(b_l, c.out_gain_lin.next());
    lemma_zero_times(b_r, c.out_gain_lin.next());
}

/// A chain without a past and with its smoothers at rest is silent for as long
/// as nothing comes in.
pub proof fn law_silence_lasts(c: Chain, l: Seq<Single>, r: Seq<Single>, n: nat)
    requires
        is_silent_chain(c),
        is_chain_at_rest(c),
        is_stable_chain(c),
        forall|i: int| 0 <= i <= n ==> (#[trigger] l[i]).is_zero(),
        forall|i: int| 0 <= i <= n ==> (#[trigger] r[i]).is_zero(),
    ensures
        frame(c, l, r, n as int).0.is_zero(),
        frame(c, l, r, n as int).1.is_zero(),
        is_silent_chain(run(c, l, r, n)),
        is_chain_at_rest(run(c, l, r, n)),
        is_stable_chain(run(c, l, r, n)),
    decreases n,
{
    if n > 0 {
        law_silence_lasts(c, l, r, (n - 1) as nat);
        law_chain_silent(run(c, l, r, (n - 1) as nat), l[n - 1], r[n - 1]);
    }
    law_chain_silent(run(c, l, r, n), l[n as int], r[n as int]);
}

/// A smoother that is as new is at rest.
proof fn lemma_tuned_at_rest<M: Elementary>(
    s: Smoother,
    math: &M,
    initial: Single,
    fs: Single,
    time_const_s: Single,
)
    requires
        s.tuned(math, initial, fs, time_const_s),
        initial == (Single { bits: ZERO }) || initial == (Single { bits: ONE }),
        forall|y: Single| #[trigger]
            exp_gives(math, Smoother::exponent(fs, time_const_s), y) ==> y.is_finite(),
    ensures
        is_at_rest(s),
{
    lemma_tuned_rests(s, math, initial, fs, time_const_s);
    lemma_signed(true, 0);
}

/// A new chain is at rest and has no past.
proof fn lemma_fresh_at_rest<M: Elementary>(c: Chain, math: &M, fs: Single)
    requires
        is_fresh_chain(c, math, fs),
        forall|y: Single| #[trigger]
            exp_gives(math, Smoother::exponent(fs, Single { bits: T_FAST }), y) ==> y.is_finite(),
        forall|y: Single| #[trigger]
            exp_gives(math, Smoother::exponent(fs, Single { bits: T_SLOW }), y) ==> y.is_finite(),
    ensures
        is_chain_at_rest(c),
        is_silent_chain(c),
{
    let zero = Single { bits: ZERO };
    let one = Single { bits: ONE };
    let fast = Single { bits: T_FAST };
    let slow = Single { bits: T_SLOW };
    reveal(is_fresh_low);
    reveal(is_fresh_band);
    lemma_tuned_at_rest(c.width, math, one, fs, fast);
    lemma_tuned_at_rest(c.out_gain_lin, math, one, fs, fast);
    lemma_tuned_at_rest(c.mb_wet, math, zero, fs, slow);
    lemma_tuned_at_rest(c.mb_low_gain, math, one, fs, slow);
    lemma_tuned_at_rest(c.mb_mid_gain, math, one, fs, slow);
    lemma_tuned_at_rest(c.mb_high_gain, math, one, fs, slow);
}

/// A new chain is silent for as long as nothing comes in, for a host whose
/// answers are in range.
pub proof fn law_silent_at_first<M: Elementary>(
    c: Chain,
    math: &M,
    fs: Single,
    l: Seq<Single>,
    r: Seq<Single>,
    n: nat,
)
    requires
        is_fresh_chain(c, math, fs),
        tells_frequencies(math, fs),
        tells_amplitude(math, Single { bits: ZERO }),
        forall|y: Single| #[trigger]
            exp_gives(math, Smoother::exponent(fs, Single { bits: T_FAST }), y) ==> y.is_finite(),
        forall|y: Single| #[trigger]
            exp_gives(math, Smoother::exponent(fs, Single { bits: T_SLOW }), y) ==> y.is_finite(),
        forall|i: int| 0 <= i <= n ==> (#[trigger] l[i]).is_zero(),
        forall|i: int| 0 <= i <= n ==> (#[trigger] r[i]).is_zero(),
    ensures
        frame(c, l, r, n as int).0.is_zero(),
        frame(c, l, r, n as int).1.is_zero(),
{
    law_stable_at_first(c, math, fs);
    lemma_fresh_at_rest(c, math, fs);
    law_silence_lasts(c, l, r, n);
}

} // verus!
