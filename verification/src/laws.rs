//! What holds of the engine as a whole.

use vstd::prelude::*;

use crate::arithmetic::{
    abs, alike, is_canonical, law_add_zero, law_alike, law_commutative, law_double, law_half,
    law_minus_itself, law_rounding_error, law_rounding_monotone, law_small_share, law_times_one,
    law_times_zero, lemma_finite_bounded, lemma_finite_range, lemma_opposite,
    lemma_results_canonical, lemma_rounded_parts, lemma_rounded_self, lemma_signed,
    lemma_small_powers, lemma_sum, lemma_sum_value,
};
use crate::biquad::Biquad;
use crate::chain::{blend, widen, Chain, Change};
use crate::constants::{HALF, ONE, ZERO};
use crate::elementary::{exp_gives, Elementary};
use crate::engine::{frame, is_fresh_chain, processed, run, Engine, BLOCK_SIZE, T_FAST, T_SLOW};
use crate::grid::{lemma_exact, lemma_increasing, lemma_zero, INFINITY};
use crate::scaling::lemma_zeros;
use crate::single::{rounded, signed, Single};
use crate::smoother::Smoother;

verus! {

/// The larger of two absolute values.
pub open spec fn louder(x: int, y: int) -> int {
    if abs(x) < abs(y) {
        abs(y)
    } else {
        abs(x)
    }
}

/// What the width stage computes at width one, in whole units: the halves of
/// sum and difference, and their errors.
proof fn lemma_width_one(l: Single, r: Single)
    requires
        l.is_finite(),
        r.is_finite(),
        (l + r).is_finite(),
        (l - r).is_finite(),
    ensures
        ({
            let half = Single { bits: HALF };
            let m = half * (l + r);
            let s = half * (l - r) * (Single { bits: ONE });
            let (wl, wr) = widen(l, r, Single { bits: ONE });
            let e1 = (l + r).value() - (l.value() + r.value());
            let e2 = (l - r).value() - (l.value() - r.value());
            let f1 = 2 * m.value() - (l + r).value();
            let f2 = 2 * s.value() - (l - r).value();
            &&& abs(e1) * 0x100_0000 <= abs(l.value() + r.value())
            &&& abs(e2) * 0x100_0000 <= abs(l.value() - r.value())
            &&& abs(f1) <= 1 && ((l + r).value() % 2 == 0 ==> f1 == 0)
            &&& abs(f2) <= 1 && ((l - r).value() % 2 == 0 ==> f2 == 0)
            &&& wl.is_finite() && wr.is_finite()
            &&& wl.value() == rounded(m.value() + s.value()).value()
            &&& wr.value() == rounded(m.value() - s.value()).value()
            &&& rounded(m.value() + s.value()).is_finite()
            &&& rounded(m.value() - s.value()).is_finite()
        }),
{
    let half = Single { bits: HALF };
    let sum = l + r;
    let dif = l - r;
    let m = half * sum;
    let h = half * dif;
    let s = h * (Single { bits: ONE });
    lemma_opposite(r);
    lemma_sum(l, r);
    lemma_sum(l, r.opposite());
    law_half(sum);
    law_half(dif);
    lemma_results_canonical(half, dif);
    law_times_one(h);
    lemma_opposite(s);
    lemma_finite_bounded(sum);
    lemma_finite_bounded(dif);
    lemma_finite_range(m.value() + s.value());
    lemma_finite_range(m.value() - s.value());
    lemma_sum_value(m, s);
    lemma_sum_value(m, s.opposite());
}

/// How the errors of sum, halves and decoding add up, for one channel with
/// value `x` beside one with value `y`.
proof fn lemma_drift(x: int, y: int, e1: int, e2: int, f1: int, f2: int, m: int, s: int, w: int)
    requires
        abs(e1) * 0x100_0000 <= abs(x + y),
        abs(e2) * 0x100_0000 <= abs(x - y),
        abs(f1) <= 1,
        abs(f2) <= 1,
        2 * m == x + y + e1 + f1,
        2 * s == x - y + e2 + f2,
        abs(w - (m + s)) * 0x100_0000 <= abs(m + s),
    ensures
        abs(w - x) * 0x40_0000 <= louder(x, y) + 0x40_0000,
{
    let big = louder(x, y);
    assert(abs(x + y) + abs(x - y) == 2 * big);
    let u = m + s;
    assert(2 * (u - x) == e1 + e2 + f1 + f2);
    assert(abs(u - x) * 0x100_0000 <= big + 0x100_0000);
    assert(abs(u) <= 2 * big + 1);
}

/// At width one, the width stage returns its input to within one part in
/// 2 to the 22 of the louder channel and one smallest unit, wherever sum and
/// difference of the channels do not overflow.
pub proof fn law_width_one_drift(l: Single, r: Single)
    requires
        l.is_finite(),
        r.is_finite(),
        (l + r).is_finite(),
        (l - r).is_finite(),
    ensures
        ({
            let (wl, wr) = widen(l, r, Single { bits: ONE });
            &&& wl.is_finite()
            &&& wr.is_finite()
            &&& abs(wl.value() - l.value()) * 0x40_0000 <= louder(l.value(), r.value()) + 0x40_0000
            &&& abs(wr.value() - r.value()) * 0x40_0000 <= louder(l.value(), r.value()) + 0x40_0000
        }),
{
    let half = Single { bits: HALF };
    let m = half * (l + r);
    let s = half * (l - r) * (Single { bits: ONE });
    lemma_width_one(l, r);
    law_rounding_error(m.value() + s.value());
    law_rounding_error(m.value() - s.value());
    let (x, y) = (l.value(), r.value());
    let e1 = (l + r).value() - (x + y);
    let e2 = (l - r).value() - (x - y);
    let f1 = 2 * m.value() - (l + r).value();
    let f2 = 2 * s.value() - (l - r).value();
    let (wl, wr) = widen(l, r, Single { bits: ONE });
    lemma_drift(x, y, e1, e2, f1, f2, m.value(), s.value(), wl.value());
    lemma_drift(y, x, e1, -e2, f1, -f2, m.value(), -s.value(), wr.value());
}

/// At width one, the width stage returns the values of its input exactly,
/// wherever sum and difference of the channels are themselves exact and have
/// exact halves. Every signal with two equal channels is such, up to overflow.
pub proof fn law_width_one_exact(l: Single, r: Single)
    requires
        l.is_finite(),
        r.is_finite(),
        (l + r).is_finite(),
        (l - r).is_finite(),
        (l + r).value() == l.value() + r.value(),
        (l - r).value() == l.value() - r.value(),
        (l + r).value() % 2 == 0,
    ensures
        ({
            let (wl, wr) = widen(l, r, Single { bits: ONE });
            wl.value() == l.value() && wr.value() == r.value()
        }),
{
    lemma_width_one(l, r);
    lemma_rounded_self(l);
    lemma_rounded_self(r);
}

impl Smoother {
    /// Whether the smoother has arrived at `v`.
    pub open spec fn resting(self, v: Single) -> bool {
        &&& self.target == v
        &&& self.current == v
        &&& self.coef.is_finite()
    }
}

/// A smoother that has arrived at a finite number stays there, to the bit. (A
/// negative zero would become positive.)
pub proof fn law_smoother_rests(s: Smoother, v: Single)
    requires
        s.resting(v),
        v.is_finite(),
        v != signed(true, 0),
    ensures
        s.next() == v,
        s.advanced() == s,
{
    law_minus_itself(v);
    law_commutative(Single { bits: ZERO }, s.coef);
    law_times_zero(s.coef, Single { bits: ZERO });
    law_add_zero(v, (v - v) * s.coef);
}

/// With nothing wet, the blend is the dry signal, to the bit, whatever comes
/// out of the crossover.
pub proof fn law_true_bypass(dry: Single, multiband: Single)
    ensures
        blend(dry, multiband, Single { bits: ZERO }) == dry,
{
}

/// At width one, a signal with two equal channels keeps its values exactly.
pub proof fn law_width_one_mono(x: Single)
    requires
        x.is_finite(),
        (x + x).is_finite(),
    ensures
        ({
            let (wl, wr) = widen(x, x, Single { bits: ONE });
            wl.value() == x.value() && wr.value() == x.value()
        }),
{
    law_double(x);
    law_minus_itself(x);
    lemma_zero(0);
    law_width_one_exact(x, x);
}

/// Whether `x` is at least `low` and at most `high`.
pub open spec fn between(low: Single, x: Single, high: Single) -> bool {
    x.at_least(low) && high.at_least(x)
}

impl Smoother {
    /// Whether the smoother covers at most half of the distance in a sample.
    pub open spec fn gradual(self) -> bool {
        &&& !self.coef.negative()
        &&& !self.coef.is_nan()
        &&& (Single { bits: HALF }).at_least(self.coef)
    }
}

/// A smoother that covers at most half of the distance in a sample approaches
/// its target from one side and never overshoots it.
pub proof fn law_smoother_never_overshoots(s: Smoother)
    requires
        s.current.is_finite(),
        s.target.is_finite(),
        (s.target - s.current).is_finite(),
        s.gradual(),
    ensures
        s.target.at_least(s.current) ==> between(s.current, s.next(), s.target),
        s.current.at_least(s.target) ==> between(s.target, s.next(), s.current),
{
    let d = s.target - s.current;
    let p = d * s.coef;
    let (c, t) = (s.current.value(), s.target.value());
    lemma_opposite(s.current);
    lemma_sum(s.target, s.current.opposite());
    lemma_sum_value(s.target, s.current.opposite());
    if t >= c {
        law_rounding_monotone(0, t - c);
    }
    if t <= c {
        law_rounding_monotone(t - c, 0);
    }
    lemma_zero(0);
    lemma_exact(0, 1, 0);
    lemma_signed(false, 0);
    law_small_share(d, s.coef);
    lemma_sum_value(s.current, p);
    lemma_rounded_parts(c + p.value());
    lemma_rounded_self(s.current);
    lemma_rounded_self(s.target);
    assert(abs(d.value() - (t - c)) * 0x100_0000 <= abs(t - c));
    if t >= c {
        assert(p.value() <= t - c);
        law_rounding_monotone(c, c + p.value());
        law_rounding_monotone(c + p.value(), t);
    }
    if t <= c {
        assert(p.value() >= t - c);
        law_rounding_monotone(c + p.value(), c);
        law_rounding_monotone(t, c + p.value());
    }
}

impl Chain {
    /// What would come out for one stereo sample without a crossover.
    pub open spec fn without_crossover(self, il: Single, ir: Single) -> (Single, Single) {
        let (l, r) = self.equalized(il, ir);
        let g = self.out_gain_lin.next();
        (l * g, r * g)
    }
}

/// While the crossover is off, a sample goes around it: what comes out is, to
/// the bit, what would come out without a crossover.
pub proof fn law_bypass_is_transparent(c: Chain, il: Single, ir: Single)
    requires
        c.mb_wet.resting(Single { bits: ZERO }),
    ensures
        c.blended(il, ir) == c.equalized(il, ir),
        c.output(il, ir) == c.without_crossover(il, ir),
{
    reveal(Chain::blended);
    reveal(Chain::output);
    let (l, r) = c.equalized(il, ir);
    let (mb_l, mb_r) = c.multiband(il, ir);
    law_smoother_rests(c.mb_wet, Single { bits: ZERO });
    law_true_bypass(l, mb_l);
    law_true_bypass(r, mb_r);
}

/// What a section puts out is canonical.
proof fn lemma_section_canonical(b: Biquad, l: Single, r: Single)
    ensures
        is_canonical(b.output(l, r).0),
        is_canonical(b.output(l, r).1),
{
    let c = b.coefficients;
    let h = b.left;
    lemma_results_canonical(
        c.b0 * l + c.b1 * h.x1 + c.b2 * h.x2 - c.a1 * h.y1,
        c.a2 * h.y2,
    );
    let h = b.right;
    lemma_results_canonical(
        c.b0 * r + c.b1 * h.x1 + c.b2 * h.x2 - c.a1 * h.y1,
        c.a2 * h.y2,
    );
}

/// A crossover that is off stays off for as long as no parameter is written,
/// so a whole block goes around it.
pub proof fn law_bypass_lasts(c: Chain, l: Seq<Single>, r: Seq<Single>, n: nat)
    requires
        c.mb_wet.resting(Single { bits: ZERO }),
    ensures
        run(c, l, r, n).mb_wet == c.mb_wet,
        frame(c, l, r, n as int) == run(c, l, r, n).without_crossover(l[n as int], r[n as int]),
    decreases n,
{
    reveal(Chain::advanced);
    if n > 0 {
        law_bypass_lasts(c, l, r, (n - 1) as nat);
        law_smoother_rests(run(c, l, r, (n - 1) as nat).mb_wet, Single { bits: ZERO });
    }
    law_bypass_is_transparent(run(c, l, r, n), l[n as int], r[n as int]);
}

/// An output gain that rests at one leaves the blend as it is, to the bit.
pub proof fn law_unity_gain(c: Chain, il: Single, ir: Single)
    requires
        c.out_gain_lin.resting(Single { bits: ONE }),
    ensures
        c.output(il, ir) == c.blended(il, ir),
{
    reveal(Chain::blended);
    reveal(Chain::output);
    let (l, r) = c.equalized(il, ir);
    let (mb_l, mb_r) = c.multiband(il, ir);
    let wet = c.mb_wet.next();
    let dry_g = Single { bits: ONE } - wet;
    law_smoother_rests(c.out_gain_lin, Single { bits: ONE });
    lemma_section_canonical(c.high_eq, c.mid_equalized(il, ir).0, c.mid_equalized(il, ir).1);
    lemma_results_canonical(l * dry_g, mb_l * wet);
    lemma_results_canonical(r * dry_g, mb_r * wet);
    law_times_one(c.blended(il, ir).0);
    law_times_one(c.blended(il, ir).1);
}

impl Smoother {
    /// Whether the smoother has arrived at `v`, but for the sign of a zero.
    pub open spec fn settled(self, v: Single) -> bool {
        &&& self.target == v
        &&& alike(self.current, v)
        &&& self.coef.is_finite()
    }
}

/// A smoother that has settled at a finite number stays there, but for the
/// sign of a zero.
pub proof fn law_smoother_settled(s: Smoother, v: Single)
    requires
        s.settled(v),
        v.is_finite(),
    ensures
        alike(s.next(), v),
        s.advanced().settled(v),
{
    if v.is_zero() {
        lemma_zeros(s.target, s.current);
        law_commutative(s.target - s.current, s.coef);
        law_times_zero(s.coef, s.target - s.current);
        lemma_zeros(s.current, (s.target - s.current) * s.coef);
    } else {
        lemma_signed(true, 0);
        law_smoother_rests(s, v);
    }
}

/// Whether two chains are equal but for the output gain.
pub open spec fn same_but_gain(a: Chain, b: Chain) -> bool {
    b == (Chain { out_gain_lin: b.out_gain_lin, ..a })
}

/// A sample comes out as with a gain of one, times the gain.
proof fn lemma_gain_unseen(a: Chain, b: Chain, g: Single, il: Single, ir: Single)
    requires
        same_but_gain(a, b),
        a.out_gain_lin.resting(Single { bits: ONE }),
        b.out_gain_lin.settled(g),
        g.is_finite(),
    ensures
        alike(b.output(il, ir).0, a.output(il, ir).0 * g),
        alike(b.output(il, ir).1, a.output(il, ir).1 * g),
{
    let (x, y) = a.blended(il, ir);
    let h = b.out_gain_lin.next();
    assert(b.blended(il, ir) == (x, y)) by {
        reveal(Chain::blended);
    }
    assert(b.output(il, ir) == (x * h, y * h)) by {
        reveal(Chain::output);
    }
    law_unity_gain(a, il, ir);
    law_smoother_settled(b.out_gain_lin, g);
    law_alike(x, x, h, g);
    law_alike(y, y, h, g);
}

/// The output gain has no effect on how the rest of the chain moves on.
proof fn lemma_gain_apart(a: Chain, b: Chain, g: Single, il: Single, ir: Single)
    requires
        same_but_gain(a, b),
        a.out_gain_lin.resting(Single { bits: ONE }),
        b.out_gain_lin.settled(g),
        g.is_finite(),
    ensures
        same_but_gain(a.advanced(il, ir), b.advanced(il, ir)),
        a.advanced(il, ir).out_gain_lin.resting(Single { bits: ONE }),
        b.advanced(il, ir).out_gain_lin.settled(g),
{
    reveal(Chain::advanced);
    law_smoother_rests(a.out_gain_lin, Single { bits: ONE });
    law_smoother_settled(b.out_gain_lin, g);
}

/// The output gain is the last stage: with a settled gain, a frame comes out
/// as it does with a gain of one, times the gain, but for the signs of zeros.
/// Nothing else of the chain depends on it.
pub proof fn law_gain_is_last(
    a: Chain,
    b: Chain,
    g: Single,
    l: Seq<Single>,
    r: Seq<Single>,
    n: nat,
)
    requires
        same_but_gain(a, b),
        a.out_gain_lin.resting(Single { bits: ONE }),
        b.out_gain_lin.settled(g),
        g.is_finite(),
    ensures
        alike(frame(b, l, r, n as int).0, frame(a, l, r, n as int).0 * g),
        alike(frame(b, l, r, n as int).1, frame(a, l, r, n as int).1 * g),
        same_but_gain(run(a, l, r, n), run(b, l, r, n)),
        run(a, l, r, n).out_gain_lin.resting(Single { bits: ONE }),
        run(b, l, r, n).out_gain_lin.settled(g),
    decreases n,
{
    if n > 0 {
        let (c, d) = (run(a, l, r, (n - 1) as nat), run(b, l, r, (n - 1) as nat));
        law_gain_is_last(a, b, g, l, r, (n - 1) as nat);
        lemma_gain_apart(c, d, g, l[n - 1], r[n - 1]);
    }
    lemma_gain_unseen(run(a, l, r, n), run(b, l, r, n), g, l[n as int], r[n as int]);
}

/// The same of engines: over a block, every output is that of an engine with a
/// gain of one, times the gain, but for the signs of zeros.
pub proof fn law_engine_gain_is_last(
    a: Engine,
    a_after: Engine,
    b: Engine,
    b_after: Engine,
    g: Single,
    n: nat,
)
    requires
        same_but_gain(a.chain, b.chain),
        b.in_l == a.in_l,
        b.in_r == a.in_r,
        a.chain.out_gain_lin.resting(Single { bits: ONE }),
        b.chain.out_gain_lin.settled(g),
        g.is_finite(),
        processed(a, n, a_after),
        processed(b, n, b_after),
    ensures
        forall|i: int|
            0 <= i < n && i < BLOCK_SIZE ==> alike(
                #[trigger] b_after.out_l[i],
                a_after.out_l[i] * g,
            ),
        forall|i: int|
            0 <= i < n && i < BLOCK_SIZE ==> alike(
                #[trigger] b_after.out_r[i],
                a_after.out_r[i] * g,
            ),
        same_but_gain(a_after.chain, b_after.chain),
{
    let (l, r) = (a.in_l@, a.in_r@);
    let k = if n < BLOCK_SIZE {
        n
    } else {
        BLOCK_SIZE as nat
    };
    law_gain_is_last(a.chain, b.chain, g, l, r, k);
    assert forall|i: int| 0 <= i < n && i < BLOCK_SIZE implies alike(
        #[trigger] b_after.out_l[i],
        a_after.out_l[i] * g,
    ) by {
        law_gain_is_last(a.chain, b.chain, g, l, r, i as nat);
        assert(a_after.out_l[i] == frame(a.chain, l, r, i).0);
    }
    assert forall|i: int| 0 <= i < n && i < BLOCK_SIZE implies alike(
        #[trigger] b_after.out_r[i],
        a_after.out_r[i] * g,
    ) by {
        law_gain_is_last(a.chain, b.chain, g, l, r, i as nat);
        assert(a_after.out_r[i] == frame(a.chain, l, r, i).1);
    }
}

/// Whether two chains have the same width, equalizer and crossover sections,
/// with the same past.
pub open spec fn same_filters(a: Chain, b: Chain) -> bool {
    &&& a.width == b.width
    &&& a.low_eq == b.low_eq
    &&& a.mid_eq == b.mid_eq
    &&& a.high_eq == b.high_eq
    &&& a.low == b.low
    &&& a.mid == b.mid
    &&& a.high == b.high
}

/// The filters stay warm: how much of the crossover is heard, its band gains
/// and the output gain have no effect on what the filters go through.
pub proof fn law_filters_stay_warm(a: Chain, b: Chain, l: Seq<Single>, r: Seq<Single>, n: nat)
    requires
        same_filters(a, b),
    ensures
        same_filters(run(a, l, r, n), run(b, l, r, n)),
    decreases n,
{
    reveal(Chain::advanced);
    if n > 0 {
        law_filters_stay_warm(a, b, l, r, (n - 1) as nat);
    }
}

/// A write to the crossover's switch or gains, or to the output gain, leaves
/// the filters as they are.
pub proof fn law_gains_leave_filters(c: Chain, change: Change)
    requires
        change is Wet || change is LowGain || change is MidGain || change is HighGain
            || change is OutGain || change is Ignore,
    ensures
        same_filters(c.changed(change), c),
{
}

/// Whether two sections have the same past.
pub open spec fn same_past(a: Biquad, b: Biquad) -> bool {
    a.left == b.left && a.right == b.right
}

/// No parameter write touches the past of a section or jumps the present value
/// of a smoother.
pub proof fn law_changes_keep_the_past(c: Chain, change: Change)
    ensures
        same_past(c.changed(change).low_eq, c.low_eq),
        same_past(c.changed(change).mid_eq, c.mid_eq),
        same_past(c.changed(change).high_eq, c.high_eq),
        c.changed(change).low == c.low,
        c.changed(change).mid == c.mid,
        c.changed(change).high == c.high,
        c.changed(change).width.current == c.width.current,
        c.changed(change).out_gain_lin.current == c.out_gain_lin.current,
        c.changed(change).mb_wet.current == c.mb_wet.current,
        c.changed(change).mb_low_gain.current == c.mb_low_gain.current,
        c.changed(change).mb_mid_gain.current == c.mb_mid_gain.current,
        c.changed(change).mb_high_gain.current == c.mb_high_gain.current,
{
}

/// Processing `n` frames and then `m` more is processing `n + m`, and the
/// frames that come out second are those that follow the first `n`.
pub proof fn law_blocks_join(c: Chain, l: Seq<Single>, r: Seq<Single>, n: nat, m: nat)
    requires
        n + m <= l.len(),
        n + m <= r.len(),
    ensures
        run(run(c, l, r, n), l.skip(n as int), r.skip(n as int), m) == run(c, l, r, n + m),
        n + m < l.len() && n + m < r.len() ==> frame(
            run(c, l, r, n),
            l.skip(n as int),
            r.skip(n as int),
            m as int,
        ) == frame(c, l, r, (n + m) as int),
    decreases m,
{
    if m > 0 {
        law_blocks_join(c, l, r, n, (m - 1) as nat);
    }
}

/// What frames come to depends on the frames before them alone.
pub proof fn law_frames_depend_on_the_past(
    c: Chain,
    l1: Seq<Single>,
    r1: Seq<Single>,
    l2: Seq<Single>,
    r2: Seq<Single>,
    n: nat,
)
    requires
        forall|i: int| 0 <= i < n ==> l1[i] == l2[i] && r1[i] == r2[i],
    ensures
        run(c, l1, r1, n) == run(c, l2, r2, n),
        l1[n as int] == l2[n as int] && r1[n as int] == r2[n as int] ==> frame(c, l1, r1, n as int)
            == frame(c, l2, r2, n as int),
    decreases n,
{
    if n > 0 {
        law_frames_depend_on_the_past(c, l1, r1, l2, r2, (n - 1) as nat);
        assert(l1[n - 1] == l2[n - 1] && r1[n - 1] == r2[n - 1]);
    }
}

/// Frames that continue others, from the chain that these left behind.
proof fn lemma_frames_split(
    c: Chain,
    l: Seq<Single>,
    r: Seq<Single>,
    l2: Seq<Single>,
    r2: Seq<Single>,
    k: nat,
    m: nat,
)
    requires
        k + m <= l.len(),
        k + m <= r.len(),
        forall|j: int| 0 <= j < m ==> #[trigger] l2[j] == l[k + j] && r2[j] == r[k + j],
    ensures
        run(run(c, l, r, k), l2, r2, m) == run(c, l, r, k + m),
        ({
            let i = (k + m) as int;
            i < l.len() && i < r.len() && l2[m as int] == l[i] && r2[m as int] == r[i] ==> frame(
                run(c, l, r, k),
                l2,
                r2,
                m as int,
            ) == frame(c, l, r, i)
        }),
{
    let (l3, r3) = (l.skip(k as int), r.skip(k as int));
    assert forall|j: int| 0 <= j < m implies l2[j] == l3[j] && r2[j] == r3[j] by {
        assert(l2[j] == l[k + j]);
    }
    law_frames_depend_on_the_past(run(c, l, r, k), l2, r2, l3, r3, m);
    law_blocks_join(c, l, r, k, m);
}

/// Splitting a block is inaudible. One engine processes `n` frames at once. An
/// equal one processes the first `k`, gets the others, and processes those:
/// the same samples come out, and both end up with the same chain.
pub proof fn law_blocks_split(
    whole: Engine,
    whole_after: Engine,
    first_after: Engine,
    second: Engine,
    second_after: Engine,
    k: nat,
    n: nat,
)
    requires
        k <= n <= BLOCK_SIZE,
        processed(whole, n, whole_after),
        processed(whole, k, first_after),
        second.chain == first_after.chain,
        forall|j: int| 0 <= j < n - k ==> #[trigger] second.in_l[j] == whole.in_l[k + j],
        forall|j: int| 0 <= j < n - k ==> #[trigger] second.in_r[j] == whole.in_r[k + j],
        processed(second, (n - k) as nat, second_after),
    ensures
        second_after.chain == whole_after.chain,
        forall|i: int| 0 <= i < k ==> #[trigger] first_after.out_l[i] == whole_after.out_l[i],
        forall|i: int| 0 <= i < k ==> #[trigger] first_after.out_r[i] == whole_after.out_r[i],
        forall|j: int|
            0 <= j < n - k ==> #[trigger] second_after.out_l[j] == whole_after.out_l[k + j],
        forall|j: int|
            0 <= j < n - k ==> #[trigger] second_after.out_r[j] == whole_after.out_r[k + j],
{
    let c = whole.chain;
    let (l, r) = (whole.in_l@, whole.in_r@);
    let m = (n - k) as nat;
    let (l2, r2) = (second.in_l@, second.in_r@);
    assert forall|j: int| 0 <= j < m implies #[trigger] l2[j] == l[k + j] && r2[j] == r[k + j] by {
        assert(second.in_l[j] == whole.in_l[k + j]);
        assert(second.in_r[j] == whole.in_r[k + j]);
    }
    lemma_frames_split(c, l, r, l2, r2, k, m);
    assert forall|j: int| 0 <= j < m implies #[trigger] second_after.out_l[j]
        == whole_after.out_l[k + j] by {
        lemma_frames_split(c, l, r, l2, r2, k, j as nat);
    }
    assert forall|j: int| 0 <= j < m implies #[trigger] second_after.out_r[j]
        == whole_after.out_r[k + j] by {
        lemma_frames_split(c, l, r, l2, r2, k, j as nat);
    }
}

/// The channels of a section are independent: a channel's output and history
/// depend on its own past and input alone.
pub proof fn law_channels_independent(
    a: Biquad,
    b: Biquad,
    la: Single,
    ra: Single,
    lb: Single,
    rb: Single,
)
    requires
        a.coefficients == b.coefficients,
    ensures
        a.left == b.left && la == lb ==> a.output(la, ra).0 == b.output(lb, rb).0 && a.advanced(
            la,
            ra,
        ).left == b.advanced(lb, rb).left,
        a.right == b.right && ra == rb ==> a.output(la, ra).1 == b.output(lb, rb).1 && a.advanced(
            la,
            ra,
        ).right == b.advanced(lb, rb).right,
{
}

/// Whether a smoother is on its way from somewhere between zero and one to
/// one of the two, by gradual steps.
pub open spec fn is_switch(s: Smoother) -> bool {
    let zero = Single { bits: ZERO };
    let one = Single { bits: ONE };
    &&& s.target == zero || s.target == one
    &&& between(zero, s.current, one)
    &&& s.gradual()
}

/// However the crossover is switched, its share of the mix stays between
/// nothing and everything.
pub proof fn law_wet_stays_in_range(s: Smoother, on: bool)
    requires
        is_switch(s),
    ensures
        is_switch(s.advanced()),
        is_switch(
            Smoother {
                target: if on {
                    Single { bits: ONE }
                } else {
                    Single { bits: ZERO }
                },
                ..s
            },
        ),
{
    let c = s.current.value();
    let t = s.target.value();
    lemma_small_powers();
    lemma_zero(0);
    if !s.current.is_finite() {
        lemma_increasing((ONE + 1) as nat, INFINITY as nat);
        lemma_increasing(ONE as nat, (ONE + 1) as nat);
    }
    lemma_opposite(s.current);
    lemma_sum_value(s.target, s.current.opposite());
    lemma_increasing(ONE as nat, (INFINITY - 1) as nat);
    lemma_finite_range(t - c);
    law_smoother_never_overshoots(s);
}

/// A smoother that the host has computed a finite share for is at rest.
pub proof fn lemma_tuned_rests<M: Elementary>(
    s: Smoother,
    math: &M,
    initial: Single,
    fs: Single,
    time_const_s: Single,
)
    requires
        s.tuned(math, initial, fs, time_const_s),
        forall|y: Single| #[trigger]
            exp_gives(math, Smoother::exponent(fs, time_const_s), y) ==> y.is_finite(),
    ensures
        s.resting(initial),
{
    let decay = choose|decay: Single| #[trigger]
        exp_gives(math, Smoother::exponent(fs, time_const_s), decay) && s == Smoother::at_rest(
            initial,
            decay,
        );
    let one = Single { bits: ONE };
    lemma_opposite(decay);
    lemma_small_powers();
    lemma_finite_bounded(decay);
    lemma_finite_range(one.value() - decay.value());
    lemma_sum_value(one, decay.opposite());
}

/// Whether the settings are neutral: width one, crossover off, output gain
/// one, and none of them moving.
pub open spec fn is_neutral(c: Chain) -> bool {
    &&& c.width.resting(Single { bits: ONE })
    &&& c.mb_wet.resting(Single { bits: ZERO })
    &&& c.out_gain_lin.resting(Single { bits: ONE })
}

/// A new chain has neutral settings, if the host's exponentials are finite.
pub proof fn law_fresh_is_neutral<M: Elementary>(c: Chain, math: &M, fs: Single)
    requires
        is_fresh_chain(c, math, fs),
        forall|y: Single| #[trigger]
            exp_gives(math, Smoother::exponent(fs, Single { bits: T_FAST }), y) ==> y.is_finite(),
        forall|y: Single| #[trigger]
            exp_gives(math, Smoother::exponent(fs, Single { bits: T_SLOW }), y) ==> y.is_finite(),
    ensures
        is_neutral(c),
{
    let fast = Single { bits: T_FAST };
    let slow = Single { bits: T_SLOW };
    lemma_tuned_rests(c.width, math, Single { bits: ONE }, fs, fast);
    lemma_tuned_rests(c.out_gain_lin, math, Single { bits: ONE }, fs, fast);
    lemma_tuned_rests(c.mb_wet, math, Single { bits: ZERO }, fs, slow);
}

/// Neutral settings stay neutral, and every sample then comes out as the
/// equalizer left it, to the bit, having passed the width stage at width one.
pub proof fn law_neutral_lasts(c: Chain, l: Seq<Single>, r: Seq<Single>, n: nat)
    requires
        is_neutral(c),
    ensures
        is_neutral(run(c, l, r, n)),
        ({
            let d = run(c, l, r, n);
            let (il, ir) = (l[n as int], r[n as int]);
            &&& d.widened(il, ir) == widen(il, ir, Single { bits: ONE })
            &&& frame(c, l, r, n as int) == d.equalized(il, ir)
        }),
    decreases n,
{
    reveal(Chain::advanced);
    let one = Single { bits: ONE };
    if n > 0 {
        law_neutral_lasts(c, l, r, (n - 1) as nat);
        let p = run(c, l, r, (n - 1) as nat);
        law_smoother_rests(p.width, one);
        law_smoother_rests(p.mb_wet, Single { bits: ZERO });
        law_smoother_rests(p.out_gain_lin, one);
    }
    let d = run(c, l, r, n);
    law_smoother_rests(d.width, one);
    law_bypass_is_transparent(d, l[n as int], r[n as int]);
    law_unity_gain(d, l[n as int], r[n as int]);
}

} // verus!
