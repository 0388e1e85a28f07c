//! What processing does over a block: frame by frame in order, while the controls
//! go to their targets.
use vstd::arithmetic::power2::pow2;
use vstd::prelude::*;

use crate::arithmetic::abs;
use crate::chain::Chain;
use crate::elementary::Elementary;
use crate::engine::{processed, run, written, Engine, BLOCK_SIZE};
use crate::motion::{
    can_move, distance, extent, is_lost, law_smoother_approaches, law_smoother_vanishes, moved,
};
use crate::single::Single;
use crate::smoother::Smoother;
use crate::writes::law_write_switches;

verus! {

/// Processing no frames changes nothing.
pub proof fn law_no_frames(before: Engine, after: Engine)
    requires
        processed(before, 0, after),
    ensures
        after.chain == before.chain,
        after.sample_rate == before.sample_rate,
        after.in_l@ =~= before.in_l@,
        after.in_r@ =~= before.in_r@,
        after.out_l@ =~= before.out_l@,
        after.out_r@ =~= before.out_r@,
{
}

/// Processing one more frame, within a block, passes that frame of the inputs
/// through the chain as the frames before it left it, puts what comes out in its
/// place, and changes no other output, no input and not the sample rate.
pub proof fn law_one_more_frame(before: Engine, n: nat, a: Engine, b: Engine)
    requires
        n < BLOCK_SIZE,
        processed(before, n, a),
        processed(before, n + 1, b),
    ensures
        ({
            let (l, r) = (before.in_l[n as int], before.in_r[n as int]);
            let (yl, yr) = a.chain.output(l, r);
            &&& b.chain == a.chain.advanced(l, r)
            &&& b.out_l@ =~= a.out_l@.update(n as int, yl)
            &&& b.out_r@ =~= a.out_r@.update(n as int, yr)
            &&& b.in_l == a.in_l
            &&& b.in_r == a.in_r
            &&& b.sample_rate == a.sample_rate
        }),
{
    let (c, l, r) = (before.chain, before.in_l@, before.in_r@);
    assert(a.chain == run(c, l, r, n));
    assert(b.chain == run(c, l, r, n + 1));
}

/// Asking for more frames than a block holds processes the block.
pub proof fn law_at_most_a_block(before: Engine, n: nat, a: Engine, b: Engine)
    requires
        n >= BLOCK_SIZE,
        processed(before, n, a),
        processed(before, BLOCK_SIZE as nat, b),
    ensures
        a.chain == b.chain,
        a.sample_rate == b.sample_rate,
        a.in_l == b.in_l,
        a.in_r == b.in_r,
        a.out_l@ =~= b.out_l@,
        a.out_r@ =~= b.out_r@,
{
}

/// Over any frames, every control moves by itself, once in every frame, whatever
/// the signal.
pub proof fn law_controls_move(c: Chain, l: Seq<Single>, r: Seq<Single>, n: nat)
    ensures
        ({
            let d = run(c, l, r, n);
            &&& d.width == moved(c.width, n)
            &&& d.out_gain_lin == moved(c.out_gain_lin, n)
            &&& d.mb_wet == moved(c.mb_wet, n)
            &&& d.mb_low_gain == moved(c.mb_low_gain, n)
            &&& d.mb_mid_gain == moved(c.mb_mid_gain, n)
            &&& d.mb_high_gain == moved(c.mb_high_gain, n)
        }),
    decreases n,
{
    reveal(Chain::advanced);
    if n > 0 {
        law_controls_move(c, l, r, (n - 1) as nat);
    }
}

/// Whether a control has gone from one state to another in `n` frames: its target
/// and its share are kept, and the distance is divided by at least one and half
/// the share times `n`, as far as the steps are not lost in roundings.
pub open spec fn has_approached(s: Smoother, n: nat, e: Smoother) -> bool {
    let one = pow2(149);
    let share = s.coef.value();
    &&& can_move(e)
    &&& e.target == s.target
    &&& e.coef == s.coef
    &&& distance(e) <= distance(s)
    &&& is_lost(share, distance(e), extent(s)) || distance(e) * (2 * one + n * share) <= 2 * one
        * distance(s)
}

/// Over any frames, every control that can move approaches its target, whatever
/// the target and the signal.
pub proof fn law_controls_approach(c: Chain, l: Seq<Single>, r: Seq<Single>, n: nat)
    ensures
        ({
            let d = run(c, l, r, n);
            &&& can_move(c.width) ==> has_approached(c.width, n, d.width)
            &&& can_move(c.out_gain_lin) ==> has_approached(c.out_gain_lin, n, d.out_gain_lin)
            &&& can_move(c.mb_wet) ==> has_approached(c.mb_wet, n, d.mb_wet)
            &&& can_move(c.mb_low_gain) ==> has_approached(c.mb_low_gain, n, d.mb_low_gain)
            &&& can_move(c.mb_mid_gain) ==> has_approached(c.mb_mid_gain, n, d.mb_mid_gain)
            &&& can_move(c.mb_high_gain) ==> has_approached(c.mb_high_gain, n, d.mb_high_gain)
        }),
{
    law_controls_move(c, l, r, n);
    if can_move(c.width) {
        law_smoother_approaches(c.width, n);
    }
    if can_move(c.out_gain_lin) {
        law_smoother_approaches(c.out_gain_lin, n);
    }
    if can_move(c.mb_wet) {
        law_smoother_approaches(c.mb_wet, n);
    }
    if can_move(c.mb_low_gain) {
        law_smoother_approaches(c.mb_low_gain, n);
    }
    if can_move(c.mb_mid_gain) {
        law_smoother_approaches(c.mb_mid_gain, n);
    }
    if can_move(c.mb_high_gain) {
        law_smoother_approaches(c.mb_high_gain, n);
    }
}

/// A crossover that is switched off fades out: with `n` frames of which each
/// covers at least one part in `n / 2` of the distance, its share is divided by
/// two at least once in every `n` frames, until it is below 2 to the power -134.
pub proof fn law_switched_off_fades<M: Elementary>(
    before: Engine,
    math: &M,
    v: Single,
    after: Engine,
    l: Seq<Single>,
    r: Seq<Single>,
    n: nat,
    m: nat,
)
    requires
        written(before, math, 5, v, after),
        v.is_nan() || 2 * v.value() < pow2(149),
        can_move(after.chain.mb_wet),
        after.chain.mb_wet.coef.value() * 0x4000 >= pow2(149),
        n * after.chain.mb_wet.coef.value() >= 2 * pow2(149),
    ensures
        ({
            let share = run(after.chain, l, r, n * m).mb_wet.current;
            &&& share.is_finite()
            &&& abs(share.value()) * pow2(m) <= abs(before.chain.mb_wet.current.value()) || abs(
                share.value(),
            ) <= 0x8000
        }),
{
    law_write_switches(before, math, v, after);
    let s = after.chain.mb_wet;
    crate::grid::lemma_zero(s.target.pattern());
    law_smoother_vanishes(s, n, m);
    law_controls_move(after.chain, l, r, n * m);
}

} // verus!
