//! The two channels are treated alike: exchanging them exchanges the outputs.
use vstd::prelude::*;

use crate::arithmetic::{
    alike, law_alike, law_commutative, law_opposite_factor, law_times_zero, lemma_opposite,
    lemma_taken_apart,
};
use crate::biquad::{Biquad, Coefficients, History};
use crate::chain::{blend, mix, widen, Band, Chain, LowBand};
use crate::constants::{HALF, ONE};
use crate::engine::{frame, processed, run, Engine, BLOCK_SIZE};
use crate::grid::lemma_zero;
use crate::single::Single;

verus! {

/// Whether a sample is another with its channels exchanged, but for the signs
/// of zeros.
pub open spec fn exchanged(a: (Single, Single), b: (Single, Single)) -> bool {
    alike(a.0, b.1) && alike(a.1, b.0)
}

/// Whether two histories are the same, but for the signs of zeros.
pub open spec fn alike_histories(a: History, b: History) -> bool {
    alike(a.x1, b.x1) && alike(a.x2, b.x2) && alike(a.y1, b.y1) && alike(a.y2, b.y2)
}

/// Whether a section is another with its channels exchanged.
pub open spec fn exchanged_sections(a: Biquad, b: Biquad) -> bool {
    &&& a.coefficients == b.coefficients
    &&& alike_histories(a.left, b.right)
    &&& alike_histories(a.right, b.left)
}

/// Whether one low band is the other with its channels exchanged.
pub open spec fn exchanged_lows(a: LowBand, b: LowBand) -> bool {
    &&& exchanged_sections(a.first, b.first)
    &&& exchanged_sections(a.second, b.second)
    &&& exchanged_sections(a.third, b.third)
}

/// Whether a band is another with its channels exchanged.
pub open spec fn exchanged_bands(a: Band, b: Band) -> bool {
    &&& exchanged_sections(a.first, b.first)
    &&& exchanged_sections(a.second, b.second)
    &&& exchanged_sections(a.third, b.third)
    &&& exchanged_sections(a.fourth, b.fourth)
}

/// Whether a chain is another with the channels of its sections exchanged.
pub open spec fn exchanged_chains(a: Chain, b: Chain) -> bool {
    &&& a.width == b.width
    &&& a.out_gain_lin == b.out_gain_lin
    &&& a.mb_wet == b.mb_wet
    &&& a.mb_low_gain == b.mb_low_gain
    &&& a.mb_mid_gain == b.mb_mid_gain
    &&& a.mb_high_gain == b.mb_high_gain
    &&& exchanged_sections(a.low_eq, b.low_eq)
    &&& exchanged_sections(a.mid_eq, b.mid_eq)
    &&& exchanged_sections(a.high_eq, b.high_eq)
    &&& exchanged_lows(a.low, b.low)
    &&& exchanged_bands(a.mid, b.mid)
    &&& exchanged_bands(a.high, b.high)
}

/// One channel of a section.
proof fn lemma_channel(a: History, b: History, c: Coefficients, x: Single, y: Single)
    requires
        alike_histories(a, b),
        alike(x, y),
    ensures
        alike(a.output(c, x), b.output(c, y)),
        alike_histories(a.advanced(c, x), b.advanced(c, y)),
{
    law_alike(c.b0, c.b0, x, y);
    law_alike(c.b1, c.b1, a.x1, b.x1);
    law_alike(c.b2, c.b2, a.x2, b.x2);
    law_alike(c.a1, c.a1, a.y1, b.y1);
    law_alike(c.a2, c.a2, a.y2, b.y2);
    law_alike(c.b0 * x, c.b0 * y, c.b1 * a.x1, c.b1 * b.x1);
    law_alike(
        c.b0 * x + c.b1 * a.x1,
        c.b0 * y + c.b1 * b.x1,
        c.b2 * a.x2,
        c.b2 * b.x2,
    );
    law_alike(
        c.b0 * x + c.b1 * a.x1 + c.b2 * a.x2,
        c.b0 * y + c.b1 * b.x1 + c.b2 * b.x2,
        c.a1 * a.y1,
        c.a1 * b.y1,
    );
    law_alike(
        c.b0 * x + c.b1 * a.x1 + c.b2 * a.x2 - c.a1 * a.y1,
        c.b0 * y + c.b1 * b.x1 + c.b2 * b.x2 - c.a1 * b.y1,
        c.a2 * a.y2,
        c.a2 * b.y2,
    );
}

/// A section treats its channels alike.
pub proof fn law_section_symmetric(a: Biquad, b: Biquad, u: (Single, Single), v: (Single, Single))
    requires
        exchanged_sections(a, b),
        exchanged(u, v),
    ensures
        exchanged(a.output(u.0, u.1), b.output(v.0, v.1)),
        exchanged_sections(a.advanced(u.0, u.1), b.advanced(v.0, v.1)),
{
    lemma_channel(a.left, b.right, a.coefficients, u.0, v.1);
    lemma_channel(a.right, b.left, a.coefficients, u.1, v.0);
}

/// The low band treats its channels alike.
proof fn lemma_low_symmetric(a: LowBand, b: LowBand, u: (Single, Single), v: (Single, Single))
    requires
        exchanged_lows(a, b),
        exchanged(u, v),
    ensures
        exchanged(a.output(u.0, u.1), b.output(v.0, v.1)),
        exchanged_lows(a.advanced(u.0, u.1), b.advanced(v.0, v.1)),
{
    let u1 = a.first.output(u.0, u.1);
    let v1 = b.first.output(v.0, v.1);
    let u2 = a.second.output(u1.0, u1.1);
    let v2 = b.second.output(v1.0, v1.1);
    law_section_symmetric(a.first, b.first, u, v);
    law_section_symmetric(a.second, b.second, u1, v1);
    law_section_symmetric(a.third, b.third, u2, v2);
}

/// A band treats its channels alike.
proof fn lemma_band_symmetric(a: Band, b: Band, u: (Single, Single), v: (Single, Single))
    requires
        exchanged_bands(a, b),
        exchanged(u, v),
    ensures
        exchanged(a.output(u.0, u.1), b.output(v.0, v.1)),
        exchanged_bands(a.advanced(u.0, u.1), b.advanced(v.0, v.1)),
{
    let u1 = a.first.output(u.0, u.1);
    let v1 = b.first.output(v.0, v.1);
    let u2 = a.second.output(u1.0, u1.1);
    let v2 = b.second.output(v1.0, v1.1);
    let u3 = a.third.output(u2.0, u2.1);
    let v3 = b.third.output(v2.0, v2.1);
    law_section_symmetric(a.first, b.first, u, v);
    law_section_symmetric(a.second, b.second, u1, v1);
    law_section_symmetric(a.third, b.third, u2, v2);
    law_section_symmetric(a.fourth, b.fourth, u3, v3);
}

/// A difference is the opposite of the difference the other way round, unless
/// it is zero or not a number.
proof fn lemma_difference(x: Single, y: Single)
    ensures
        (x - y).is_nan() <==> (y - x).is_nan(),
        (x - y).is_nan() || y - x == (x - y).opposite() || (x - y).is_zero() && (y - x).is_zero(),
{
    lemma_opposite(x);
    lemma_opposite(y);
    lemma_zero(0);
    reveal(Single::spec_add);
    let v = x.value() - y.value();
    if x.is_finite() && y.is_finite() {
        crate::arithmetic::lemma_rounded_parts(v);
        crate::arithmetic::lemma_rounded_parts(-v);
    }
}

/// Decoding a side signal and its opposite gives the channels exchanged.
proof fn lemma_decode(m: Single, s: Single, t: Single)
    requires
        s.is_nan() && t.is_nan() || t == s.opposite() || s.is_zero() && t.is_zero(),
    ensures
        alike(m + s, m - t),
        alike(m - s, m + t),
{
    lemma_opposite(s);
    lemma_opposite(t);
    lemma_taken_apart(s);
    if s.is_nan() {
        reveal(Single::spec_add);
    } else if t == s.opposite() {
        lemma_opposite(s.opposite());
        lemma_taken_apart(s.opposite());
    } else {
        law_alike(m, m, s, t.opposite());
        law_alike(m, m, s.opposite(), t);
    }
}

/// The side signal of exchanged channels is the opposite.
proof fn lemma_side(x: Single, y: Single, g: Single)
    requires
        x.is_nan() && y.is_nan() || y == x.opposite() || x.is_zero() && y.is_zero(),
    ensures
        ({
            let p = g * x;
            let q = g * y;
            p.is_nan() && q.is_nan() || q == p.opposite() || p.is_zero() && q.is_zero()
        }),
{
    law_opposite_factor(g, x);
    if x.is_nan() {
        reveal(Single::spec_mul);
    } else if y != x.opposite() {
        if g.is_finite() {
            law_times_zero(g, x);
            law_times_zero(g, y);
        } else {
            reveal(Single::spec_mul);
        }
    }
}

/// The width stage treats its channels alike.
pub proof fn law_width_symmetric(l: Single, r: Single, width: Single)
    ensures
        exchanged(widen(l, r, width), widen(r, l, width)),
{
    let half = Single { bits: HALF };
    law_commutative(l, r);
    lemma_difference(l, r);
    lemma_side(l - r, r - l, half);
    law_commutative(half * (l - r), width);
    law_commutative(half * (r - l), width);
    lemma_side(half * (l - r), half * (r - l), width);
    lemma_decode(half * (l + r), half * (l - r) * width, half * (r - l) * width);
}

/// The width stage on like inputs.
proof fn lemma_width_alike(l: Single, r: Single, l2: Single, r2: Single, width: Single)
    requires
        alike(l, l2),
        alike(r, r2),
    ensures
        alike(widen(l, r, width).0, widen(l2, r2, width).0),
        alike(widen(l, r, width).1, widen(l2, r2, width).1),
{
    let half = Single { bits: HALF };
    law_alike(l, l2, r, r2);
    law_alike(half, half, l + r, l2 + r2);
    law_alike(half, half, l - r, l2 - r2);
    law_alike(half * (l - r), half * (l2 - r2), width, width);
    law_alike(
        half * (l + r),
        half * (l2 + r2),
        half * (l - r) * width,
        half * (l2 - r2) * width,
    );
}

/// The mix and the blend of one channel on like inputs.
proof fn lemma_mix_alike(
    x: (Single, Single, Single),
    y: (Single, Single, Single),
    g: (Single, Single, Single),
)
    requires
        alike(x.0, y.0),
        alike(x.1, y.1),
        alike(x.2, y.2),
    ensures
        alike(mix(x.0, g.0, x.1, g.1, x.2, g.2), mix(y.0, g.0, y.1, g.1, y.2, g.2)),
{
    law_alike(x.0, y.0, g.0, g.0);
    law_alike(x.1, y.1, g.1, g.1);
    law_alike(x.2, y.2, g.2, g.2);
    law_alike(x.0 * g.0, y.0 * g.0, x.1 * g.1, y.1 * g.1);
    law_alike(x.0 * g.0 + x.1 * g.1, y.0 * g.0 + y.1 * g.1, x.2 * g.2, y.2 * g.2);
}

proof fn lemma_blend_alike(x: Single, y: Single, mx: Single, my: Single, wet: Single, gain: Single)
    requires
        alike(x, y),
        alike(mx, my),
    ensures
        alike(blend(x, mx, wet) * gain, blend(y, my, wet) * gain),
{
    let dry = Single { bits: ONE } - wet;
    law_alike(x, y, dry, dry);
    law_alike(mx, my, wet, wet);
    law_alike(x * dry, y * dry, mx * wet, my * wet);
    law_alike(blend(x, mx, wet), blend(y, my, wet), gain, gain);
}

/// The chain treats its channels alike: on a sample with exchanged channels, a
/// chain with exchanged channels puts out the sample exchanged, and stays the
/// other one exchanged.
pub proof fn law_chain_symmetric(a: Chain, b: Chain, u: (Single, Single), v: (Single, Single))
    requires
        exchanged_chains(a, b),
        exchanged(u, v),
    ensures
        exchanged(a.output(u.0, u.1), b.output(v.0, v.1)),
        exchanged_chains(a.advanced(u.0, u.1), b.advanced(v.0, v.1)),
{
    reveal(Chain::blended);
    reveal(Chain::output);
    reveal(Chain::advanced);
    let w = a.width.next();
    law_width_symmetric(u.0, u.1, w);
    lemma_width_alike(u.1, u.0, v.0, v.1, w);
    let u0 = a.widened(u.0, u.1);
    let v0 = b.widened(v.0, v.1);
    assert(exchanged(u0, v0));
    let u1 = a.low_equalized(u.0, u.1);
    let v1 = b.low_equalized(v.0, v.1);
    let u2 = a.mid_equalized(u.0, u.1);
    let v2 = b.mid_equalized(v.0, v.1);
    let u3 = a.equalized(u.0, u.1);
    let v3 = b.equalized(v.0, v.1);
    law_section_symmetric(a.low_eq, b.low_eq, u0, v0);
    law_section_symmetric(a.mid_eq, b.mid_eq, u1, v1);
    law_section_symmetric(a.high_eq, b.high_eq, u2, v2);
    lemma_low_symmetric(a.low, b.low, u3, v3);
    lemma_band_symmetric(a.mid, b.mid, u3, v3);
    lemma_band_symmetric(a.high, b.high, u3, v3);
    let (ul, um, uh) = (
        a.low.output(u3.0, u3.1),
        a.mid.output(u3.0, u3.1),
        a.high.output(u3.0, u3.1),
    );
    let (vl, vm, vh) = (
        b.low.output(v3.0, v3.1),
        b.mid.output(v3.0, v3.1),
        b.high.output(v3.0, v3.1),
    );
    let g = (a.mb_low_gain.next(), a.mb_mid_gain.next(), a.mb_high_gain.next());
    lemma_mix_alike((ul.0, um.0, uh.0), (vl.1, vm.1, vh.1), g);
    lemma_mix_alike((ul.1, um.1, uh.1), (vl.0, vm.0, vh.0), g);
    let mu = a.multiband(u.0, u.1);
    let mv = b.multiband(v.0, v.1);
    let wet = a.mb_wet.next();
    let gain = a.out_gain_lin.next();
    lemma_blend_alike(u3.0, v3.1, mu.0, mv.1, wet, gain);
    lemma_blend_alike(u3.1, v3.0, mu.1, mv.0, wet, gain);
}

/// The same over a run of frames.
pub proof fn law_run_symmetric(
    a: Chain,
    b: Chain,
    la: Seq<Single>,
    ra: Seq<Single>,
    lb: Seq<Single>,
    rb: Seq<Single>,
    n: nat,
)
    requires
        exchanged_chains(a, b),
        forall|i: int| 0 <= i <= n ==> alike(#[trigger] la[i], rb[i]),
        forall|i: int| 0 <= i <= n ==> alike(#[trigger] ra[i], lb[i]),
    ensures
        exchanged_chains(run(a, la, ra, n), run(b, lb, rb, n)),
        exchanged(frame(a, la, ra, n as int), frame(b, lb, rb, n as int)),
    decreases n,
{
    if n > 0 {
        let p = (n - 1) as nat;
        law_run_symmetric(a, b, la, ra, lb, rb, p);
        law_chain_symmetric(
            run(a, la, ra, p),
            run(b, lb, rb, p),
            (la[n - 1], ra[n - 1]),
            (lb[n - 1], rb[n - 1]),
        );
    }
    law_chain_symmetric(
        run(a, la, ra, n),
        run(b, lb, rb, n),
        (la[n as int], ra[n as int]),
        (lb[n as int], rb[n as int]),
    );
}

/// The same of engines: with inputs and histories exchanged, the outputs of a
/// block come out exchanged, but for the signs of zeros.
pub proof fn law_engine_symmetric(
    a: Engine,
    a_after: Engine,
    b: Engine,
    b_after: Engine,
    n: nat,
)
    requires
        exchanged_chains(a.chain, b.chain),
        forall|i: int| 0 <= i < BLOCK_SIZE ==> #[trigger] b.in_l[i] == a.in_r[i],
        forall|i: int| 0 <= i < BLOCK_SIZE ==> #[trigger] b.in_r[i] == a.in_l[i],
        processed(a, n, a_after),
        processed(b, n, b_after),
    ensures
        forall|i: int|
            0 <= i < n && i < BLOCK_SIZE ==> alike(#[trigger] b_after.out_l[i], a_after.out_r[i]),
        forall|i: int|
            0 <= i < n && i < BLOCK_SIZE ==> alike(#[trigger] b_after.out_r[i], a_after.out_l[i]),
{
    let (la, ra, lb, rb) = (a.in_l@, a.in_r@, b.in_l@, b.in_r@);
    assert forall|i: int| 0 <= i < n && i < BLOCK_SIZE implies exchanged(
        #[trigger] frame(a.chain, la, ra, i),
        frame(b.chain, lb, rb, i),
    ) by {
        assert forall|j: int| 0 <= j <= i implies alike(#[trigger] la[j], rb[j]) by {
            assert(b.in_r[j] == a.in_l[j]);
        }
        assert forall|j: int| 0 <= j <= i implies alike(#[trigger] ra[j], lb[j]) by {
            assert(b.in_l[j] == a.in_r[j]);
        }
        law_run_symmetric(a.chain, b.chain, la, ra, lb, rb, i as nat);
    }
    assert forall|i: int| 0 <= i < n && i < BLOCK_SIZE implies alike(
        #[trigger] b_after.out_l[i],
        a_after.out_r[i],
    ) by {
        assert(exchanged(frame(a.chain, la, ra, i), frame(b.chain, lb, rb, i)));
    }
    assert forall|i: int| 0 <= i < n && i < BLOCK_SIZE implies alike(
        #[trigger] b_after.out_r[i],
        a_after.out_l[i],
    ) by {
        assert(exchanged(frame(a.chain, la, ra, i), frame(b.chain, lb, rb, i)));
    }
}

} // verus!
