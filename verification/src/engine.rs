//! The engine: the signal chain and the buffers that a host fills and reads.
use vstd::prelude::*;

use crate::biquad::{Biquad, Coefficients, FilterKind, History};
use crate::chain::{Band, Chain, Change, LowBand};
use crate::constants::{HALF, ONE, TEN, TWENTY, ZERO};
use crate::elementary::{powf_gives, Elementary};
use crate::single::Single;
use crate::smoother::Smoother;

verus! {

/// Frames per block: the render quantum of an audio worklet.
pub const BLOCK_SIZE: usize = 128;

/// Low/mid crossover frequency, 200 Hz.
pub const F_LOW_MID: u32 = 0x4348_0000;

/// Mid/high crossover frequency, 2000 Hz.
pub const F_MID_HIGH: u32 = 0x44fa_0000;

/// Quality of the crossover's sections, 0.7071068.
pub const Q_LR: u32 = 0x3f35_04f4;

/// Corner of the low shelf, 120 Hz.
pub const F_LOW_SHELF: u32 = 0x42f0_0000;

/// Centre of the mid peak, 1200 Hz.
pub const F_PEAK: u32 = 0x4496_0000;

/// Quality of the mid peak, 0.9.
pub const Q_PEAK: u32 = 0x3f66_6666;

/// Corner of the high shelf, 8000 Hz.
pub const F_HIGH_SHELF: u32 = 0x45fa_0000;

/// Time constant of the width and of the output gain, 20 ms.
pub const T_FAST: u32 = 0x3ca3_d70a;

/// Time constant of the crossover's controls, 50 ms.
pub const T_SLOW: u32 = 0x3d4c_cccd;

/// The full chain with its input and output buffers. A host writes a block to
/// the inputs, has it processed, and reads the outputs.
pub struct Engine {
    pub sample_rate: Single,
    pub in_l: [Single; BLOCK_SIZE],
    pub in_r: [Single; BLOCK_SIZE],
    pub out_l: [Single; BLOCK_SIZE],
    pub out_r: [Single; BLOCK_SIZE],
    pub chain: Chain,
}

/// Whether a section is as new: the coefficients of the given filter at 0 dB
/// and no past.
pub open spec fn is_fresh<M: Elementary>(
    b: Biquad,
    math: &M,
    kind: FilterKind,
    f0: u32,
    q: u32,
    fs: Single,
) -> bool {
    &&& b.coefficients.tuned(
        math,
        kind,
        Single { bits: f0 },
        Single { bits: q },
        Single { bits: ZERO },
        fs,
    )
    &&& b.left == History::silent()
    &&& b.right == History::silent()
}

/// The sections of the low band, by shape and frequency: its slope, and an
/// all-pass at the crossover that it does not see.
pub open spec fn low_plan() -> ((FilterKind, u32), (FilterKind, u32), (FilterKind, u32)) {
    (
        (FilterKind::LowPass, F_LOW_MID),
        (FilterKind::LowPass, F_LOW_MID),
        (FilterKind::AllPass, F_MID_HIGH),
    )
}

/// The sections of the mid band: above the low/mid crossover and below the
/// mid/high one.
pub open spec fn mid_plan() -> (
    (FilterKind, u32),
    (FilterKind, u32),
    (FilterKind, u32),
    (FilterKind, u32),
) {
    (
        (FilterKind::HighPass, F_LOW_MID),
        (FilterKind::HighPass, F_LOW_MID),
        (FilterKind::LowPass, F_MID_HIGH),
        (FilterKind::LowPass, F_MID_HIGH),
    )
}

/// The sections of the high band: above both crossovers.
pub open spec fn high_plan() -> (
    (FilterKind, u32),
    (FilterKind, u32),
    (FilterKind, u32),
    (FilterKind, u32),
) {
    (
        (FilterKind::HighPass, F_LOW_MID),
        (FilterKind::HighPass, F_LOW_MID),
        (FilterKind::HighPass, F_MID_HIGH),
        (FilterKind::HighPass, F_MID_HIGH),
    )
}

/// Whether a section of the crossover is as new.
pub open spec fn is_fresh_stage<M: Elementary>(
    b: Biquad,
    math: &M,
    stage: (FilterKind, u32),
    fs: Single,
) -> bool {
    is_fresh(b, math, stage.0, stage.1, Q_LR, fs)
}

/// Whether the low band is as new.
#[verifier::opaque]
pub open spec fn is_fresh_low<M: Elementary>(b: LowBand, math: &M, fs: Single) -> bool {
    &&& is_fresh_stage(b.first, math, low_plan().0, fs)
    &&& is_fresh_stage(b.second, math, low_plan().1, fs)
    &&& is_fresh_stage(b.third, math, low_plan().2, fs)
}

/// Whether the mid or the high band is as new, by its plan.
#[verifier::opaque]
pub open spec fn is_fresh_band<M: Elementary>(
    b: Band,
    math: &M,
    plan: ((FilterKind, u32), (FilterKind, u32), (FilterKind, u32), (FilterKind, u32)),
    fs: Single,
) -> bool {
    &&& is_fresh_stage(b.first, math, plan.0, fs)
    &&& is_fresh_stage(b.second, math, plan.1, fs)
    &&& is_fresh_stage(b.third, math, plan.2, fs)
    &&& is_fresh_stage(b.fourth, math, plan.3, fs)
}

/// Whether a chain is as new at this sample rate: width and gains at 1, the
/// crossover switched off, the equalizer flat, and no past.
pub open spec fn is_fresh_chain<M: Elementary>(c: Chain, math: &M, fs: Single) -> bool {
    let zero = Single { bits: ZERO };
    let one = Single { bits: ONE };
    let fast = Single { bits: T_FAST };
    let slow = Single { bits: T_SLOW };
    &&& c.width.tuned(math, one, fs, fast)
    &&& c.out_gain_lin.tuned(math, one, fs, fast)
    &&& c.mb_wet.tuned(math, zero, fs, slow)
    &&& c.mb_low_gain.tuned(math, one, fs, slow)
    &&& c.mb_mid_gain.tuned(math, one, fs, slow)
    &&& c.mb_high_gain.tuned(math, one, fs, slow)
    &&& is_fresh(c.low_eq, math, FilterKind::LowShelf, F_LOW_SHELF, Q_LR, fs)
    &&& is_fresh(c.mid_eq, math, FilterKind::Peaking, F_PEAK, Q_PEAK, fs)
    &&& is_fresh(c.high_eq, math, FilterKind::HighShelf, F_HIGH_SHELF, Q_LR, fs)
    &&& is_fresh_low(c.low, math, fs)
    &&& is_fresh_band(c.mid, math, mid_plan(), fs)
    &&& is_fresh_band(c.high, math, high_plan(), fs)
}

/// The exponent of ten that turns a level in decibels into a linear gain.
pub open spec fn gain_exponent(db: Single) -> Single {
    db / Single { bits: TWENTY }
}

/// Whether a write of `v` to parameter `id` means this change, for whatever
/// the host computes.
pub open spec fn means<M: Elementary>(
    change: Change,
    math: &M,
    id: u32,
    v: Single,
    fs: Single,
) -> bool {
    let ten = Single { bits: TEN };
    match id {
        0 => change matches Change::LowEq(c) && c.tuned(
            math,
            FilterKind::LowShelf,
            Single { bits: F_LOW_SHELF },
            Single { bits: Q_LR },
            v,
            fs,
        ),
        1 => change matches Change::MidEq(c) && c.tuned(
            math,
            FilterKind::Peaking,
            Single { bits: F_PEAK },
            Single { bits: Q_PEAK },
            v,
            fs,
        ),
        2 => change matches Change::HighEq(c) && c.tuned(
            math,
            FilterKind::HighShelf,
            Single { bits: F_HIGH_SHELF },
            Single { bits: Q_LR },
            v,
            fs,
        ),
        3 => change == Change::Width(v),
        4 => change matches Change::OutGain(g) && powf_gives(math, ten, gain_exponent(v), g),
        5 => change == Change::Wet(
            if v.at_least(Single { bits: HALF }) {
                Single { bits: ONE }
            } else {
                Single { bits: ZERO }
            },
        ),
        6 => change matches Change::LowGain(g) && powf_gives(math, ten, gain_exponent(v), g),
        7 => change matches Change::MidGain(g) && powf_gives(math, ten, gain_exponent(v), g),
        8 => change matches Change::HighGain(g) && powf_gives(math, ten, gain_exponent(v), g),
        _ => change == Change::Ignore,
    }
}

/// The chain after the first `n` frames of a block.
pub open spec fn run(c: Chain, l: Seq<Single>, r: Seq<Single>, n: nat) -> Chain
    decreases n,
{
    if n == 0 {
        c
    } else {
        run(c, l, r, (n - 1) as nat).advanced(l[n - 1], r[n - 1])
    }
}

/// What comes out for frame `i` of a block.
pub open spec fn frame(c: Chain, l: Seq<Single>, r: Seq<Single>, i: int) -> (Single, Single) {
    run(c, l, r, i as nat).output(l[i], r[i])
}

/// What processing `n` frames does to an engine: the chain moves on by the
/// first `n` frames of the inputs, at most a block, each of which comes out in
/// its place. Everything else stays.
pub open spec fn processed(before: Engine, n: nat, after: Engine) -> bool {
    let k = if n < BLOCK_SIZE {
        n
    } else {
        BLOCK_SIZE as nat
    };
    let c = before.chain;
    let l = before.in_l@;
    let r = before.in_r@;
    &&& after.chain == run(c, l, r, k)
    &&& forall|i: int| 0 <= i < k ==> #[trigger] after.out_l[i] == frame(c, l, r, i).0
    &&& forall|i: int| 0 <= i < k ==> #[trigger] after.out_r[i] == frame(c, l, r, i).1
    &&& forall|i: int| k <= i < BLOCK_SIZE ==> #[trigger] after.out_l[i] == before.out_l[i]
    &&& forall|i: int| k <= i < BLOCK_SIZE ==> #[trigger] after.out_r[i] == before.out_r[i]
    &&& after.sample_rate == before.sample_rate
    &&& after.in_l == before.in_l
    &&& after.in_r == before.in_r
}

/// What a write of `v` to parameter `id` does to an engine: its chain takes a
/// change that the write means. Everything else stays.
pub open spec fn written<M: Elementary>(
    before: Engine,
    math: &M,
    id: u32,
    v: Single,
    after: Engine,
) -> bool {
    &&& exists|change: Change| #[trigger]
        means(change, math, id, v, before.sample_rate) && after.chain == before.chain.changed(
            change,
        )
    &&& after.sample_rate == before.sample_rate
    &&& after.in_l == before.in_l
    &&& after.in_r == before.in_r
    &&& after.out_l == before.out_l
    &&& after.out_r == before.out_r
}

/// A section with the coefficients of the given filter at 0 dB, and no past.
fn fresh<M: Elementary>(math: &M, kind: FilterKind, f0: u32, q: u32, fs: Single) -> (b: Biquad)
    ensures
        is_fresh(b, math, kind, f0, q, fs),
{
    let mut b = Biquad::default();
    b.set(math, kind, Single { bits: f0 }, Single { bits: q }, Single { bits: ZERO }, fs);
    b
}

impl Engine {
    /// A silent engine: width and gains at 1, equalizer flat, crossover off.
    pub fn new<M: Elementary>(math: &M, sample_rate: Single) -> (e: Engine)
        ensures
            e.sample_rate == sample_rate,
            forall|i: int|
                0 <= i < BLOCK_SIZE ==> #[trigger] e.in_l[i] == (Single { bits: ZERO }),
            forall|i: int|
                0 <= i < BLOCK_SIZE ==> #[trigger] e.in_r[i] == (Single { bits: ZERO }),
            forall|i: int|
                0 <= i < BLOCK_SIZE ==> #[trigger] e.out_l[i] == (Single { bits: ZERO }),
            forall|i: int|
                0 <= i < BLOCK_SIZE ==> #[trigger] e.out_r[i] == (Single { bits: ZERO }),
            is_fresh_chain(e.chain, math, sample_rate),
    {
        let zero = Single { bits: ZERO };
        let one = Single { bits: ONE };
        let fast = Single { bits: T_FAST };
        let slow = Single { bits: T_SLOW };
        proof {
            reveal(is_fresh_low);
            reveal(is_fresh_band);
        }
        Engine {
            sample_rate,
            in_l: [zero; BLOCK_SIZE],
            in_r: [zero; BLOCK_SIZE],
            out_l: [zero; BLOCK_SIZE],
            out_r: [zero; BLOCK_SIZE],
            chain: Chain {
                width: Smoother::new(math, one, sample_rate, fast),
                out_gain_lin: Smoother::new(math, one, sample_rate, fast),
                // A longer time constant, so that toggling the crossover feels
                // smooth rather than snappy.
                mb_wet: Smoother::new(math, zero, sample_rate, slow),
                mb_low_gain: Smoother::new(math, one, sample_rate, slow),
                mb_mid_gain: Smoother::new(math, one, sample_rate, slow),
                mb_high_gain: Smoother::new(math, one, sample_rate, slow),
                // The shelves ignore the quality; it is passed for uniformity.
                low_eq: fresh(math, FilterKind::LowShelf, F_LOW_SHELF, Q_LR, sample_rate),
                mid_eq: fresh(math, FilterKind::Peaking, F_PEAK, Q_PEAK, sample_rate),
                high_eq: fresh(math, FilterKind::HighShelf, F_HIGH_SHELF, Q_LR, sample_rate),
                // Every band sees both crossovers: the mid and the high band by
                // their slopes, the low band its own and an all-pass with the
                // phase of the other. At unity gains they sum back to flat.
                low: LowBand {
                    first: fresh(math, FilterKind::LowPass, F_LOW_MID, Q_LR, sample_rate),
                    second: fresh(math, FilterKind::LowPass, F_LOW_MID, Q_LR, sample_rate),
                    third: fresh(math, FilterKind::AllPass, F_MID_HIGH, Q_LR, sample_rate),
                },
                mid: Band {
                    first: fresh(math, FilterKind::HighPass, F_LOW_MID, Q_LR, sample_rate),
                    second: fresh(math, FilterKind::HighPass, F_LOW_MID, Q_LR, sample_rate),
                    third: fresh(math, FilterKind::LowPass, F_MID_HIGH, Q_LR, sample_rate),
                    fourth: fresh(math, FilterKind::LowPass, F_MID_HIGH, Q_LR, sample_rate),
                },
                high: Band {
                    first: fresh(math, FilterKind::HighPass, F_LOW_MID, Q_LR, sample_rate),
                    second: fresh(math, FilterKind::HighPass, F_LOW_MID, Q_LR, sample_rate),
                    third: fresh(math, FilterKind::HighPass, F_MID_HIGH, Q_LR, sample_rate),
                    fourth: fresh(math, FilterKind::HighPass, F_MID_HIGH, Q_LR, sample_rate),
                },
            },
        }
    }

    /// New coefficients for a filter, as a change needs them.
    fn redesign<M: Elementary>(
        &self,
        math: &M,
        kind: FilterKind,
        f0: u32,
        q: u32,
        gain_db: Single,
    ) -> (c: Coefficients)
        ensures
            c.tuned(math, kind, Single { bits: f0 }, Single { bits: q }, gain_db, self.sample_rate),
    {
        Coefficients::compute(
            math,
            kind,
            Single { bits: f0 },
            Single { bits: q },
            gain_db,
            self.sample_rate,
        )
    }

    /// The change that a write of `v` to parameter `id` means.
    pub fn interpret<M: Elementary>(&self, math: &M, id: u32, v: Single) -> (change: Change)
        ensures
            means(change, math, id, v, self.sample_rate),
    {
        match id {
            0 => Change::LowEq(
                self.redesign(math, FilterKind::LowShelf, F_LOW_SHELF, Q_LR, v),
            ),
            1 => Change::MidEq(self.redesign(math, FilterKind::Peaking, F_PEAK, Q_PEAK, v)),
            2 => Change::HighEq(
                self.redesign(math, FilterKind::HighShelf, F_HIGH_SHELF, Q_LR, v),
            ),
            3 => Change::Width(v),
            4 => Change::OutGain(math.powf(Single { bits: TEN }, v / Single { bits: TWENTY })),
            5 => Change::Wet(
                if v.ge(Single { bits: HALF }) {
                    Single { bits: ONE }
                } else {
                    Single { bits: ZERO }
                },
            ),
            6 => Change::LowGain(math.powf(Single { bits: TEN }, v / Single { bits: TWENTY })),
            7 => Change::MidGain(math.powf(Single { bits: TEN }, v / Single { bits: TWENTY })),
            8 => Change::HighGain(math.powf(Single { bits: TEN }, v / Single { bits: TWENTY })),
            _ => Change::Ignore,
        }
    }

    /// Sets a parameter by its number. Continuous parameters approach `v`;
    /// equalizer gains take effect at once. Unknown numbers are ignored.
    pub fn set_param<M: Elementary>(&mut self, math: &M, id: u32, v: Single)
        ensures
            written(*old(self), math, id, v, *final(self)),
            id > 8 ==> final(self).chain == old(self).chain,
    {
        let change = self.interpret(math, id, v);
        self.chain.apply(change);
    }

    /// Processes the first `n` frames of the inputs, at most a block, into the
    /// outputs.
    pub fn process_block(&mut self, n: usize)
        ensures
            processed(*old(self), n as nat, *final(self)),
    {
        let count: usize = if n < BLOCK_SIZE {
            n
        } else {
            BLOCK_SIZE
        };
        let ghost c = self.chain;
        let ghost l = self.in_l@;
        let ghost r = self.in_r@;
        let mut i: usize = 0;
        while i < count
            invariant
                i <= count <= BLOCK_SIZE,
                l == self.in_l@,
                r == self.in_r@,
                self.in_l == old(self).in_l,
                self.in_r == old(self).in_r,
                self.sample_rate == old(self).sample_rate,
                self.chain == run(c, l, r, i as nat),
                forall|j: int| 0 <= j < i ==> #[trigger] self.out_l[j] == frame(c, l, r, j).0,
                forall|j: int| 0 <= j < i ==> #[trigger] self.out_r[j] == frame(c, l, r, j).1,
                forall|j: int|
                    i <= j < BLOCK_SIZE ==> #[trigger] self.out_l[j] == old(self).out_l[j],
                forall|j: int|
                    i <= j < BLOCK_SIZE ==> #[trigger] self.out_r[j] == old(self).out_r[j],
            decreases count - i,
        {
            let (yl, yr) = self.chain.tick(self.in_l[i], self.in_r[i]);
            self.out_l[i] = yl;
            self.out_r[i] = yr;
            i = i + 1;
        }
    }
}

} // verus!
