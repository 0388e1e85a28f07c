//! The stereo signal chain:
//! mid/side width, three-band equalizer, three-band crossover, output gain.
use vstd::prelude::*;

use crate::biquad::{Biquad, Coefficients};
use crate::constants::{HALF, ONE};
use crate::single::Single;
use crate::smoother::Smoother;

verus! {

/// The low band of the crossover: three sections in series. The first two are
/// its slope at the low/mid crossover; the third is an all-pass that turns the
/// phase as the mid/high crossover, which the band does not see, turns that of
/// the other two.
#[derive(Clone, Copy, Debug)]
pub struct LowBand {
    pub first: Biquad,
    pub second: Biquad,
    pub third: Biquad,
}

/// The mid or the high band of the crossover: four sections in series. The
/// first two are its slope at the low/mid crossover, the others its slope at
/// the mid/high crossover.
#[derive(Clone, Copy, Debug)]
pub struct Band {
    pub first: Biquad,
    pub second: Biquad,
    pub third: Biquad,
    pub fourth: Biquad,
}

impl LowBand {
    /// What comes out for one stereo sample.
    pub open spec fn output(self, l: Single, r: Single) -> (Single, Single) {
        let (l1, r1) = self.first.output(l, r);
        let (l2, r2) = self.second.output(l1, r1);
        self.third.output(l2, r2)
    }

    /// The band after one stereo sample.
    pub open spec fn advanced(self, l: Single, r: Single) -> LowBand {
        let (l1, r1) = self.first.output(l, r);
        let (l2, r2) = self.second.output(l1, r1);
        LowBand {
            first: self.first.advanced(l, r),
            second: self.second.advanced(l1, r1),
            third: self.third.advanced(l2, r2),
        }
    }

    /// Filters one stereo sample.
    pub fn tick(&mut self, l: Single, r: Single) -> (y: (Single, Single))
        ensures
            y == old(self).output(l, r),
            *final(self) == old(self).advanced(l, r),
    {
        let (l1, r1) = self.first.tick(l, r);
        let (l2, r2) = self.second.tick(l1, r1);
        self.third.tick(l2, r2)
    }
}

impl Band {
    /// What comes out for one stereo sample.
    pub open spec fn output(self, l: Single, r: Single) -> (Single, Single) {
        let (l1, r1) = self.first.output(l, r);
        let (l2, r2) = self.second.output(l1, r1);
        let (l3, r3) = self.third.output(l2, r2);
        self.fourth.output(l3, r3)
    }

    /// The band after one stereo sample.
    pub open spec fn advanced(self, l: Single, r: Single) -> Band {
        let (l1, r1) = self.first.output(l, r);
        let (l2, r2) = self.second.output(l1, r1);
        let (l3, r3) = self.third.output(l2, r2);
        Band {
            first: self.first.advanced(l, r),
            second: self.second.advanced(l1, r1),
            third: self.third.advanced(l2, r2),
            fourth: self.fourth.advanced(l3, r3),
        }
    }

    /// Filters one stereo sample.
    pub fn tick(&mut self, l: Single, r: Single) -> (y: (Single, Single))
        ensures
            y == old(self).output(l, r),
            *final(self) == old(self).advanced(l, r),
    {
        let (l1, r1) = self.first.tick(l, r);
        let (l2, r2) = self.second.tick(l1, r1);
        let (l3, r3) = self.third.tick(l2, r2);
        self.fourth.tick(l3, r3)
    }
}

/// What a parameter write does to the chain.
#[derive(Clone, Copy, Debug)]
pub enum Change {
    /// New coefficients for a band of the equalizer.
    LowEq(Coefficients),
    MidEq(Coefficients),
    HighEq(Coefficients),
    /// A new target for the width.
    Width(Single),
    /// A new target for the linear output gain.
    OutGain(Single),
    /// A new target for the share of the crossover in the mix.
    Wet(Single),
    /// A new target for the linear gain of a crossover band.
    LowGain(Single),
    MidGain(Single),
    HighGain(Single),
    /// Nothing at all.
    Ignore,
}

/// Everything that a sample passes through.
#[derive(Clone, Copy, Debug)]
pub struct Chain {
    pub width: Smoother,
    pub out_gain_lin: Smoother,
    pub mb_wet: Smoother,
    pub mb_low_gain: Smoother,
    pub mb_mid_gain: Smoother,
    pub mb_high_gain: Smoother,
    pub low_eq: Biquad,
    pub mid_eq: Biquad,
    pub high_eq: Biquad,
    pub low: LowBand,
    pub mid: Band,
    pub high: Band,
}

/// Scales the side signal by `width`: mid/side encoding and decoding in one.
pub open spec fn widen(il: Single, ir: Single, width: Single) -> (Single, Single) {
    let m = Single { bits: HALF } * (il + ir);
    let s = Single { bits: HALF } * (il - ir) * width;
    (m + s, m - s)
}

/// Mixes the three bands of one channel.
pub open spec fn mix(
    low: Single,
    g_low: Single,
    mid: Single,
    g_mid: Single,
    high: Single,
    g_high: Single,
) -> Single {
    low * g_low + mid * g_mid + high * g_high
}

/// Blends the untouched signal with the crossover's. With nothing wet, the
/// signal goes around the crossover, whatever comes out of it.
pub open spec fn blend(dry: Single, multiband: Single, wet: Single) -> Single {
    if wet.is_zero() {
        dry
    } else {
        dry * (Single { bits: ONE } - wet) + multiband * wet
    }
}

impl Chain {
    /// The sample after the width stage.
    pub open spec fn widened(self, il: Single, ir: Single) -> (Single, Single) {
        widen(il, ir, self.width.next())
    }

    /// The sample after the first band of the equalizer.
    pub open spec fn low_equalized(self, il: Single, ir: Single) -> (Single, Single) {
        let (l, r) = self.widened(il, ir);
        self.low_eq.output(l, r)
    }

    /// The sample after the first two bands of the equalizer.
    pub open spec fn mid_equalized(self, il: Single, ir: Single) -> (Single, Single) {
        let (l, r) = self.low_equalized(il, ir);
        self.mid_eq.output(l, r)
    }

    /// The sample after the equalizer: what the crossover takes in.
    pub open spec fn equalized(self, il: Single, ir: Single) -> (Single, Single) {
        let (l, r) = self.mid_equalized(il, ir);
        self.high_eq.output(l, r)
    }

    /// The mix of the crossover's bands.
    pub open spec fn multiband(self, il: Single, ir: Single) -> (Single, Single) {
        let (l, r) = self.equalized(il, ir);
        let (ll, lr) = self.low.output(l, r);
        let (ml, mr) = self.mid.output(l, r);
        let (hl, hr) = self.high.output(l, r);
        let g_low = self.mb_low_gain.next();
        let g_mid = self.mb_mid_gain.next();
        let g_high = self.mb_high_gain.next();
        (mix(ll, g_low, ml, g_mid, hl, g_high), mix(lr, g_low, mr, g_mid, hr, g_high))
    }

    /// The sample before the output gain.
    #[verifier::opaque]
    pub open spec fn blended(self, il: Single, ir: Single) -> (Single, Single) {
        let (l, r) = self.equalized(il, ir);
        let (mb_l, mb_r) = self.multiband(il, ir);
        let wet = self.mb_wet.next();
        (blend(l, mb_l, wet), blend(r, mb_r, wet))
    }

    /// What comes out for one stereo sample.
    #[verifier::opaque]
    pub open spec fn output(self, il: Single, ir: Single) -> (Single, Single) {
        let (l, r) = self.blended(il, ir);
        let g = self.out_gain_lin.next();
        (l * g, r * g)
    }

    /// The chain after one stereo sample. Every stage moves on, the crossover
    /// too when nothing of it is heard.
    #[verifier::opaque]
    pub open spec fn advanced(self, il: Single, ir: Single) -> Chain {
        let (l0, r0) = self.widened(il, ir);
        let (l1, r1) = self.low_equalized(il, ir);
        let (l2, r2) = self.mid_equalized(il, ir);
        let (l, r) = self.equalized(il, ir);
        Chain {
            width: self.width.advanced(),
            out_gain_lin: self.out_gain_lin.advanced(),
            mb_wet: self.mb_wet.advanced(),
            mb_low_gain: self.mb_low_gain.advanced(),
            mb_mid_gain: self.mb_mid_gain.advanced(),
            mb_high_gain: self.mb_high_gain.advanced(),
            low_eq: self.low_eq.advanced(l0, r0),
            mid_eq: self.mid_eq.advanced(l1, r1),
            high_eq: self.high_eq.advanced(l2, r2),
            low: self.low.advanced(l, r),
            mid: self.mid.advanced(l, r),
            high: self.high.advanced(l, r),
        }
    }

    /// Passes one stereo sample through the chain.
    pub fn tick(&mut self, il: Single, ir: Single) -> (y: (Single, Single))
        ensures
            y == old(self).output(il, ir),
            *final(self) == old(self).advanced(il, ir),
    {
        proof {
            reveal(Chain::blended);
            reveal(Chain::output);
            reveal(Chain::advanced);
        }
        // Mid/side width: encode, scale the side, decode. Width 1 is identity.
        let m = Single { bits: HALF } * (il + ir);
        let s = Single { bits: HALF } * (il - ir) * self.width.tick();
        let l = m + s;
        let r = m - s;

        // Three-band equalizer, in series.
        let (l, r) = self.low_eq.tick(l, r);
        let (l, r) = self.mid_eq.tick(l, r);
        let (l, r) = self.high_eq.tick(l, r);

        // Crossover. It runs even when it is not heard, so that its histories
        // stay warm and switching it on does not click.
        let mb_wet = self.mb_wet.tick();
        let g_low = self.mb_low_gain.tick();
        let g_mid = self.mb_mid_gain.tick();
        let g_high = self.mb_high_gain.tick();
        let (ll, lr) = self.low.tick(l, r);
        let (ml, mr) = self.mid.tick(l, r);
        let (hl, hr) = self.high.tick(l, r);
        let mb_l = ll * g_low + ml * g_mid + hl * g_high;
        let mb_r = lr * g_low + mr * g_mid + hr * g_high;

        // True bypass: with nothing wet, this is the equalized signal.
        let (pre_l, pre_r) = if mb_wet.vanishes() {
            (l, r)
        } else {
            let dry_g = Single { bits: ONE } - mb_wet;
            (l * dry_g + mb_l * mb_wet, r * dry_g + mb_r * mb_wet)
        };

        let g = self.out_gain_lin.tick();
        (pre_l * g, pre_r * g)
    }

    /// The chain after a change.
    pub open spec fn changed(self, change: Change) -> Chain {
        match change {
            Change::LowEq(c) => Chain {
                low_eq: Biquad { coefficients: c, ..self.low_eq },
                ..self
            },
            Change::MidEq(c) => Chain {
                mid_eq: Biquad { coefficients: c, ..self.mid_eq },
                ..self
            },
            Change::HighEq(c) => Chain {
                high_eq: Biquad { coefficients: c, ..self.high_eq },
                ..self
            },
            Change::Width(v) => Chain { width: Smoother { target: v, ..self.width }, ..self },
            Change::OutGain(v) => Chain {
                out_gain_lin: Smoother { target: v, ..self.out_gain_lin },
                ..self
            },
            Change::Wet(v) => Chain { mb_wet: Smoother { target: v, ..self.mb_wet }, ..self },
            Change::LowGain(v) => Chain {
                mb_low_gain: Smoother { target: v, ..self.mb_low_gain },
                ..self
            },
            Change::MidGain(v) => Chain {
                mb_mid_gain: Smoother { target: v, ..self.mb_mid_gain },
                ..self
            },
            Change::HighGain(v) => Chain {
                mb_high_gain: Smoother { target: v, ..self.mb_high_gain },
                ..self
            },
            Change::Ignore => self,
        }
    }

    /// Applies a change.
    pub fn apply(&mut self, change: Change)
        ensures
            *final(self) == old(self).changed(change),
    {
        match change {
            Change::LowEq(c) => self.low_eq.coefficients = c,
            Change::MidEq(c) => self.mid_eq.coefficients = c,
            Change::HighEq(c) => self.high_eq.coefficients = c,
            Change::Width(v) => self.width.set(v),
            Change::OutGain(v) => self.out_gain_lin.set(v),
            Change::Wet(v) => self.mb_wet.set(v),
            Change::LowGain(v) => self.mb_low_gain.set(v),
            Change::MidGain(v) => self.mb_mid_gain.set(v),
            Change::HighGain(v) => self.mb_high_gain.set(v),
            Change::Ignore => {},
        }
    }
}

} // verus!
