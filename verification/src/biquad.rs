//! Second-order filter sections: audio-cookbook coefficients, Direct Form I.
use vstd::prelude::*;

use crate::constants::{FORTY, HALF, MINUS_TWO, ONE, PI, SQRT_2, TEN, TWO, ZERO};
use crate::elementary::{cos_gives, powf_gives, sin_gives, Elementary};
use crate::single::Single;

verus! {

/// The filter shapes.
#[derive(Clone, Copy, Debug)]
pub enum FilterKind {
    LowShelf,
    Peaking,
    HighShelf,
    LowPass,
    HighPass,
    AllPass,
}

impl FilterKind {
    /// Whether the shape depends on a gain.
    pub open spec fn takes_gain(self) -> bool {
        self is LowShelf || self is Peaking || self is HighShelf
    }
}

/// The coefficients of a transfer function, before normalization.
#[derive(Clone, Copy, Debug)]
pub struct Transfer {
    pub b0: Single,
    pub b1: Single,
    pub b2: Single,
    pub a0: Single,
    pub a1: Single,
    pub a2: Single,
}

/// The coefficients of a section, with the first feedback coefficient
/// normalized to 1.
#[derive(Clone, Copy, Debug)]
pub struct Coefficients {
    pub b0: Single,
    pub b1: Single,
    pub b2: Single,
    pub a1: Single,
    pub a2: Single,
}

/// The last two inputs and outputs of one channel.
#[derive(Clone, Copy, Debug)]
pub struct History {
    pub x1: Single,
    pub x2: Single,
    pub y1: Single,
    pub y2: Single,
}

/// A section with a history of its own for each stereo channel.
#[derive(Clone, Copy, Debug)]
pub struct Biquad {
    pub coefficients: Coefficients,
    pub left: History,
    pub right: History,
}

/// The angular frequency of `f0` at sample rate `fs`, in radians per sample.
pub open spec fn angular_frequency(f0: Single, fs: Single) -> Single {
    Single { bits: TWO } * Single { bits: PI } * f0 / fs
}

/// The exponent of ten that turns a gain in decibels into the amplitude that
/// the cookbook formulas use.
pub open spec fn amplitude_exponent(gain_db: Single) -> Single {
    gain_db / Single { bits: FORTY }
}

impl Transfer {
    pub open spec fn low_pass(cos_w: Single, alpha: Single) -> Transfer {
        let one = Single { bits: ONE };
        Transfer {
            b0: (one - cos_w) * Single { bits: HALF },
            b1: one - cos_w,
            b2: (one - cos_w) * Single { bits: HALF },
            a0: one + alpha,
            a1: Single { bits: MINUS_TWO } * cos_w,
            a2: one - alpha,
        }
    }

    pub open spec fn high_pass(cos_w: Single, alpha: Single) -> Transfer {
        let one = Single { bits: ONE };
        Transfer {
            b0: (one + cos_w) * Single { bits: HALF },
            b1: (one + cos_w).opposite(),
            b2: (one + cos_w) * Single { bits: HALF },
            a0: one + alpha,
            a1: Single { bits: MINUS_TWO } * cos_w,
            a2: one - alpha,
        }
    }

    pub open spec fn all_pass(cos_w: Single, alpha: Single) -> Transfer {
        let one = Single { bits: ONE };
        Transfer {
            b0: one - alpha,
            b1: Single { bits: MINUS_TWO } * cos_w,
            b2: one + alpha,
            a0: one + alpha,
            a1: Single { bits: MINUS_TWO } * cos_w,
            a2: one - alpha,
        }
    }

    pub open spec fn peaking(cos_w: Single, alpha: Single, a: Single) -> Transfer {
        let one = Single { bits: ONE };
        Transfer {
            b0: one + alpha * a,
            b1: Single { bits: MINUS_TWO } * cos_w,
            b2: one - alpha * a,
            a0: one + alpha / a,
            a1: Single { bits: MINUS_TWO } * cos_w,
            a2: one - alpha / a,
        }
    }

    /// The term of a shelf of slope 1 that holds the root of the amplitude.
    pub open spec fn shelf_term(sin_w: Single, a: Single) -> Single {
        let alpha = sin_w * Single { bits: HALF } * Single { bits: SQRT_2 };
        Single { bits: TWO } * a.root() * alpha
    }

    pub open spec fn low_shelf(cos_w: Single, sin_w: Single, a: Single) -> Transfer {
        let two_sa = Self::shelf_term(sin_w, a);
        let ap1 = a + Single { bits: ONE };
        let am1 = a - Single { bits: ONE };
        Transfer {
            b0: a * (ap1 - am1 * cos_w + two_sa),
            b1: Single { bits: TWO } * a * (am1 - ap1 * cos_w),
            b2: a * (ap1 - am1 * cos_w - two_sa),
            a0: ap1 + am1 * cos_w + two_sa,
            a1: Single { bits: MINUS_TWO } * (am1 + ap1 * cos_w),
            a2: ap1 + am1 * cos_w - two_sa,
        }
    }

    pub open spec fn high_shelf(cos_w: Single, sin_w: Single, a: Single) -> Transfer {
        let two_sa = Self::shelf_term(sin_w, a);
        let ap1 = a + Single { bits: ONE };
        let am1 = a - Single { bits: ONE };
        Transfer {
            b0: a * (ap1 + am1 * cos_w + two_sa),
            b1: Single { bits: MINUS_TWO } * a * (am1 + ap1 * cos_w),
            b2: a * (ap1 + am1 * cos_w - two_sa),
            a0: ap1 - am1 * cos_w + two_sa,
            a1: Single { bits: TWO } * (am1 - ap1 * cos_w),
            a2: ap1 - am1 * cos_w - two_sa,
        }
    }

    /// The transfer function of a filter, from the cosine and the sine of its
    /// angular frequency, its quality and its amplitude. The shelves ignore
    /// the quality; the shapes without a gain ignore the amplitude.
    pub open spec fn of(
        kind: FilterKind,
        cos_w: Single,
        sin_w: Single,
        q: Single,
        a: Single,
    ) -> Transfer {
        let alpha = sin_w / (Single { bits: TWO } * q);
        match kind {
            FilterKind::LowPass => Self::low_pass(cos_w, alpha),
            FilterKind::HighPass => Self::high_pass(cos_w, alpha),
            FilterKind::AllPass => Self::all_pass(cos_w, alpha),
            FilterKind::Peaking => Self::peaking(cos_w, alpha, a),
            FilterKind::LowShelf => Self::low_shelf(cos_w, sin_w, a),
            FilterKind::HighShelf => Self::high_shelf(cos_w, sin_w, a),
        }
    }

    /// The coefficients with `a0` divided out.
    pub open spec fn normalized(self) -> Coefficients {
        let inv_a0 = Single { bits: ONE } / self.a0;
        Coefficients {
            b0: self.b0 * inv_a0,
            b1: self.b1 * inv_a0,
            b2: self.b2 * inv_a0,
            a1: self.a1 * inv_a0,
            a2: self.a2 * inv_a0,
        }
    }

    /// Computes the transfer function of a shelf of slope 1.
    fn design_shelf(low: bool, cos_w: Single, sin_w: Single, a: Single) -> (r: Transfer)
        ensures
            r == if low {
                Self::low_shelf(cos_w, sin_w, a)
            } else {
                Self::high_shelf(cos_w, sin_w, a)
            },
    {
        let alpha = sin_w * Single { bits: HALF } * Single { bits: SQRT_2 };
        let two_sa = Single { bits: TWO } * a.sqrt() * alpha;
        let ap1 = a + Single { bits: ONE };
        let am1 = a - Single { bits: ONE };
        if low {
            Transfer {
                b0: a * (ap1 - am1 * cos_w + two_sa),
                b1: Single { bits: TWO } * a * (am1 - ap1 * cos_w),
                b2: a * (ap1 - am1 * cos_w - two_sa),
                a0: ap1 + am1 * cos_w + two_sa,
                a1: Single { bits: MINUS_TWO } * (am1 + ap1 * cos_w),
                a2: ap1 + am1 * cos_w - two_sa,
            }
        } else {
            Transfer {
                b0: a * (ap1 + am1 * cos_w + two_sa),
                b1: Single { bits: MINUS_TWO } * a * (am1 + ap1 * cos_w),
                b2: a * (ap1 + am1 * cos_w - two_sa),
                a0: ap1 - am1 * cos_w + two_sa,
                a1: Single { bits: TWO } * (am1 - ap1 * cos_w),
                a2: ap1 - am1 * cos_w - two_sa,
            }
        }
    }

    /// Computes the transfer function of a filter.
    pub fn design(kind: FilterKind, cos_w: Single, sin_w: Single, q: Single, a: Single) -> (r:
        Transfer)
        ensures
            r == Self::of(kind, cos_w, sin_w, q, a),
    {
        let one = Single { bits: ONE };
        let alpha = sin_w / (Single { bits: TWO } * q);
        match kind {
            FilterKind::LowPass => Transfer {
                b0: (one - cos_w) * Single { bits: HALF },
                b1: one - cos_w,
                b2: (one - cos_w) * Single { bits: HALF },
                a0: one + alpha,
                a1: Single { bits: MINUS_TWO } * cos_w,
                a2: one - alpha,
            },
            FilterKind::HighPass => Transfer {
                b0: (one + cos_w) * Single { bits: HALF },
                b1: (one + cos_w).neg(),
                b2: (one + cos_w) * Single { bits: HALF },
                a0: one + alpha,
                a1: Single { bits: MINUS_TWO } * cos_w,
                a2: one - alpha,
            },
            FilterKind::AllPass => Transfer {
                b0: one - alpha,
                b1: Single { bits: MINUS_TWO } * cos_w,
                b2: one + alpha,
                a0: one + alpha,
                a1: Single { bits: MINUS_TWO } * cos_w,
                a2: one - alpha,
            },
            FilterKind::Peaking => Transfer {
                b0: one + alpha * a,
                b1: Single { bits: MINUS_TWO } * cos_w,
                b2: one - alpha * a,
                a0: one + alpha / a,
                a1: Single { bits: MINUS_TWO } * cos_w,
                a2: one - alpha / a,
            },
            FilterKind::LowShelf => Self::design_shelf(true, cos_w, sin_w, a),
            FilterKind::HighShelf => Self::design_shelf(false, cos_w, sin_w, a),
        }
    }

    /// Divides `a0` out, which saves a division in every sample.
    pub fn normalize(self) -> (r: Coefficients)
        ensures
            r == self.normalized(),
    {
        let inv_a0 = Single { bits: ONE } / self.a0;
        Coefficients {
            b0: self.b0 * inv_a0,
            b1: self.b1 * inv_a0,
            b2: self.b2 * inv_a0,
            a1: self.a1 * inv_a0,
            a2: self.a2 * inv_a0,
        }
    }
}

impl Coefficients {
    /// Whether these are the coefficients of the given filter, for a cosine, a
    /// sine and an amplitude that the host computed.
    pub open spec fn tuned<M: Elementary>(
        self,
        math: &M,
        kind: FilterKind,
        f0: Single,
        q: Single,
        gain_db: Single,
        fs: Single,
    ) -> bool {
        exists|cos_w: Single, sin_w: Single, a: Single|
            {
                &&& #[trigger] cos_gives(math, angular_frequency(f0, fs), cos_w)
                &&& #[trigger] sin_gives(math, angular_frequency(f0, fs), sin_w)
                &&& kind.takes_gain() ==> powf_gives(
                    math,
                    Single { bits: TEN },
                    amplitude_exponent(gain_db),
                    a,
                )
                &&& self == (#[trigger] Transfer::of(kind, cos_w, sin_w, q, a)).normalized()
            }
    }

    /// Computes the coefficients from filter shape, frequency, quality and
    /// gain in decibels.
    pub fn compute<M: Elementary>(
        math: &M,
        kind: FilterKind,
        f0: Single,
        q: Single,
        gain_db: Single,
        fs: Single,
    ) -> (c: Coefficients)
        ensures
            c.tuned(math, kind, f0, q, gain_db, fs),
    {
        let w = Single { bits: TWO } * Single { bits: PI } * f0 / fs;
        let cos_w = math.cos(w);
        let sin_w = math.sin(w);
        let a = match kind {
            FilterKind::LowShelf | FilterKind::Peaking | FilterKind::HighShelf => math.powf(
                Single { bits: TEN },
                gain_db / Single { bits: FORTY },
            ),
            _ => Single { bits: ONE },
        };
        let transfer = Transfer::design(kind, cos_w, sin_w, q, a);
        proof {
            assert(cos_gives(math, angular_frequency(f0, fs), cos_w));
            assert(sin_gives(math, angular_frequency(f0, fs), sin_w));
            assert(kind.takes_gain() ==> powf_gives(
                math,
                Single { bits: TEN },
                amplitude_exponent(gain_db),
                a,
            ));
            assert(transfer == Transfer::of(kind, cos_w, sin_w, q, a));
        }
        transfer.normalize()
    }
}

impl History {
    /// A silent past.
    pub open spec fn silent() -> History {
        let zero = Single { bits: ZERO };
        History { x1: zero, x2: zero, y1: zero, y2: zero }
    }

    /// The output for the input `x`, in Direct Form I.
    pub open spec fn output(self, c: Coefficients, x: Single) -> Single {
        c.b0 * x + c.b1 * self.x1 + c.b2 * self.x2 - c.a1 * self.y1 - c.a2 * self.y2
    }

    /// The history once `x` has come in and its output has gone out.
    pub open spec fn advanced(self, c: Coefficients, x: Single) -> History {
        History { x1: x, x2: self.x1, y1: self.output(c, x), y2: self.y1 }
    }

    /// Filters one sample.
    fn tick(&mut self, c: &Coefficients, x: Single) -> (y: Single)
        ensures
            y == old(self).output(*c, x),
            *final(self) == old(self).advanced(*c, x),
    {
        let y = c.b0 * x + c.b1 * self.x1 + c.b2 * self.x2 - c.a1 * self.y1 - c.a2 * self.y2;
        self.x2 = self.x1;
        self.x1 = x;
        self.y2 = self.y1;
        self.y1 = y;
        y
    }
}

impl Biquad {
    /// A section that is silent whatever comes in.
    pub open spec fn blank() -> Biquad {
        let zero = Single { bits: ZERO };
        Biquad {
            coefficients: Coefficients { b0: zero, b1: zero, b2: zero, a1: zero, a2: zero },
            left: History::silent(),
            right: History::silent(),
        }
    }

    /// Recomputes the coefficients from filter shape, frequency, quality and
    /// gain in decibels, and keeps the histories.
    pub fn set<M: Elementary>(
        &mut self,
        math: &M,
        kind: FilterKind,
        f0: Single,
        q: Single,
        gain_db: Single,
        fs: Single,
    )
        ensures
            final(self).coefficients.tuned(math, kind, f0, q, gain_db, fs),
            final(self).left == old(self).left,
            final(self).right == old(self).right,
    {
        self.coefficients = Coefficients::compute(math, kind, f0, q, gain_db, fs);
    }

    /// What comes out for one stereo sample.
    pub open spec fn output(self, l: Single, r: Single) -> (Single, Single) {
        (self.left.output(self.coefficients, l), self.right.output(self.coefficients, r))
    }

    /// The section after one stereo sample.
    pub open spec fn advanced(self, l: Single, r: Single) -> Biquad {
        Biquad {
            left: self.left.advanced(self.coefficients, l),
            right: self.right.advanced(self.coefficients, r),
            ..self
        }
    }

    /// Filters one stereo sample.
    pub fn tick(&mut self, l: Single, r: Single) -> (y: (Single, Single))
        ensures
            y == old(self).output(l, r),
            *final(self) == old(self).advanced(l, r),
    {
        let yl = self.left.tick(&self.coefficients, l);
        let yr = self.right.tick(&self.coefficients, r);
        (yl, yr)
    }
}

impl Default for Biquad {
    fn default() -> (r: Biquad)
        ensures
            r == Biquad::blank(),
    {
        let zero = Single { bits: ZERO };
        let silent = History { x1: zero, x2: zero, y1: zero, y2: zero };
        Biquad {
            coefficients: Coefficients { b0: zero, b1: zero, b2: zero, a1: zero, a2: zero },
            left: silent,
            right: silent,
        }
    }
}

} // verus!
