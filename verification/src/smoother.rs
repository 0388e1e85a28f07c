//! Parameter smoothing: a one-pole exponential approach to a target.
use vstd::prelude::*;

use crate::constants::{MINUS_ONE, ONE};
use crate::elementary::{exp_gives, Elementary};
use crate::single::Single;

verus! {

/// A value that moves towards its target by a fixed share of the distance left
/// in every sample.
#[derive(Clone, Copy, Debug)]
pub struct Smoother {
    pub target: Single,
    pub current: Single,
    pub coef: Single,
}

impl Smoother {
    /// The exponent whose exponential is the share of the distance that one
    /// sample leaves: -1 / (sample rate * time constant).
    pub open spec fn exponent(sample_rate: Single, time_const_s: Single) -> Single {
        Single { bits: MINUS_ONE } / (sample_rate * time_const_s)
    }

    /// A smoother at rest at `initial`, which leaves the share `decay` of the
    /// distance in every sample.
    pub open spec fn at_rest(initial: Single, decay: Single) -> Smoother {
        Smoother { target: initial, current: initial, coef: Single { bits: ONE } - decay }
    }

    /// Whether this is a smoother at rest at `initial` whose share per sample
    /// the host computed for this sample rate and time constant.
    pub open spec fn tuned<M: Elementary>(
        self,
        math: &M,
        initial: Single,
        sample_rate: Single,
        time_const_s: Single,
    ) -> bool {
        exists|decay: Single| #[trigger]
            exp_gives(math, Self::exponent(sample_rate, time_const_s), decay) && self
                == Self::at_rest(initial, decay)
    }

    /// A smoother at rest at `initial`, given the share that a sample leaves.
    pub fn with_decay(initial: Single, decay: Single) -> (r: Smoother)
        ensures
            r == Self::at_rest(initial, decay),
    {
        Smoother { target: initial, current: initial, coef: Single { bits: ONE } - decay }
    }

    /// A smoother at rest at `initial`. With a time constant of 20 ms it is
    /// about 99 % settled in about 90 ms.
    pub fn new<M: Elementary>(
        math: &M,
        initial: Single,
        sample_rate: Single,
        time_const_s: Single,
    ) -> (r: Smoother)
        ensures
            r.tuned(math, initial, sample_rate, time_const_s),
    {
        let decay = math.exp(Single { bits: MINUS_ONE } / (sample_rate * time_const_s));
        assert(exp_gives(math, Self::exponent(sample_rate, time_const_s), decay));
        Self::with_decay(initial, decay)
    }

    /// Sets the target.
    pub fn set(&mut self, v: Single)
        ensures
            *final(self) == (Smoother { target: v, ..*old(self) }),
    {
        self.target = v;
    }

    /// The value after one more sample.
    pub open spec fn next(self) -> Single {
        self.current + (self.target - self.current) * self.coef
    }

    /// The smoother after one more sample.
    pub open spec fn advanced(self) -> Smoother {
        Smoother { current: self.next(), ..self }
    }

    /// Moves on by one sample and returns the new value.
    pub fn tick(&mut self) -> (r: Single)
        ensures
            r == old(self).next(),
            *final(self) == old(self).advanced(),
    {
        self.current = self.current + (self.target - self.current) * self.coef;
        self.current
    }
}

} // verus!
