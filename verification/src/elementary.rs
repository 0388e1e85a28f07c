//! The elementary functions, which the host supplies.
//!
//! How a sine, a cosine, an exponential or a power is rounded differs from one
//! platform to another, and nothing here depends on it: a contract that rests
//! on such a call says which argument was handed to the host, and what is made
//! of whatever came back.
use vstd::prelude::*;

use crate::single::Single;

verus! {

/// A host that computes elementary functions.
pub trait Elementary {
    /// The sine of an angle in radians.
    fn sin(&self, x: Single) -> Single;

    /// The cosine of an angle in radians.
    fn cos(&self, x: Single) -> Single;

    /// The exponential of `x`.
    fn exp(&self, x: Single) -> Single;

    /// The power `base` to the `x`.
    fn powf(&self, base: Single, x: Single) -> Single;
}

/// Whether `y` can be the host's sine of `x`.
pub open spec fn sin_gives<M: Elementary>(math: &M, x: Single, y: Single) -> bool {
    call_ensures(M::sin, (math, x), y)
}

/// Whether `y` can be the host's cosine of `x`.
pub open spec fn cos_gives<M: Elementary>(math: &M, x: Single, y: Single) -> bool {
    call_ensures(M::cos, (math, x), y)
}

/// Whether `y` can be the host's exponential of `x`.
pub open spec fn exp_gives<M: Elementary>(math: &M, x: Single, y: Single) -> bool {
    call_ensures(M::exp, (math, x), y)
}

/// Whether `y` can be the host's power `base` to the `x`.
pub open spec fn powf_gives<M: Elementary>(math: &M, base: Single, x: Single, y: Single) -> bool {
    call_ensures(M::powf, (math, base, x), y)
}

/// Whether the host repeats itself: asked the same again, it answers the same.
pub open spec fn repeats<M: Elementary>(math: &M) -> bool {
    &&& forall|x: Single, y: Single, z: Single|
        #[trigger] sin_gives(math, x, y) && #[trigger] sin_gives(math, x, z) ==> y == z
    &&& forall|x: Single, y: Single, z: Single|
        #[trigger] cos_gives(math, x, y) && #[trigger] cos_gives(math, x, z) ==> y == z
    &&& forall|x: Single, y: Single, z: Single|
        #[trigger] exp_gives(math, x, y) && #[trigger] exp_gives(math, x, z) ==> y == z
    &&& forall|b: Single, x: Single, y: Single, z: Single|
        #[trigger] powf_gives(math, b, x, y) && #[trigger] powf_gives(math, b, x, z) ==> y == z
}

} // verus!
