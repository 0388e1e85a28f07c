//! Patterns of the numbers that the filters are built from.
use vstd::prelude::*;

verus! {

/// 0
pub const ZERO: u32 = 0;

/// 0.5
pub const HALF: u32 = 0x3f00_0000;

/// 1
pub const ONE: u32 = 0x3f80_0000;

/// 2
pub const TWO: u32 = 0x4000_0000;

/// 10
pub const TEN: u32 = 0x4120_0000;

/// 20
pub const TWENTY: u32 = 0x41a0_0000;

/// 40
pub const FORTY: u32 = 0x4220_0000;

/// -1
pub const MINUS_ONE: u32 = 0xbf80_0000;

/// -2
pub const MINUS_TWO: u32 = 0xc000_0000;

/// The ratio of a circle's circumference to its diameter, rounded.
pub const PI: u32 = 0x4049_0fdb;

/// The square root of 2, rounded.
pub const SQRT_2: u32 = 0x3fb5_04f3;

} // verus!
