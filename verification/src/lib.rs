//! A stereo mastering engine:
//!
//! mid/side width, three-band equalizer, three-band crossover with true
//! bypass, output gain.
//!
//! All arithmetic is single precision, computed in integers and proved to
//! round correctly ([`single`]), so a contract can say what every sample comes
//! out as. The elementary functions come from the host ([`elementary`]).
//!
//! - Sections are Direct Form I ([`biquad`]).
//! - The crossover always runs and is blended in, so switching it never
//!   clicks; with nothing wet, the signal goes around it untouched
//!   ([`laws`]). At unity gains its bands sum back to flat ([`crossover`]).
//! - Continuous parameters are smoothed sample by sample ([`smoother`]).
//!
//! What the operations come to, in numbers: every operation on numbers returns
//! the one nearest to the exact result ([`operations`]); every stage that a sample
//! passes computes, to within rounding, what its name promises ([`path`]), frame
//! by frame over a block ([`blocks`]); a smoother gets to any target ([`motion`]);
//! a write sets what its parameter stands for ([`writes`]), and a filter's
//! coefficients are those of its shape at its frequency and gain ([`cookbook`],
//! [`designs`], [`shapes`]).
//!
//! What holds beyond single calls: of the filters as computed ([`filters`]) and
//! in exact arithmetic ([`exact`], [`nearness`]), of their stability
//! ([`stability`]), of doubled inputs ([`scaling`]), of silence ([`silence`]),
//! of exchanged channels ([`symmetry`]), and of the parameters over any history
//! ([`settings`]).
pub mod arithmetic;
pub mod biquad;
pub mod blocks;
pub mod chain;
pub mod constants;
pub mod cookbook;
pub mod crossover;
pub mod designs;
pub mod elementary;
pub mod engine;
pub mod exact;
pub mod filters;
pub mod grid;
pub mod laws;
pub mod motion;
pub mod nearness;
pub mod operations;
pub mod path;
mod rounding;
pub mod scaling;
pub mod settings;
pub mod shapes;
pub mod silence;
pub mod single;
pub mod smoother;
pub mod stability;
pub mod symmetry;
pub mod writes;

pub use engine::{Engine, BLOCK_SIZE};
