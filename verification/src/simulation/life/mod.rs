use vstd::prelude::*;

pub mod bitgrid;
pub mod components;
pub mod patterns;
pub mod readback;
pub mod rle;
pub mod sim;
pub mod text;

pub use bitgrid::BitGrid;
pub use patterns::{KnownPattern, PatternDetection};
pub use rle::{rle_text_fits, LifeRlePattern, RleError};
pub use sim::{detect_oscillator_period, LifeSim, LifeStateHash, PatternDetectionReport};

verus! {

} // verus!
