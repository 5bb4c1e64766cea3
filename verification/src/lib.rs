use vstd::prelude::*;

pub mod frame;
pub mod gpu;
pub mod perf;
pub mod simulation;

verus! {

} // verus!
