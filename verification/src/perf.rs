use vstd::prelude::*;

verus! {

/// Number of timing iterations used for a square grid of the given side:
/// `small` up to 128 cells, `medium` up to 256, `large` beyond.
pub fn iterations_for(size: usize, small: usize, medium: usize, large: usize) -> (n: usize)
    ensures
        n == (if size <= 128 { small } else if size <= 256 { medium } else { large }),
{
    if size <= 128 {
        small
    } else if size <= 256 {
        medium
    } else {
        large
    }
}

} // verus!
