//! What the matrix-matrix program decides after reading the size.

use vstd::prelude::*;

use crate::lab1::parallel::SizeVerdict;

verus! {

/// The verdict on `size` for a program run by `process_number` processes
/// arranged in a grid of `grid_size` by `grid_size`.
pub fn check_size(size: u64, grid_size: u64, process_number: u32) -> (v: SizeVerdict)
    requires
        size != 0 && size >= process_number ==> grid_size != 0,
    ensures
        v == if size == 0 {
            SizeVerdict::Zero
        } else if size < process_number {
            SizeVerdict::FewerRowsThanProcesses
        } else if size % grid_size != 0 {
            SizeVerdict::NotMultipleOfGrid
        } else {
            SizeVerdict::Accepted
        },
{
    if size == 0 {
        SizeVerdict::Zero
    } else if size < process_number as u64 {
        SizeVerdict::FewerRowsThanProcesses
    } else if size % grid_size != 0 {
        SizeVerdict::NotMultipleOfGrid
    } else {
        SizeVerdict::Accepted
    }
}

} // verus!
