//! What the programs decide after reading the size of the matrix.

use vstd::prelude::*;

verus! {

/// The verdict on a size read from the user.
#[derive(Clone, Copy, Debug, PartialEq, Eq, Structural)]
pub enum SizeVerdict {
    /// The size is zero: the program asks again.
    Zero,
    /// Fewer rows than processes: the program warns and keeps the size.
    FewerRowsThanProcesses,
    /// Not a multiple of the grid size: the program warns and keeps it.
    NotMultipleOfGrid,
    /// The size is kept without a warning.
    Accepted,
}

impl SizeVerdict {
    /// Whether the program reads the size again.
    pub fn asks_again(&self) -> (r: bool)
        ensures
            r == (*self == SizeVerdict::Zero),
    {
        match self {
            SizeVerdict::Zero => true,
            _ => false,
        }
    }
}

/// The verdict on `size` for a program run by `process_number` processes.
pub fn check_size(size: u64, process_number: u32) -> (v: SizeVerdict)
    ensures
        v == if size == 0 {
            SizeVerdict::Zero
        } else if size < process_number {
            SizeVerdict::FewerRowsThanProcesses
        } else {
            SizeVerdict::Accepted
        },
{
    if size == 0 {
        SizeVerdict::Zero
    } else if size < process_number as u64 {
        SizeVerdict::FewerRowsThanProcesses
    } else {
        SizeVerdict::Accepted
    }
}

} // verus!
