//! Comparison of the serial result with the gathered parallel one.

use vstd::prelude::*;

verus! {

/// Whether the first `size` entries of the parallel result `p_result`
/// equal those of the serial result `serial_result`.
pub fn results_identical(serial_result: &[i64], p_result: &[i64], size: i32) -> (r: bool)
    requires
        size <= serial_result@.len(),
        size <= p_result@.len(),
    ensures
        r == (forall|i: int| 0 <= i < size ==> #[trigger] p_result@[i] == serial_result@[i]),
{
    let mut equal = true;
    let mut i: i32 = 0;
    while i < size
        invariant
            0 <= i,
            size <= serial_result@.len(),
            size <= p_result@.len(),
            i <= size || (size < 0 && i == 0),
            equal == (forall|t: int| 0 <= t < i ==> #[trigger] p_result@[t] == serial_result@[t]),
        decreases size - i,
    {
        let idx = i as usize;
        if p_result[idx] != serial_result[idx] {
            equal = false;
        }
        i = i + 1;
    }
    equal
}

} // verus!
