//! Facts about the row-major layout of an `n`-by-`n` matrix in a flat
//! sequence: entry `(i, j)` sits at index `i * n + j`.

use vstd::prelude::*;

verus! {

pub proof fn lemma_flat_index_bound(i: int, j: int, n: int)
    requires
        0 <= i < n,
        0 <= j < n,
    ensures
        0 <= i * n,
        i * n + j < n * n,
        i * n <= i * n + j,
{
    assert(0 <= i * n) by (nonlinear_arith)
        requires
            0 <= i,
            0 <= n,
    ;
    assert(i * n + j < n * n) by (nonlinear_arith)
        requires
            0 <= i < n,
            0 <= j < n,
    ;
}

pub proof fn lemma_flat_index_distinct(i0: int, j0: int, i: int, j: int, n: int)
    requires
        0 <= j0 < n,
        0 <= j < n,
        i != i0 || j != j0,
    ensures
        i * n + j != i0 * n + j0,
{
    if i < i0 {
        assert(i * n + j < i0 * n + j0) by (nonlinear_arith)
            requires
                i < i0,
                0 <= j < n,
                0 <= j0,
        ;
    } else if i0 < i {
        assert(i0 * n + j0 < i * n + j) by (nonlinear_arith)
            requires
                i0 < i,
                0 <= j0 < n,
                0 <= j,
        ;
    }
}

} // verus!
