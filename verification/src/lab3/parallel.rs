//! The share of the rows of the Gauss program that each process holds.

use vstd::prelude::*;

verus! {

/// Rows of the process of rank `rank` when `total` rows are shared among
/// `p` processes: the quotient, plus one for the ranks below the remainder.
pub open spec fn process_rows(rank: int, p: int, total: int) -> int {
    total / p + if rank < total % p {
        1int
    } else {
        0int
    }
}

/// Rows held by the processes of rank below `k`.
pub open spec fn rows_below(p: int, total: int, k: nat) -> int
    decreases k,
{
    if k == 0 {
        0
    } else {
        rows_below(p, total, (k - 1) as nat) + process_rows(k - 1, p, total)
    }
}

/// The number of rows of the process of rank `proc_rank` among `proc_num`
/// processes sharing `total_size` rows; both ranks taken as `usize`.
pub fn calculate_rows_for_process(proc_rank: i32, proc_num: i32, total_size: usize) -> (r: usize)
    requires
        proc_num as usize != 0,
    ensures
        r == process_rows(proc_rank as usize as int, proc_num as usize as int, total_size as int),
{
    let p = proc_num as usize;
    let base_rows = total_size / p;
    let extra_rows = total_size % p;
    proof {
        let t = total_size as int;
        let pi = p as int;
        vstd::arithmetic::div_mod::lemma_fundamental_div_mod(t, pi);
        if pi >= 2 {
            assert(t / pi < t || t == 0) by (nonlinear_arith)
                requires
                    t == pi * (t / pi) + t % pi,
                    0 <= t % pi,
                    0 <= t / pi,
                    pi >= 2,
            ;
        } else {
            assert(t % pi == 0);
        }
    }
    base_rows + if (proc_rank as usize) < extra_rows {
        1
    } else {
        0
    }
}

proof fn lemma_rows_below(p: int, total: int, k: nat)
    requires
        p > 0,
        total >= 0,
        k <= p,
    ensures
        rows_below(p, total, k) == k * (total / p) + if k < total % p {
            k as int
        } else {
            total % p
        },
    decreases k,
{
    vstd::arithmetic::div_mod::lemma_mod_pos_bound(total, p);
    if k > 0 {
        lemma_rows_below(p, total, (k - 1) as nat);
        let q = total / p;
        assert(k * q == (k - 1) * q + q) by (nonlinear_arith);
    } else {
        assert(k * (total / p) == 0) by (nonlinear_arith)
            requires
                k == 0,
        ;
    }
}

/// The shares of all `p` processes add up to the `total` rows.
pub proof fn lemma_process_rows_cover(p: int, total: int)
    requires
        p > 0,
        total >= 0,
    ensures
        rows_below(p, total, p as nat) == total,
        forall|r: int|
            0 <= r < p ==> total / p <= #[trigger] process_rows(r, p, total) <= total / p + 1,
{
    lemma_rows_below(p, total, p as nat);
    vstd::arithmetic::div_mod::lemma_fundamental_div_mod(total, p);
    vstd::arithmetic::div_mod::lemma_mod_pos_bound(total, p);
    assert(p * (total / p) == (total / p) * p) by (nonlinear_arith);
}

} // verus!
