//! Distribution of the rows of the matrix among processes and the
//! products each process computes on its stripe.

use vstd::prelude::*;

use crate::lab1::serial::{
    fits_u64, lemma_row_count_cover, lemma_row_count_exact, row, row_count, row_dot, row_dot_fits, rows_times,
    u64s_as_ints,
};

verus! {

/// Quotient of `a` by `b` rounded toward zero, as `/` on machine integers.
pub open spec fn trunc_div(a: int, b: int) -> int {
    if a >= 0 {
        a / b
    } else {
        -((-a) / b)
    }
}

/// Remainder of `a` by `b` that goes with `trunc_div`, as `%` on machine
/// integers.
pub open spec fn trunc_rem(a: int, b: int) -> int {
    if a >= 0 {
        a % b
    } else {
        -((-a) % b)
    }
}

/// The quotient of a non-negative `a` by `b` is no larger than `a` in
/// magnitude, and strictly smaller once `|b| > 1`.
proof fn lemma_quotient_bound(a: int, b: int)
    requires
        b != 0,
        a >= 0,
    ensures
        -a <= a / b <= a,
        (b < -1 || b > 1) ==> -a < a / b < a || a == 0,
        0 <= a % b < if b < 0 {
            -b
        } else {
            b
        },
{
    vstd::arithmetic::div_mod::lemma_fundamental_div_mod(a, b);
    let q = a / b;
    let r = a % b;
    assert(0 <= r < (if b < 0 {
        -b
    } else {
        b
    }));
    assert(-a <= q <= a) by (nonlinear_arith)
        requires
            a == b * q + r,
            0 <= r,
            b != 0,
            r < (if b < 0 {
                -b
            } else {
                b
            }),
            a >= 0,
    ;
    assert((b < -1 || b > 1) ==> -a < q < a || a == 0) by (nonlinear_arith)
        requires
            a == b * q + r,
            0 <= r,
            b != 0,
            r < (if b < 0 {
                -b
            } else {
                b
            }),
            a >= 0,
    ;
}

proof fn lemma_row_in_range(len: int, w: int, i: int)
    requires
        0 <= i,
        0 < w,
        i * w < len,
    ensures
        i < row_count(len, w),
{
    let x = len + w - 1;
    vstd::arithmetic::div_mod::lemma_fundamental_div_mod(x, w);
    vstd::arithmetic::div_mod::lemma_mod_pos_bound(x, w);
    let q = x / w;
    vstd::arithmetic::mul::lemma_mul_is_commutative(w, q);
    if q <= i {
        assert(q * w <= i * w) by (nonlinear_arith)
            requires
                q <= i,
                0 < w,
        ;
    }
}

/// The products of the rows of the stripe `flatten_matrix_stripe`, cut
/// to the width of `vector` (the last row may be shorter), with `vector`.
pub fn process_rows_and_vector_multiplication(flatten_matrix_stripe: &[u64], vector: &[u64]) -> (res:
    Vec<u64>)
    requires
        vector@.len() > 0,
        fits_u64(rows_times(flatten_matrix_stripe@, vector@)),
    ensures
        u64s_as_ints(res@) == rows_times(flatten_matrix_stripe@, vector@),
{
    let m = flatten_matrix_stripe;
    let len = m.len();
    let w = vector.len();
    let ghost wi = w as int;
    let mut res: Vec<u64> = Vec::new();
    let mut start: usize = 0;
    let mut i: usize = 0;
    while start < len
        invariant
            len == m@.len(),
            w == vector@.len(),
            wi == w,
            0 < w,
            fits_u64(rows_times(m@, vector@)),
            start <= len,
            start == if i * wi <= len {
                i * wi
            } else {
                len as int
            },
            i == 0 || (i - 1) * wi < len,
            res@.len() == i,
            forall|r: int| 0 <= r < i ==> #[trigger] res@[r] == rows_times(m@, vector@)[r],
        decreases len - start,
    {
        assert(start == i * wi);
        let rest = len - start;
        let row_len = if rest < w {
            rest
        } else {
            w
        };
        proof {
            lemma_row_in_range(len as int, wi, i as int);
            assert(rows_times(m@, vector@)[i as int] <= u64::MAX);
            assert(row(m@, wi, i as int) == m@.subrange(start as int, start + row_len));
        }
        let x = row_dot(m, start, row_len, vector);
        res.push(x);
        proof {
            assert((i + 1) * wi == i * wi + wi) by (nonlinear_arith);
            assert(i <= i * wi) by (nonlinear_arith)
                requires
                    0 <= i,
                    1 <= wi,
            ;
        }
        start = start + row_len;
        i = i + 1;
    }
    proof {
        if i == 0 {
            lemma_row_count_exact(0, wi);
        } else {
            lemma_row_count_cover(len as int, wi, i as int);
        }
    }
    assert(u64s_as_ints(res@) =~= rows_times(m@, vector@));
    res
}

/// Whether every product of a row of `m`, cut to the width of `v`, with
/// `v` fits in a `u64`: the condition under which the products can be
/// formed.
pub fn rows_product_fits(m: &[u64], v: &[u64]) -> (r: bool)
    requires
        v@.len() > 0,
    ensures
        r == fits_u64(rows_times(m@, v@)),
{
    let len = m.len();
    let w = v.len();
    let ghost wi = w as int;
    let mut start: usize = 0;
    let mut i: usize = 0;
    while start < len
        invariant
            len == m@.len(),
            w == v@.len(),
            wi == w,
            0 < w,
            start <= len,
            start == if i * wi <= len {
                i * wi
            } else {
                len as int
            },
            i == 0 || (i - 1) * wi < len,
            forall|r: int| 0 <= r < i ==> #[trigger] rows_times(m@, v@)[r] <= u64::MAX,
        decreases len - start,
    {
        assert(start == i * wi);
        let rest = len - start;
        let row_len = if rest < w {
            rest
        } else {
            w
        };
        proof {
            lemma_row_in_range(len as int, wi, i as int);
            assert(row(m@, wi, i as int) == m@.subrange(start as int, start + row_len));
        }
        if !row_dot_fits(m, start, row_len, v) {
            assert(rows_times(m@, v@)[i as int] > u64::MAX);
            return false;
        }
        proof {
            assert((i + 1) * wi == i * wi + wi) by (nonlinear_arith);
            assert(i <= i * wi) by (nonlinear_arith)
                requires
                    0 <= i,
                    1 <= wi,
            ;
        }
        start = start + row_len;
        i = i + 1;
    }
    proof {
        if i == 0 {
            lemma_row_count_exact(0, wi);
        } else {
            lemma_row_count_cover(len as int, wi, i as int);
        }
    }
    true
}

/// The number of rows given to process `rank`: the size divided among
/// `process_count` processes, one more for the ranks below `bigger_count`.
pub fn compute_rows_for_rank(rank: i32, size: u64, process_count: i32, bigger_count: i32) -> (r: i32)
    requires
        process_count != 0,
        !((size as i32) == i32::MIN && process_count == -1),
        rank < bigger_count ==> trunc_div(size as i32 as int, process_count as int) < i32::MAX,
    ensures
        r == trunc_div(size as i32 as int, process_count as int) + if rank < bigger_count {
            1int
        } else {
            0int
        },
{
    let a = size as i32;
    proof {
        if a >= 0 {
            lemma_quotient_bound(a as int, process_count as int);
        } else {
            lemma_quotient_bound(-a, process_count as int);
        }
    }
    let mut rows_per_process = a / process_count;
    if rank < bigger_count {
        rows_per_process += 1;
    }
    rows_per_process
}

/// `counts[0] + .. + counts[k - 1]`.
pub open spec fn prefix_sum(counts: Seq<i32>, k: nat) -> int
    decreases k,
{
    if k == 0 {
        0
    } else {
        prefix_sum(counts, (k - 1) as nat) + counts[k - 1]
    }
}

/// The displacements of consecutive blocks of the given sizes: entry `i`
/// is the sum of the sizes before block `i`.
pub fn get_dispels(counts: &[i32]) -> (res: Vec<i32>)
    requires
        forall|k: nat|
            1 <= k <= counts@.len() ==> i32::MIN <= #[trigger] prefix_sum(counts@, k) <= i32::MAX,
    ensures
        res@.len() == counts@.len(),
        forall|i: int| 0 <= i < counts@.len() ==> #[trigger] res@[i] == prefix_sum(counts@, i as nat),
{
    let mut res: Vec<i32> = Vec::new();
    let mut acc: i32 = 0;
    let mut i: usize = 0;
    while i < counts.len()
        invariant
            0 <= i <= counts@.len(),
            forall|k: nat|
                1 <= k <= counts@.len() ==> i32::MIN <= #[trigger] prefix_sum(counts@, k)
                    <= i32::MAX,
            acc == prefix_sum(counts@, i as nat),
            res@.len() == i,
            forall|t: int| 0 <= t < i ==> #[trigger] res@[t] == prefix_sum(counts@, t as nat),
        decreases counts@.len() - i,
    {
        assert(prefix_sum(counts@, (i + 1) as nat) == acc + counts@[i as int]);
        res.push(acc);
        acc = acc + counts[i];
        i = i + 1;
    }
    res
}


/// Rows of process `rank` when `size` rows are shared among `p` processes:
/// the quotient, plus one for the ranks below the remainder.
pub open spec fn rows_for_rank(rank: int, size: int, p: int) -> int {
    trunc_div(size, p) + if rank < trunc_rem(size, p) {
        1int
    } else {
        0int
    }
}

proof fn lemma_layout_prefix(counts: Seq<i32>, a: int, p: int, k: nat)
    requires
        p > 0,
        counts.len() == p,
        forall|r: int| 0 <= r < p ==> #[trigger] counts[r] == rows_for_rank(r, a, p),
        k <= p,
    ensures
        prefix_sum(counts, k) == k * trunc_div(a, p) + if k < trunc_rem(a, p) {
            k as int
        } else if trunc_rem(a, p) > 0 {
            trunc_rem(a, p)
        } else {
            0
        },
    decreases k,
{
    if k > 0 {
        lemma_layout_prefix(counts, a, p, (k - 1) as nat);
        let q = trunc_div(a, p);
        assert(k * q == (k - 1) * q + q) by (nonlinear_arith);
    } else {
        assert(k * trunc_div(a, p) == 0) by (nonlinear_arith)
            requires
                k == 0,
        ;
    }
}

/// For `size` rows shared among `p > 0` processes: the count of rows of
/// each rank, and the index of the first row of each rank.
pub fn replication_layout(size: u64, process_count: i32) -> (res: (Vec<i32>, Vec<i32>))
    requires
        process_count > 0,
    ensures
        res.0@.len() == process_count,
        forall|r: int|
            0 <= r < process_count ==> #[trigger] res.0@[r] == rows_for_rank(
                r,
                size as i32 as int,
                process_count as int,
            ),
        res.1@.len() == process_count,
        forall|r: int| 0 <= r < process_count ==> #[trigger] res.1@[r] == prefix_sum(res.0@, r as nat),
        0 <= size as i32 ==> prefix_sum(res.0@, process_count as nat) == size as i32,
        0 <= size as i32 ==> forall|r: int| 0 <= r < process_count ==> #[trigger] res.0@[r] >= 0,
{
    let a = size as i32;
    let p = process_count;
    let ghost ai = a as int;
    let ghost pi = p as int;
    proof {
        if a >= 0 {
            lemma_quotient_bound(ai, pi);
        } else {
            lemma_quotient_bound(-ai, pi);
        }
    }
    let bigger_count = a % p;
    assert(bigger_count == trunc_rem(ai, pi));
    let mut counts: Vec<i32> = Vec::new();
    let mut rank: i32 = 0;
    while rank < p
        invariant
            0 <= rank <= p,
            a == size as i32,
            ai == a,
            pi == p,
            p > 0,
            bigger_count == trunc_rem(ai, pi),
            ai >= 0 ==> -ai <= ai / pi <= ai && ((pi > 1) ==> ai / pi < ai || ai == 0) && 0 <= ai
                % pi < pi,
            ai < 0 ==> 0 <= (-ai) % pi < pi,
            counts@.len() == rank,
            forall|r: int| 0 <= r < rank ==> #[trigger] counts@[r] == rows_for_rank(r, ai, pi),
        decreases p - rank,
    {
        let c = compute_rows_for_rank(rank, size, p, bigger_count);
        counts.push(c);
        rank = rank + 1;
    }
    proof {
        let q = trunc_div(ai, pi);
        let rm = trunc_rem(ai, pi);
        assert forall|k: nat| 1 <= k <= counts@.len() implies i32::MIN <= #[trigger] prefix_sum(
            counts@,
            k,
        ) <= i32::MAX by {
            lemma_layout_prefix(counts@, ai, pi, k);
            if ai >= 0 {
                vstd::arithmetic::div_mod::lemma_fundamental_div_mod(ai, pi);
                assert(0 <= k * q <= pi * q) by (nonlinear_arith)
                    requires
                        0 <= q,
                        0 <= k <= pi,
                ;
            } else {
                vstd::arithmetic::div_mod::lemma_fundamental_div_mod(-ai, pi);
                let q2 = (-ai) / pi;
                assert(pi * q2 <= -ai);
                assert(0 <= q2);
                assert(0 <= k * q2 <= pi * q2) by (nonlinear_arith)
                    requires
                        0 <= q2,
                        0 <= k <= pi,
                ;
                assert(k * q == -(k * q2)) by (nonlinear_arith)
                    requires
                        q == -q2,
                ;
            }
        }
        lemma_layout_prefix(counts@, ai, pi, pi as nat);
        if ai >= 0 {
            vstd::arithmetic::div_mod::lemma_fundamental_div_mod(ai, pi);
            assert(pi * q == q * pi) by (nonlinear_arith);
        }
    }
    let dispels = get_dispels(counts.as_slice());
    (counts, dispels)
}

/// Each process, multiplying the rows `lo .. hi` of the matrix `m` by `v`,
/// gets exactly the entries `lo .. hi` of the product of the whole matrix:
/// the stripes' results, gathered in order, make up the full product.
pub proof fn lemma_stripe_product(m: Seq<u64>, v: Seq<u64>, lo: int, hi: int)
    requires
        v.len() > 0,
        0 <= lo <= hi,
        hi * v.len() <= m.len(),
    ensures
        rows_times(m.subrange(lo * v.len(), hi * v.len()), v) == rows_times(m, v).subrange(lo, hi),
{
    let w = v.len() as int;
    let sub = m.subrange(lo * w, hi * w);
    assert(lo * w <= hi * w) by (nonlinear_arith)
        requires
            lo <= hi,
            0 < w,
    ;
    assert(sub.len() == (hi - lo) * w) by (nonlinear_arith)
        requires
            sub.len() == hi * w - lo * w,
    ;
    lemma_row_count_exact(hi - lo, w);
    if hi > 0 {
        assert((hi - 1) * w < hi * w) by (nonlinear_arith)
            requires
                0 < w,
        ;
        lemma_row_in_range(m.len() as int, w, hi - 1);
    }
    let a = rows_times(sub, v);
    let b = rows_times(m, v).subrange(lo, hi);
    assert forall|t: int| 0 <= t < hi - lo implies a[t] == b[t] by {
        assert((t + 1) * w <= (hi - lo) * w) by (nonlinear_arith)
            requires
                t + 1 <= hi - lo,
                0 < w,
        ;
        assert((lo + t) * w == lo * w + t * w) by (nonlinear_arith);
        assert((t + 1) * w == t * w + w) by (nonlinear_arith);
        assert(0 <= t * w) by (nonlinear_arith)
            requires
                0 <= t,
                0 < w,
        ;
        assert((lo + t) * w + w <= hi * w) by (nonlinear_arith)
            requires
                lo + t + 1 <= hi,
                0 < w,
        ;
        assert(row(sub, w, t) =~= row(m, w, lo + t));
    }
    assert(a =~= b);
}


/// The products of the processes, rank by rank, concatenated in rank
/// order: process `r` multiplies the `counts[r]` rows that follow those of
/// the lower ranks.
pub open spec fn gathered_products(m: Seq<u64>, v: Seq<u64>, counts: Seq<i32>, r: nat) -> Seq<int>
    decreases r,
{
    if r == 0 {
        Seq::empty()
    } else {
        let w = v.len() as int;
        gathered_products(m, v, counts, (r - 1) as nat) + rows_times(
            m.subrange(prefix_sum(counts, (r - 1) as nat) * w, prefix_sum(counts, r) * w),
            v,
        )
    }
}

proof fn lemma_prefix_sum_monotone(counts: Seq<i32>, a: nat, b: nat)
    requires
        a <= b <= counts.len(),
        forall|r: int| 0 <= r < counts.len() ==> #[trigger] counts[r] >= 0,
    ensures
        0 <= prefix_sum(counts, a) <= prefix_sum(counts, b),
    decreases b,
{
    if b > 0 {
        lemma_prefix_sum_monotone(counts, if a < b {
            a
        } else {
            (b - 1) as nat
        }, (b - 1) as nat);
        assert(counts[b - 1] >= 0);
    }
}

/// Gathering the products of the processes, in rank order, gives the
/// serial product of the whole matrix when the processes' rows add up to
/// all the rows.
pub proof fn lemma_gathered_products(m: Seq<u64>, v: Seq<u64>, counts: Seq<i32>)
    requires
        v.len() > 0,
        m.len() == v.len() * v.len(),
        forall|r: int| 0 <= r < counts.len() ==> #[trigger] counts[r] >= 0,
        prefix_sum(counts, counts.len()) == v.len(),
    ensures
        gathered_products(m, v, counts, counts.len()) == rows_times(m, v),
{
    let n = v.len() as int;
    lemma_row_count_exact(n, n);
    lemma_gathered_prefix(m, v, counts, counts.len());
    assert(rows_times(m, v).subrange(0, n) =~= rows_times(m, v));
}

proof fn lemma_gathered_prefix(m: Seq<u64>, v: Seq<u64>, counts: Seq<i32>, r: nat)
    requires
        v.len() > 0,
        m.len() == v.len() * v.len(),
        forall|t: int| 0 <= t < counts.len() ==> #[trigger] counts[t] >= 0,
        prefix_sum(counts, counts.len()) == v.len(),
        r <= counts.len(),
    ensures
        gathered_products(m, v, counts, r) == rows_times(m, v).subrange(0, prefix_sum(counts, r)),
    decreases r,
{
    let n = v.len() as int;
    lemma_row_count_exact(n, n);
    lemma_prefix_sum_monotone(counts, r, counts.len());
    if r == 0 {
        assert(rows_times(m, v).subrange(0, 0) =~= Seq::<int>::empty());
    } else {
        let rp = (r - 1) as nat;
        lemma_gathered_prefix(m, v, counts, rp);
        lemma_prefix_sum_monotone(counts, rp, r);
        let lo = prefix_sum(counts, rp);
        let hi = prefix_sum(counts, r);
        assert(hi * n <= n * n) by (nonlinear_arith)
            requires
                hi <= n,
                0 < n,
        ;
        lemma_stripe_product(m, v, lo, hi);
        assert(rows_times(m, v).subrange(0, lo) + rows_times(m, v).subrange(lo, hi)
            =~= rows_times(m, v).subrange(0, hi));
    }
}

} // verus!
