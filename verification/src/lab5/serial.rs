//! Floyd's all-pairs shortest paths on an adjacency matrix of `i32`,
//! `-1` marking a missing edge, and the test graph of the laboratory work.

use vstd::prelude::*;

use crate::flat::{lemma_flat_index_bound, lemma_flat_index_distinct};
use crate::lab5::paths::{cell, is_shortest_distance, lemma_floyd_shortest_paths, weights_well_formed};

verus! {

/// The shorter of two distances, where any negative value stands for
/// "no path": `-1` when neither is a path, otherwise the smaller of the
/// non-negative ones.
pub open spec fn dist_min(a: int, b: int) -> int {
    if a < 0 && b < 0 {
        -1
    } else if a < 0 {
        b
    } else if b < 0 {
        a
    } else if a <= b {
        a
    } else {
        b
    }
}

/// Minimum of two distances where a negative value means "unreachable".
pub fn min(a: i32, b: i32) -> (r: i32)
    ensures
        r == dist_min(a as int, b as int),
{
    if a < 0 && b >= 0 {
        b
    } else if b < 0 && a >= 0 {
        a
    } else if a < 0 && b < 0 {
        -1
    } else if a <= b {
        a
    } else {
        b
    }
}


/// The shorter of two distances does not depend on their order nor on
/// how three of them are grouped, and "no path" leaves the other distance:
/// the minimum over a set of paths is well defined.
pub proof fn lemma_dist_min_laws(a: int, b: int, c: int)
    ensures
        dist_min(a, b) == dist_min(b, a),
        dist_min(dist_min(a, b), c) == dist_min(a, dist_min(b, c)),
        a >= 0 ==> dist_min(a, -1) == a,
        dist_min(a, b) >= -1,
        dist_min(a, b) == -1 || dist_min(a, b) == a || dist_min(a, b) == b,
{
}

/// The entries of a matrix of `i32` taken as mathematical integers.
pub open spec fn as_ints(s: Seq<i32>) -> Seq<int> {
    s.map_values(|x: i32| x as int)
}

/// Relaxation of cell `(i, j)` of the `n`-by-`n` row-major matrix `s`
/// through vertex `k`: when both `(i, k)` and `(k, j)` are paths, the cell
/// takes the shorter of itself and the path through `k`.
pub open spec fn relax(s: Seq<int>, n: int, k: int, i: int, j: int) -> Seq<int> {
    let via = s[i * n + k];
    let onward = s[k * n + j];
    if via != -1 && onward != -1 {
        s.update(i * n + j, dist_min(s[i * n + j], via + onward))
    } else {
        s
    }
}

/// Cells `(i, 0) .. (i, j)` relaxed through `k`, one after the other.
pub open spec fn relax_row(s: Seq<int>, n: int, k: int, i: int, j: nat) -> Seq<int>
    decreases j,
{
    if j == 0 {
        s
    } else {
        relax(relax_row(s, n, k, i, (j - 1) as nat), n, k, i, j - 1)
    }
}

/// Rows `0 .. i` relaxed through `k`, one after the other, in place.
pub open spec fn relax_rows(s: Seq<int>, n: int, k: int, i: nat) -> Seq<int>
    decreases i,
{
    if i == 0 {
        s
    } else {
        relax_row(relax_rows(s, n, k, (i - 1) as nat), n, k, i - 1, n as nat)
    }
}

/// The matrix after the in-place rounds for the intermediate vertices `0 .. k`.
pub open spec fn floyd_rounds(s: Seq<int>, n: int, k: nat) -> Seq<int>
    decreases k,
{
    if k == 0 {
        s
    } else {
        relax_rows(floyd_rounds(s, n, (k - 1) as nat), n, k - 1, n as nat)
    }
}

/// The sum that relaxing cell `(i, j)` through `k` forms fits in an `i32`.
pub open spec fn relax_fits(s: Seq<int>, n: int, k: int, i: int, j: int) -> bool {
    let via = s[i * n + k];
    let onward = s[k * n + j];
    (via != -1 && onward != -1) ==> i32::MIN <= via + onward <= i32::MAX
}

/// No sum formed while relaxing cells `(i, 0) .. (i, j)` through `k`
/// overflows an `i32`.
pub open spec fn row_fits(s: Seq<int>, n: int, k: int, i: int, j: nat) -> bool
    decreases j,
{
    j == 0 || (row_fits(s, n, k, i, (j - 1) as nat) && relax_fits(
        relax_row(s, n, k, i, (j - 1) as nat),
        n,
        k,
        i,
        j - 1,
    ))
}

/// No sum formed while relaxing rows `0 .. i` through `k` overflows an
/// `i32`.
pub open spec fn rows_fit(s: Seq<int>, n: int, k: int, i: nat) -> bool
    decreases i,
{
    i == 0 || (rows_fit(s, n, k, (i - 1) as nat) && row_fits(
        relax_rows(s, n, k, (i - 1) as nat),
        n,
        k,
        i - 1,
        n as nat,
    ))
}

/// No sum formed by the first `k` in-place rounds overflows an `i32`.
pub open spec fn floyd_fits(s: Seq<int>, n: int, k: nat) -> bool
    decreases k,
{
    k == 0 || (floyd_fits(s, n, (k - 1) as nat) && rows_fit(
        floyd_rounds(s, n, (k - 1) as nat),
        n,
        k - 1,
        n as nat,
    ))
}

proof fn lemma_row_fits_prefix(s: Seq<int>, n: int, k: int, i: int, j: nat, j2: nat)
    requires
        j <= j2,
        row_fits(s, n, k, i, j2),
    ensures
        row_fits(s, n, k, i, j),
    decreases j2,
{
    if j < j2 {
        lemma_row_fits_prefix(s, n, k, i, j, (j2 - 1) as nat);
    }
}

proof fn lemma_rows_fit_prefix(s: Seq<int>, n: int, k: int, i: nat, i2: nat)
    requires
        i <= i2,
        rows_fit(s, n, k, i2),
    ensures
        rows_fit(s, n, k, i),
    decreases i2,
{
    if i < i2 {
        lemma_rows_fit_prefix(s, n, k, i, (i2 - 1) as nat);
    }
}

proof fn lemma_floyd_fits_prefix(s: Seq<int>, n: int, k: nat, k2: nat)
    requires
        k <= k2,
        floyd_fits(s, n, k2),
    ensures
        floyd_fits(s, n, k),
    decreases k2,
{
    if k < k2 {
        lemma_floyd_fits_prefix(s, n, k, (k2 - 1) as nat);
    }
}

/// One step of the in-place loop, on any weights: cell `(i, j)` is the
/// only one that may change. When the current entries `(i, k)` and
/// `(k, j)` both differ from `-1` (an entry below `-1` is an edge of that
/// weight, not a missing one), the cell becomes the plain sum
/// `(i, k) + (k, j)` or keeps its value, whichever is the shorter path,
/// a negative value counting as no path and two of them giving `-1`;
/// otherwise it keeps its value.
pub proof fn lemma_relaxation_step(s: Seq<int>, n: int, k: int, i: int, j: int)
    requires
        0 <= k < n,
        0 <= i < n,
        0 <= j < n,
        n * n <= s.len(),
    ensures
        relax(s, n, k, i, j).len() == s.len(),
        forall|x: int|
            0 <= x < s.len() && x != i * n + j ==> #[trigger] relax(s, n, k, i, j)[x] == s[x],
        ({
            let via = s[i * n + k];
            let onward = s[k * n + j];
            let here = s[i * n + j];
            let sum = via + onward;
            let after = relax(s, n, k, i, j)[i * n + j];
            &&& (via == -1 || onward == -1) ==> after == here
            &&& (via != -1 && onward != -1 && here < 0 && sum < 0) ==> after == -1
            &&& (via != -1 && onward != -1 && here < 0 && sum >= 0) ==> after == sum
            &&& (via != -1 && onward != -1 && here >= 0 && sum < 0) ==> after == here
            &&& (via != -1 && onward != -1 && here >= 0 && sum >= 0) ==> after == (if here <= sum {
                here
            } else {
                sum
            })
        }),
{
    lemma_flat_index_bound(i, j, n);
}

/// The order of the steps: the rounds take the intermediate vertices
/// `0, 1, .., n - 1` in turn; a round takes the rows in turn and a row
/// its cells from left to right, each step seeing the entries that the
/// steps before it wrote.
pub proof fn lemma_relaxation_order(s: Seq<int>, n: int, k: nat, i: nat, j: nat)
    ensures
        floyd_rounds(s, n, 0) == s,
        relax_rows(s, n, k as int, 0) == s,
        relax_row(s, n, k as int, i as int, 0) == s,
        floyd_rounds(s, n, k + 1) == relax_rows(floyd_rounds(s, n, k), n, k as int, n as nat),
        relax_rows(s, n, k as int, i + 1) == relax_row(
            relax_rows(s, n, k as int, i),
            n,
            k as int,
            i as int,
            n as nat,
        ),
        relax_row(s, n, k as int, i as int, j + 1) == relax(
            relax_row(s, n, k as int, i as int, j),
            n,
            k as int,
            i as int,
            j as int,
        ),
{
}

/// What the overflow condition asks: the run fits exactly when every step
/// that adds, that is every step whose entries `(i, k)` and `(k, j)` both
/// differ from `-1`, forms a sum within `i32`, each step judged on the
/// entries that the steps before it wrote.
pub proof fn lemma_fits_every_step(s: Seq<int>, n: int, k: nat, i: nat, j: nat)
    ensures
        relax_fits(s, n, k as int, i as int, j as int) <==> (s[i * n + k] != -1 && s[k * n + j] != -1
            ==> i32::MIN <= s[i * n + k] + s[k * n + j] <= i32::MAX),
        floyd_fits(s, n, 0),
        rows_fit(s, n, k as int, 0),
        row_fits(s, n, k as int, i as int, 0),
        floyd_fits(s, n, k + 1) <==> (floyd_fits(s, n, k) && rows_fit(
            floyd_rounds(s, n, k),
            n,
            k as int,
            n as nat,
        )),
        rows_fit(s, n, k as int, i + 1) <==> (rows_fit(s, n, k as int, i) && row_fits(
            relax_rows(s, n, k as int, i),
            n,
            k as int,
            i as int,
            n as nat,
        )),
        row_fits(s, n, k as int, i as int, j + 1) <==> (row_fits(s, n, k as int, i as int, j)
            && relax_fits(relax_row(s, n, k as int, i as int, j), n, k as int, i as int, j as int)),
{
}

/// Entry `(i, j)` of the test graph: a star around vertex `0` whose edge
/// to vertex `v` weighs `v`, no other edge, zero on the diagonal.
pub open spec fn star_entry(i: int, j: int) -> i32 {
    if i == j {
        0
    } else if i == 0 || j == 0 {
        (i + j) as i32
    } else {
        -1i32
    }
}

/// Entry `(i, j)` of the `n`-column row-major matrix `s` of `i32`.
pub open spec fn entry(s: Seq<i32>, n: int, i: int, j: int) -> i32 {
    s[i * n + j]
}

/// Fills the `size`-by-`size` matrix in `matrix` with the test graph
/// described by `star_entry`; entries past `size * size` are kept.
pub fn dummy_data_initialization(matrix: &mut [i32], size: usize)
    requires
        size * size <= old(matrix).len(),
    ensures
        final(matrix)@.len() == old(matrix)@.len(),
        forall|i: int, j: int|
            0 <= i < size && 0 <= j < size ==> #[trigger] entry(final(matrix)@, size as int, i, j)
                == star_entry(i, j),
        forall|x: int| size * size <= x < old(matrix)@.len() ==> #[trigger] final(matrix)@[x] == old(
            matrix,
        )@[x],
{
    let ghost m0 = matrix@;
    let ghost n = size as int;
    let len = matrix.len();
    let mut i: usize = 0;
    while i < size
        invariant
            0 <= i <= size,
            n == size,
            len == matrix@.len(),
            matrix@.len() == m0.len(),
            size * size <= len,
            forall|a: int, b: int|
                0 <= a < n && 0 <= b < n ==> #[trigger] entry(matrix@, n, a, b) == if a < i
                    || b < i {
                    star_entry(a, b)
                } else {
                    entry(m0, n, a, b)
                },
            forall|x: int| n * n <= x < m0.len() ==> #[trigger] matrix@[x] == m0[x],
        decreases size - i,
    {
        let mut j: usize = i;
        while j < size
            invariant
                0 <= i < size,
                i <= j <= size,
                n == size,
                len == matrix@.len(),
                matrix@.len() == m0.len(),
                size * size <= len,
                forall|a: int, b: int|
                    0 <= a < n && 0 <= b < n ==> #[trigger] entry(matrix@, n, a, b) == if a < i
                        || b < i || (a == i && b < j) || (b == i && a < j) {
                        star_entry(a, b)
                    } else {
                        entry(m0, n, a, b)
                    },
                forall|x: int| n * n <= x < m0.len() ==> #[trigger] matrix@[x] == m0[x],
            decreases size - j,
        {
            proof {
                lemma_flat_index_bound(i as int, j as int, n);
                lemma_flat_index_bound(j as int, i as int, n);
            }
            let v: i32 = if i == j {
                0
            } else if i == 0 {
                j as i32
            } else {
                -1
            };
            let ghost before = matrix@;
            matrix[i * size + j] = v;
            matrix[j * size + i] = matrix[i * size + j];
            proof {
                assert(v == star_entry(i as int, j as int));
                assert(star_entry(j as int, i as int) == star_entry(i as int, j as int));
                assert forall|a: int, b: int| 0 <= a < n && 0 <= b < n implies #[trigger] entry(
                    matrix@,
                    n,
                    a,
                    b,
                ) == if a < i || b < i || (a == i && b < j + 1) || (b == i && a < j + 1) {
                    star_entry(a, b)
                } else {
                    entry(m0, n, a, b)
                } by {
                    lemma_flat_index_bound(a, b, n);
                    if a != i || b != j {
                        lemma_flat_index_distinct(i as int, j as int, a, b, n);
                    }
                    if a != j || b != i {
                        lemma_flat_index_distinct(j as int, i as int, a, b, n);
                    }
                    assert(entry(before, n, a, b) == before[a * n + b]);
                }
                assert forall|x: int| n * n <= x < m0.len() implies #[trigger] matrix@[x] == m0[x] by {
                    assert(before[x] == m0[x]);
                }
            }
            j = j + 1;
        }
        i = i + 1;
    }
}

/// Whether Floyd's algorithm on the `size`-by-`size` matrix in `matrix`
/// forms only sums that fit in an `i32`: the condition under which it can
/// run. The matrix itself is left unchanged.
pub fn floyd_fits_check(matrix: &[i32], size: usize) -> (r: bool)
    requires
        size * size <= matrix@.len(),
    ensures
        r == floyd_fits(as_ints(matrix@), size as int, size as nat),
{
    let ghost s0 = as_ints(matrix@);
    let ghost n = size as int;
    let len = matrix.len();
    let mut work: Vec<i32> = Vec::new();
    let mut t: usize = 0;
    while t < len
        invariant
            0 <= t <= len,
            len == matrix@.len(),
            work@.len() == t,
            forall|x: int| 0 <= x < t ==> #[trigger] work@[x] == matrix@[x],
        decreases len - t,
    {
        work.push(matrix[t]);
        t = t + 1;
    }
    assert(work@ =~= matrix@);
    let mut k: usize = 0;
    while k < size
        invariant
            0 <= k <= size,
            n == size,
            size * size <= len,
            work@.len() == len,
            s0.len() == len,
            floyd_fits(s0, n, k as nat),
            s0 == as_ints(matrix@),
            as_ints(work@) == floyd_rounds(s0, n, k as nat),
        decreases size - k,
    {
        let ghost sk = as_ints(work@);
        let mut i: usize = 0;
        while i < size
            invariant
                0 <= k < size,
                0 <= i <= size,
                n == size,
                size * size <= len,
                work@.len() == len,
                s0.len() == len,
                s0 == as_ints(matrix@),
                floyd_fits(s0, n, k as nat),
                sk == floyd_rounds(s0, n, k as nat),
                rows_fit(sk, n, k as int, i as nat),
                as_ints(work@) == relax_rows(sk, n, k as int, i as nat),
            decreases size - i,
        {
            let ghost si = as_ints(work@);
            let mut j: usize = 0;
            while j < size
                invariant
                    0 <= k < size,
                    0 <= i < size,
                    0 <= j <= size,
                    n == size,
                    size * size <= len,
                    work@.len() == len,
                    s0.len() == len,
                    s0 == as_ints(matrix@),
                    floyd_fits(s0, n, k as nat),
                    sk == floyd_rounds(s0, n, k as nat),
                    rows_fit(sk, n, k as int, i as nat),
                    si == relax_rows(sk, n, k as int, i as nat),
                    row_fits(si, n, k as int, i as int, j as nat),
                    as_ints(work@) == relax_row(si, n, k as int, i as int, j as nat),
                decreases size - j,
            {
                proof {
                    lemma_flat_index_bound(i as int, k as int, size as int);
                    lemma_flat_index_bound(k as int, j as int, size as int);
                    lemma_flat_index_bound(i as int, j as int, size as int);
                }
                let ghost sj = as_ints(work@);
                let ik = work[i * size + k];
                let kj = work[k * size + j];
                if ik != -1 && kj != -1 {
                    match ik.checked_add(kj) {
                        None => {
                            proof {
                                assert(!relax_fits(sj, n, k as int, i as int, j as int));
                                assert(!row_fits(si, n, k as int, i as int, (j + 1) as nat));
                                if row_fits(si, n, k as int, i as int, n as nat) {
                                    lemma_row_fits_prefix(
                                        si,
                                        n,
                                        k as int,
                                        i as int,
                                        (j + 1) as nat,
                                        n as nat,
                                    );
                                }
                                assert(!rows_fit(sk, n, k as int, (i + 1) as nat));
                                if rows_fit(sk, n, k as int, n as nat) {
                                    lemma_rows_fit_prefix(sk, n, k as int, (i + 1) as nat, n as nat);
                                }
                                assert(!floyd_fits(s0, n, (k + 1) as nat));
                                if floyd_fits(s0, n, n as nat) {
                                    lemma_floyd_fits_prefix(s0, n, (k + 1) as nat, n as nat);
                                }
                                assert(!floyd_fits(s0, n, n as nat));
                                assert(n as nat == size as nat);
                            }
                            return false;
                        },
                        Some(t2) => {
                            let t1 = work[i * size + j];
                            let r = min(t1, t2);
                            work.set(i * size + j, r);
                            proof {
                                assert(as_ints(work@) =~= sj.update(i * n + j, r as int));
                            }
                        },
                    }
                }
                j = j + 1;
            }
            i = i + 1;
        }
        k = k + 1;
    }
    true
}

/// Floyd's all-pairs shortest paths on the `size`-by-`size` row-major
/// adjacency matrix held in `matrix`, in place; `-1` marks a missing edge.
pub fn serial_floyd(matrix: &mut [i32], size: usize)
    requires
        size * size <= old(matrix).len(),
        floyd_fits(as_ints(old(matrix)@), size as int, size as nat),
    ensures
        final(matrix)@.len() == old(matrix)@.len(),
        as_ints(final(matrix)@) == floyd_rounds(as_ints(old(matrix)@), size as int, size as nat),
        weights_well_formed(as_ints(old(matrix)@), size as int) ==> forall|i: int, j: int|
            0 <= i < size && 0 <= j < size ==> #[trigger] is_shortest_distance(
                as_ints(old(matrix)@),
                size as int,
                i,
                j,
                entry(final(matrix)@, size as int, i, j) as int,
            ),
{
    let ghost s0 = as_ints(matrix@);
    let ghost n = size as int;
    let len = matrix.len();
    let mut k: usize = 0;
    while k < size
        invariant
            0 <= k <= size,
            n == size,
            size * size <= matrix@.len(),
            matrix@.len() == s0.len(),
            s0.len() == len,
            floyd_fits(s0, n, size as nat),
            as_ints(matrix@) == floyd_rounds(s0, n, k as nat),
        decreases size - k,
    {
        let ghost sk = as_ints(matrix@);
        proof {
            lemma_floyd_fits_prefix(s0, n, (k + 1) as nat, size as nat);
        }
        let mut i: usize = 0;
        while i < size
            invariant
                0 <= k < size,
                0 <= i <= size,
                n == size,
                size * size <= matrix@.len(),
                matrix@.len() == s0.len(),
            s0.len() == len,
                rows_fit(sk, n, k as int, size as nat),
                as_ints(matrix@) == relax_rows(sk, n, k as int, i as nat),
            decreases size - i,
        {
            let ghost si = as_ints(matrix@);
            proof {
                lemma_rows_fit_prefix(sk, n, k as int, (i + 1) as nat, size as nat);
            }
            let mut j: usize = 0;
            while j < size
                invariant
                    0 <= k < size,
                    0 <= i < size,
                    0 <= j <= size,
                    n == size,
                    size * size <= matrix@.len(),
                    matrix@.len() == s0.len(),
            s0.len() == len,
                    row_fits(si, n, k as int, i as int, size as nat),
                    as_ints(matrix@) == relax_row(si, n, k as int, i as int, j as nat),
                decreases size - j,
            {
                proof {
                    lemma_row_fits_prefix(si, n, k as int, i as int, (j + 1) as nat, size as nat);
                    lemma_flat_index_bound(i as int, k as int, size as int);
                    lemma_flat_index_bound(k as int, j as int, size as int);
                    lemma_flat_index_bound(i as int, j as int, size as int);
                }
                let ghost sj = as_ints(matrix@);
                let ik = matrix[i * size + k];
                let kj = matrix[k * size + j];
                if ik != -1 && kj != -1 {
                    let t1 = matrix[i * size + j];
                    let t2 = ik + kj;
                    let r = min(t1, t2);
                    matrix[i * size + j] = r;
                    proof {
                        assert(as_ints(matrix@) =~= sj.update(i * n + j, r as int));
                    }
                }
                j = j + 1;
            }
            i = i + 1;
        }
        k = k + 1;
    }
    proof {
        if weights_well_formed(s0, n) {
            assert forall|i: int, j: int| 0 <= i < size && 0 <= j < size implies #[trigger] is_shortest_distance(
                s0,
                n,
                i,
                j,
                entry(matrix@, n, i, j) as int,
            ) by {
                lemma_floyd_shortest_paths(s0, n, i, j);
                lemma_flat_index_bound(i, j, n);
                assert(cell(as_ints(matrix@), n, i, j) == entry(matrix@, n, i, j) as int);
            }
        }
    }
}

} // verus!
