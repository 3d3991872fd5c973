//! Serial matrix-vector multiplication and its test data.

use vstd::prelude::*;

use crate::flat::lemma_flat_index_bound;
use crate::rng::{gen_range, thread_rng};

verus! {

/// `sum_{t < len} row[t] * v[t]`.
pub open spec fn dot(row: Seq<u64>, v: Seq<u64>, len: nat) -> int
    decreases len,
{
    if len == 0 {
        0
    } else {
        dot(row, v, (len - 1) as nat) + row[len - 1] * v[len - 1]
    }
}

/// Product of a row with a vector over the common prefix of the two,
/// as zipping them does.
pub open spec fn row_times(row: Seq<u64>, v: Seq<u64>) -> int {
    dot(row, v, if row.len() <= v.len() { row.len() } else { v.len() })
}

/// Number of rows of width `w` that a flat sequence of `len` entries
/// splits into, the last one possibly shorter.
pub open spec fn row_count(len: int, w: int) -> int {
    (len + w - 1) / w
}

/// Row `i` of the flat sequence `m` cut into rows of width `w`.
pub open spec fn row(m: Seq<u64>, w: int, i: int) -> Seq<u64> {
    m.subrange(i * w, if i * w + w <= m.len() { i * w + w } else { m.len() as int })
}

/// The products of the rows of `m`, cut to the width of `v`, with `v`.
pub open spec fn rows_times(m: Seq<u64>, v: Seq<u64>) -> Seq<int> {
    Seq::new(row_count(m.len() as int, v.len() as int) as nat, |i: int| row_times(row(m, v.len() as int, i), v))
}

/// Every value in `xs` fits in a `u64`.
pub open spec fn fits_u64(xs: Seq<int>) -> bool {
    forall|i: int| 0 <= i < xs.len() ==> #[trigger] xs[i] <= u64::MAX
}

/// The entries of a vector of `u64` taken as mathematical integers.
pub open spec fn u64s_as_ints(s: Seq<u64>) -> Seq<int> {
    s.map_values(|x: u64| x as int)
}

/// Partial sums of products of non-negative entries grow with the length.
pub proof fn lemma_dot_monotone(row: Seq<u64>, v: Seq<u64>, a: nat, b: nat)
    requires
        a <= b,
        b <= row.len(),
        b <= v.len(),
    ensures
        0 <= dot(row, v, a) <= dot(row, v, b),
    decreases b,
{
    if b > 0 {
        lemma_dot_monotone(row, v, if a < b { a } else { (b - 1) as nat }, (b - 1) as nat);
        let x = row[b - 1];
        let y = v[b - 1];
        assert(0 <= x * y) by (nonlinear_arith)
            requires
                0 <= x,
                0 <= y,
        ;
    }
}

/// `count` rows of width `w` fill `count * w` entries exactly.
pub proof fn lemma_row_count_exact(count: int, w: int)
    requires
        0 <= count,
        0 < w,
    ensures
        row_count(count * w, w) == count,
{
    let x = count * w + w - 1;
    assert(x == count * w + (w - 1));
    vstd::arithmetic::div_mod::lemma_fundamental_div_mod_converse(x, w, count, w - 1);
}

/// `row_count` is the least number of rows of width `w` that covers `len`.
pub proof fn lemma_row_count_cover(len: int, w: int, count: int)
    requires
        0 < w,
        0 < count,
        (count - 1) * w < len <= count * w,
    ensures
        row_count(len, w) == count,
{
    assert((count - 1) * w == count * w - w) by (nonlinear_arith);
    vstd::arithmetic::div_mod::lemma_fundamental_div_mod_converse(
        len + w - 1,
        w,
        count,
        len + w - 1 - count * w,
    );
}

/// `sum_{t < len} m[start + t] * v[t]`, computed left to right.
pub(crate) fn row_dot(m: &[u64], start: usize, len: usize, v: &[u64]) -> (r: u64)
    requires
        start + len <= m@.len(),
        len <= v@.len(),
        dot(m@.subrange(start as int, start + len), v@, len as nat) <= u64::MAX,
    ensures
        r == dot(m@.subrange(start as int, start + len), v@, len as nat),
{
    let ghost row = m@.subrange(start as int, start + len);
    let mlen = m.len();
    let mut acc: u64 = 0;
    let mut t: usize = 0;
    while t < len
        invariant
            0 <= t <= len,
            start + len <= m@.len(),
            m@.len() == mlen,
            len <= v@.len(),
            row == m@.subrange(start as int, start + len),
            dot(row, v@, len as nat) <= u64::MAX,
            acc == dot(row, v@, t as nat),
        decreases len - t,
    {
        proof {
            lemma_dot_monotone(row, v@, (t + 1) as nat, len as nat);
            lemma_dot_monotone(row, v@, t as nat, (t + 1) as nat);
        }
        assert(row[t as int] == m@[start + t]);
        assert(dot(row, v@, (t + 1) as nat) == dot(row, v@, t as nat) + row[t as int] * v@[t as int]);
        let a = m[start + t];
        let b = v[t];
        assert(a * b == row[t as int] * v@[t as int]);
        acc = acc + a * b;
        t = t + 1;
    }
    acc
}

/// Whether `sum_{t < len} m[start + t] * v[t]` fits in a `u64`.
pub(crate) fn row_dot_fits(m: &[u64], start: usize, len: usize, v: &[u64]) -> (r: bool)
    requires
        start + len <= m@.len(),
        len <= v@.len(),
    ensures
        r == (dot(m@.subrange(start as int, start + len), v@, len as nat) <= u64::MAX),
{
    let ghost row = m@.subrange(start as int, start + len);
    let mlen = m.len();
    let mut acc: u64 = 0;
    let mut t: usize = 0;
    while t < len
        invariant
            0 <= t <= len,
            start + len <= m@.len(),
            m@.len() == mlen,
            len <= v@.len(),
            row == m@.subrange(start as int, start + len),
            acc == dot(row, v@, t as nat),
        decreases len - t,
    {
        proof {
            lemma_dot_monotone(row, v@, (t + 1) as nat, len as nat);
            lemma_dot_monotone(row, v@, t as nat, (t + 1) as nat);
        }
        assert(row[t as int] == m@[start + t]);
        assert(dot(row, v@, (t + 1) as nat) == dot(row, v@, t as nat) + row[t as int] * v@[t as int]);
        let a = m[start + t];
        let b = v[t];
        match a.checked_mul(b) {
            None => {
                return false;
            },
            Some(p) => match acc.checked_add(p) {
                None => {
                    return false;
                },
                Some(next) => {
                    acc = next;
                },
            },
        }
        t = t + 1;
    }
    true
}

/// The product of a square matrix, stored row by row in `m`, with the
/// vector `v`.
pub fn matrix_vector_product(m: &Vec<u64>, v: &Vec<u64>) -> (res: Vec<u64>)
    requires
        m@.len() == v@.len() * v@.len(),
        v@.len() > 0,
        fits_u64(rows_times(m@, v@)),
    ensures
        res@.len() == v@.len(),
        u64s_as_ints(res@) == rows_times(m@, v@),
{
    let n = v.len();
    let mlen = m.len();
    let ghost w = n as int;
    proof {
        lemma_row_count_exact(w, w);
    }
    let mut res: Vec<u64> = Vec::new();
    let mut i: usize = 0;
    while i < n
        invariant
            0 <= i <= n,
            n == v@.len(),
            w == n,
            m@.len() == w * w,
            m@.len() == mlen,
            row_count(m@.len() as int, w) == w,
            fits_u64(rows_times(m@, v@)),
            res@.len() == i,
            forall|r: int| 0 <= r < i ==> #[trigger] res@[r] == rows_times(m@, v@)[r],
        decreases n - i,
    {
        proof {
            lemma_flat_index_bound(i as int, w - 1, w);
            assert(rows_times(m@, v@)[i as int] <= u64::MAX);
        }
        let x = row_dot(m.as_slice(), i * n, n, v.as_slice());
        res.push(x);
        i = i + 1;
    }
    assert(u64s_as_ints(res@) =~= rows_times(m@, v@));
    res
}


/// Entry `(i, j)` of the `n`-column row-major matrix `m`.
pub open spec fn at(m: Seq<u64>, n: int, i: int, j: int) -> u64 {
    m[i * n + j]
}

/// Test data: the `size`-by-`size` matrix whose row `i` holds `i`
/// everywhere, and the vector of ones.
pub fn dummy_data_init(size: u64) -> (res: (Vec<u64>, Vec<u64>))
    requires
        size * size <= usize::MAX,
    ensures
        res.0@.len() == size * size,
        forall|i: int, j: int|
            0 <= i < size && 0 <= j < size ==> #[trigger] at(res.0@, size as int, i, j) == i,
        res.1@.len() == size,
        forall|j: int| 0 <= j < size ==> #[trigger] res.1@[j] == 1,
{
    let ghost n = size as int;
    let mut m: Vec<u64> = Vec::new();
    let mut i: u64 = 0;
    while i < size
        invariant
            0 <= i <= size,
            n == size,
            size * size <= usize::MAX,
            m@.len() == i * n,
            forall|a: int, b: int| 0 <= a < i && 0 <= b < n ==> #[trigger] at(m@, n, a, b) == a,
        decreases size - i,
    {
        let mut j: u64 = 0;
        while j < size
            invariant
                0 <= i < size,
                0 <= j <= size,
                n == size,
                size * size <= usize::MAX,
                m@.len() == i * n + j,
                forall|a: int, b: int|
                    0 <= a < n && 0 <= b < n && (a < i || (a == i && b < j)) ==> #[trigger] at(
                        m@,
                        n,
                        a,
                        b,
                    ) == a,
            decreases size - j,
        {
            proof {
                lemma_flat_index_bound(i as int, j as int, n);
            }
            let ghost before = m@;
            m.push(i);
            proof {
                assert forall|a: int, b: int|
                    0 <= a < n && 0 <= b < n && (a < i || (a == i && b < j + 1)) implies #[trigger] at(
                    m@,
                    n,
                    a,
                    b,
                ) == a by {
                    lemma_flat_index_bound(a, b, n);
                    if a < i {
                        assert(a * n + b < i * n) by (nonlinear_arith)
                            requires
                                a < i,
                                0 <= b < n,
                        ;
                    }
                    if a == i && b == j {
                        assert(m@[i * n + j] == i);
                    } else {
                        assert(a * n + b < i * n + j);
                        assert(at(before, n, a, b) == a);
                        assert(m@[a * n + b] == before[a * n + b]);
                    }
                }
            }
            j = j + 1;
        }
        assert((i + 1) * n == i * n + n) by (nonlinear_arith);
        i = i + 1;
    }
    let mut v: Vec<u64> = Vec::new();
    let mut j: u64 = 0;
    while j < size
        invariant
            0 <= j <= size,
            v@.len() == j,
            forall|b: int| 0 <= b < j ==> #[trigger] v@[b] == 1,
        decreases size - j,
    {
        v.push(1);
        j = j + 1;
    }
    (m, v)
}

/// `count` values drawn uniformly from `0 .. bound`.
pub(crate) fn random_vector(rng: &mut rand::rngs::ThreadRng, count: u64, bound: u64) -> (res: Vec<u64>)
    requires
        0 < bound,
    ensures
        res@.len() == count,
        forall|i: int| 0 <= i < count ==> #[trigger] res@[i] < bound,
{
    let mut res: Vec<u64> = Vec::new();
    let mut t: u64 = 0;
    while t < count
        invariant
            0 <= t <= count,
            0 < bound,
            res@.len() == t,
            forall|i: int| 0 <= i < t ==> #[trigger] res@[i] < bound,
        decreases count - t,
    {
        let x = gen_range(rng, 0, bound);
        res.push(x);
        t = t + 1;
    }
    res
}

/// Random test data: a `size`-by-`size` matrix and a vector of `size`
/// entries, every entry drawn from `0 .. u32::MAX`.
pub fn random_data_initialization(size: u64) -> (res: (Vec<u64>, Vec<u64>))
    requires
        size * size <= usize::MAX,
    ensures
        res.0@.len() == size * size,
        forall|i: int| 0 <= i < size * size ==> #[trigger] res.0@[i] < u32::MAX,
        res.1@.len() == size,
        forall|i: int| 0 <= i < size ==> #[trigger] res.1@[i] < u32::MAX,
{
    let mut rng = thread_rng();
    let vector = random_vector(&mut rng, size, u32::MAX as u64);
    let matrix = random_vector(&mut rng, size * size, u32::MAX as u64);
    (matrix, vector)
}

/// As `random_data_initialization`, writing the matrix and the vector
/// into `matrix` and `vector`.
pub fn ref_random_data_initialization(size: u64, matrix: &mut Vec<u64>, vector: &mut Vec<u64>)
    requires
        size * size <= usize::MAX,
    ensures
        final(matrix)@.len() == size * size,
        forall|i: int| 0 <= i < size * size ==> #[trigger] final(matrix)@[i] < u32::MAX,
        final(vector)@.len() == size,
        forall|i: int| 0 <= i < size ==> #[trigger] final(vector)@[i] < u32::MAX,
{
    let mut rng = thread_rng();
    *matrix = random_vector(&mut rng, size * size, u32::MAX as u64);
    *vector = random_vector(&mut rng, size, u32::MAX as u64);
}


/// On a row all of whose first `t` entries are `c`, against ones, the
/// partial sum is `c * t`.
proof fn lemma_dot_constant_row(row: Seq<u64>, v: Seq<u64>, c: int, t: nat)
    requires
        t <= row.len(),
        t <= v.len(),
        forall|x: int| 0 <= x < t ==> #[trigger] row[x] == c,
        forall|x: int| 0 <= x < t ==> #[trigger] v[x] == 1,
    ensures
        dot(row, v, t) == c * t,
    decreases t,
{
    if t > 0 {
        lemma_dot_constant_row(row, v, c, (t - 1) as nat);
        assert(row[t - 1] == c);
        assert(v[t - 1] == 1);
        assert(c * t == c * (t - 1) + c) by (nonlinear_arith);
    } else {
        assert(c * t == 0) by (nonlinear_arith)
            requires
                t == 0,
        ;
    }
}

/// The product of the test data of `dummy_data_init`: row `i` of the
/// matrix holds `i` and the vector holds ones, so entry `i` of the
/// product is `i * n`.
pub proof fn lemma_dummy_data_product(m: Seq<u64>, v: Seq<u64>, n: nat)
    requires
        1 <= n,
        m.len() == n * n,
        v.len() == n,
        forall|i: int, j: int| 0 <= i < n && 0 <= j < n ==> #[trigger] at(m, n as int, i, j) == i,
        forall|j: int| 0 <= j < n ==> #[trigger] v[j] == 1,
    ensures
        rows_times(m, v) == Seq::new(n, |i: int| i * n),
{
    let w = n as int;
    lemma_row_count_exact(w, w);
    assert forall|i: int| 0 <= i < n implies #[trigger] rows_times(m, v)[i] == i * n by {
        lemma_flat_index_bound(i, w - 1, w);
        let r = row(m, w, i);
        assert(r == m.subrange(i * w, i * w + w));
        assert forall|x: int| 0 <= x < n implies #[trigger] r[x] == i by {
            assert(r[x] == at(m, w, i, x));
        }
        lemma_dot_constant_row(r, v, i, n);
    }
    assert(rows_times(m, v) =~= Seq::new(n, |i: int| i * n));
}

} // verus!
