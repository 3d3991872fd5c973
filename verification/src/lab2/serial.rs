//! Serial matrix-matrix multiplication and its test data.

use vstd::prelude::*;

use crate::flat::lemma_flat_index_bound;
use crate::lab1::serial::random_vector;
use crate::rng::thread_rng;

verus! {

/// `sum_{k < len} a(i, k) * b(k, j)` for the `n`-column row-major
/// matrices `a` and `b`.
pub open spec fn product_sum(a: Seq<u64>, b: Seq<u64>, n: int, i: int, j: int, len: nat) -> int
    decreases len,
{
    if len == 0 {
        0
    } else {
        product_sum(a, b, n, i, j, (len - 1) as nat) + a[i * n + (len - 1)] * b[(len - 1) * n + j]
    }
}

/// Entry `(i, j)` of the product of the `n`-by-`n` matrices `a` and `b`.
pub open spec fn product_entry(a: Seq<u64>, b: Seq<u64>, n: int, i: int, j: int) -> int {
    product_sum(a, b, n, i, j, n as nat)
}

proof fn lemma_product_sum_monotone(
    a: Seq<u64>,
    b: Seq<u64>,
    n: int,
    i: int,
    j: int,
    l1: nat,
    l2: nat,
)
    requires
        l1 <= l2,
    ensures
        0 <= product_sum(a, b, n, i, j, l1) <= product_sum(a, b, n, i, j, l2),
    decreases l2,
{
    if l2 > 0 {
        lemma_product_sum_monotone(
            a,
            b,
            n,
            i,
            j,
            if l1 < l2 {
                l1
            } else {
                (l2 - 1) as nat
            },
            (l2 - 1) as nat,
        );
        let x = a[i * n + (l2 - 1)];
        let y = b[(l2 - 1) * n + j];
        assert(0 <= x * y) by (nonlinear_arith)
            requires
                0 <= x,
                0 <= y,
        ;
    }
}

/// Whether every entry of the product of the `size`-by-`size` matrices
/// `m_a` and `m_b` fits in a `u128`: the condition under which the product
/// can be formed.
pub fn product_entries_fit(m_a: &[u64], m_b: &[u64], size: usize) -> (r: bool)
    requires
        size * size <= m_a@.len(),
        size * size <= m_b@.len(),
    ensures
        r == (forall|i: int, j: int|
            0 <= i < size && 0 <= j < size ==> #[trigger] product_entry(m_a@, m_b@, size as int, i, j)
                <= u128::MAX),
{
    let ghost n = size as int;
    let alen = m_a.len();
    let mut i: usize = 0;
    while i < size
        invariant
            0 <= i <= size,
            n == size,
            alen == m_a@.len(),
            size * size <= m_a@.len(),
            size * size <= m_b@.len(),
            forall|a: int, b: int|
                0 <= a < i && 0 <= b < n ==> #[trigger] product_entry(m_a@, m_b@, n, a, b)
                    <= u128::MAX,
        decreases size - i,
    {
        let mut j: usize = 0;
        while j < size
            invariant
                0 <= i < size,
                0 <= j <= size,
                n == size,
                alen == m_a@.len(),
                size * size <= m_a@.len(),
                size * size <= m_b@.len(),
                forall|a: int, b: int|
                    0 <= a < n && 0 <= b < n && (a < i || (a == i && b < j)) ==> #[trigger] product_entry(
                        m_a@,
                        m_b@,
                        n,
                        a,
                        b,
                    ) <= u128::MAX,
            decreases size - j,
        {
            let mut acc: u128 = 0;
            let mut k: usize = 0;
            while k < size
                invariant
                    0 <= i < size,
                    0 <= j < size,
                    0 <= k <= size,
                    n == size,
                    alen == m_a@.len(),
                    size * size <= m_a@.len(),
                    size * size <= m_b@.len(),
                    acc == product_sum(m_a@, m_b@, n, i as int, j as int, k as nat),
                decreases size - k,
            {
                proof {
                    lemma_flat_index_bound(i as int, k as int, n);
                    lemma_flat_index_bound(k as int, j as int, n);
                    lemma_product_sum_monotone(
                        m_a@,
                        m_b@,
                        n,
                        i as int,
                        j as int,
                        (k + 1) as nat,
                        n as nat,
                    );
                    lemma_product_sum_monotone(
                        m_a@,
                        m_b@,
                        n,
                        i as int,
                        j as int,
                        k as nat,
                        (k + 1) as nat,
                    );
                }
                let x = m_a[i * size + k] as u128;
                let y = m_b[k * size + j] as u128;
                assert(x * y == m_a@[i * n + k] * m_b@[k * n + j]);
                assert(x * y <= u128::MAX) by (nonlinear_arith)
                    requires
                        x <= u64::MAX,
                        y <= u64::MAX,
                ;
                match acc.checked_add(x * y) {
                    None => {
                        assert(product_entry(m_a@, m_b@, n, i as int, j as int) > u128::MAX);
                        return false;
                    },
                    Some(next) => {
                        acc = next;
                    },
                }
                k = k + 1;
            }
            j = j + 1;
        }
        i = i + 1;
    }
    true
}

/// The product of the `size`-by-`size` row-major matrices `m_a` and
/// `m_b`, its entries widened to `u128`.
pub fn matrix_matrix_product(m_a: &[u64], m_b: &[u64], size: usize) -> (res: Vec<u128>)
    requires
        size * size <= m_a@.len(),
        size * size <= m_b@.len(),
        forall|i: int, j: int|
            0 <= i < size && 0 <= j < size ==> #[trigger] product_entry(m_a@, m_b@, size as int, i, j)
                <= u128::MAX,
    ensures
        res@.len() == size * size,
        forall|i: int, j: int|
            0 <= i < size && 0 <= j < size ==> #[trigger] product_entry(m_a@, m_b@, size as int, i, j)
                == res@[i * size + j],
{
    let ghost n = size as int;
    let alen = m_a.len();
    let mut res: Vec<u128> = Vec::new();
    let mut i: usize = 0;
    while i < size
        invariant
            0 <= i <= size,
            n == size,
            alen == m_a@.len(),
            size * size <= m_a@.len(),
            size * size <= m_b@.len(),
            forall|a: int, b: int|
                0 <= a < n && 0 <= b < n ==> #[trigger] product_entry(m_a@, m_b@, n, a, b)
                    <= u128::MAX,
            res@.len() == i * n,
            forall|a: int, b: int|
                0 <= a < i && 0 <= b < n ==> #[trigger] product_entry(m_a@, m_b@, n, a, b)
                    == res@[a * n + b],
        decreases size - i,
    {
        let mut j: usize = 0;
        while j < size
            invariant
                0 <= i < size,
                0 <= j <= size,
                n == size,
                alen == m_a@.len(),
                size * size <= m_a@.len(),
                size * size <= m_b@.len(),
                forall|a: int, b: int|
                    0 <= a < n && 0 <= b < n ==> #[trigger] product_entry(m_a@, m_b@, n, a, b)
                        <= u128::MAX,
                res@.len() == i * n + j,
                forall|a: int, b: int|
                    0 <= a < n && 0 <= b < n && (a < i || (a == i && b < j)) ==> #[trigger] product_entry(
                        m_a@,
                        m_b@,
                        n,
                        a,
                        b,
                    ) == res@[a * n + b],
            decreases size - j,
        {
            assert(product_entry(m_a@, m_b@, n, i as int, j as int) <= u128::MAX);
            let mut acc: u128 = 0;
            let mut k: usize = 0;
            while k < size
                invariant
                    0 <= i < size,
                    0 <= j < size,
                    0 <= k <= size,
                    n == size,
                    alen == m_a@.len(),
                    size * size <= m_a@.len(),
                    size * size <= m_b@.len(),
                    product_entry(m_a@, m_b@, n, i as int, j as int) <= u128::MAX,
                    acc == product_sum(m_a@, m_b@, n, i as int, j as int, k as nat),
                decreases size - k,
            {
                proof {
                    lemma_flat_index_bound(i as int, k as int, n);
                    lemma_flat_index_bound(k as int, j as int, n);
                    lemma_product_sum_monotone(
                        m_a@,
                        m_b@,
                        n,
                        i as int,
                        j as int,
                        (k + 1) as nat,
                        n as nat,
                    );
                    lemma_product_sum_monotone(
                        m_a@,
                        m_b@,
                        n,
                        i as int,
                        j as int,
                        k as nat,
                        (k + 1) as nat,
                    );
                }
                let x = m_a[i * size + k] as u128;
                let y = m_b[k * size + j] as u128;
                assert(x * y == m_a@[i * n + k] * m_b@[k * n + j]);
                acc = acc + x * y;
                k = k + 1;
            }
            let ghost before = res@;
            res.push(acc);
            proof {
                lemma_flat_index_bound(i as int, j as int, n);
                assert forall|a: int, b: int|
                    0 <= a < n && 0 <= b < n && (a < i || (a == i && b < j + 1)) implies #[trigger] product_entry(
                    m_a@,
                    m_b@,
                    n,
                    a,
                    b,
                ) == res@[a * n + b] by {
                    lemma_flat_index_bound(a, b, n);
                    if a < i {
                        assert(a * n + b < i * n) by (nonlinear_arith)
                            requires
                                a < i,
                                0 <= b < n,
                        ;
                    }
                    if a == i && b == j {
                        assert(res@[i * n + j] == acc);
                    } else {
                        assert(a * n + b < i * n + j);
                        assert(res@[a * n + b] == before[a * n + b]);
                    }
                }
            }
            j = j + 1;
        }
        assert((i + 1) * n == i * n + n) by (nonlinear_arith);
        i = i + 1;
    }
    res
}

/// Entry `(i, j)` of the `n`-column row-major matrix `m`.
pub open spec fn entry(m: Seq<u64>, n: int, i: int, j: int) -> u64 {
    m[i * n + j]
}

/// The `size`-by-`size` matrix whose row `i` holds `i + 1` everywhere.
fn row_number_matrix(size: u64) -> (m: Vec<u64>)
    requires
        size * size <= usize::MAX,
    ensures
        m@.len() == size * size,
        forall|i: int, j: int|
            0 <= i < size && 0 <= j < size ==> #[trigger] entry(m@, size as int, i, j) == i + 1,
{
    let ghost n = size as int;
    let mut m: Vec<u64> = Vec::new();
    let mut i: u64 = 0;
    while i < size
        invariant
            0 <= i <= size,
            n == size,
            size * size <= usize::MAX,
            m@.len() == i * n,
            forall|a: int, b: int| 0 <= a < i && 0 <= b < n ==> #[trigger] entry(m@, n, a, b) == a + 1,
        decreases size - i,
    {
        let mut j: u64 = 0;
        while j < size
            invariant
                0 <= i < size,
                0 <= j <= size,
                n == size,
                size * size <= usize::MAX,
                m@.len() == i * n + j,
                forall|a: int, b: int|
                    0 <= a < n && 0 <= b < n && (a < i || (a == i && b < j)) ==> #[trigger] entry(
                        m@,
                        n,
                        a,
                        b,
                    ) == a + 1,
            decreases size - j,
        {
            proof {
                lemma_flat_index_bound(i as int, j as int, n);
            }
            let ghost before = m@;
            m.push(i + 1);
            proof {
                assert forall|a: int, b: int|
                    0 <= a < n && 0 <= b < n && (a < i || (a == i && b < j + 1)) implies #[trigger] entry(
                    m@,
                    n,
                    a,
                    b,
                ) == a + 1 by {
                    lemma_flat_index_bound(a, b, n);
                    if a < i {
                        assert(a * n + b < i * n) by (nonlinear_arith)
                            requires
                                a < i,
                                0 <= b < n,
                        ;
                    }
                    if a == i && b == j {
                        assert(m@[i * n + j] == i + 1);
                    } else {
                        assert(a * n + b < i * n + j);
                        assert(entry(before, n, a, b) == a + 1);
                        assert(m@[a * n + b] == before[a * n + b]);
                    }
                }
            }
            j = j + 1;
        }
        assert((i + 1) * n == i * n + n) by (nonlinear_arith);
        i = i + 1;
    }
    m
}

/// Test data: two `size`-by-`size` matrices whose row `i` holds `i + 1`
/// everywhere.
pub fn dummy_data_init(size: u64) -> (res: (Vec<u64>, Vec<u64>))
    requires
        size * size <= usize::MAX,
    ensures
        res.0@.len() == size * size,
        res.1@.len() == size * size,
        forall|i: int, j: int|
            0 <= i < size && 0 <= j < size ==> #[trigger] entry(res.0@, size as int, i, j) == i + 1,
        forall|i: int, j: int|
            0 <= i < size && 0 <= j < size ==> #[trigger] entry(res.1@, size as int, i, j) == i + 1,
{
    let m_a = row_number_matrix(size);
    let m_b = row_number_matrix(size);
    (m_a, m_b)
}

/// Random test data: two `size`-by-`size` matrices, every entry drawn
/// from `0 .. u16::MAX`.
pub fn random_data_initialization(size: u64) -> (res: (Vec<u64>, Vec<u64>))
    requires
        size * size <= usize::MAX,
    ensures
        res.0@.len() == size * size,
        forall|i: int| 0 <= i < size * size ==> #[trigger] res.0@[i] < u16::MAX,
        res.1@.len() == size * size,
        forall|i: int| 0 <= i < size * size ==> #[trigger] res.1@[i] < u16::MAX,
{
    let mut rng = thread_rng();
    let vector = random_vector(&mut rng, size * size, u16::MAX as u64);
    let matrix = random_vector(&mut rng, size * size, u16::MAX as u64);
    (matrix, vector)
}


proof fn lemma_row_number_sum(a: Seq<u64>, b: Seq<u64>, n: int, i: int, j: int, len: nat)
    requires
        0 <= i < n,
        0 <= j < n,
        len <= n,
        forall|r: int, c: int| 0 <= r < n && 0 <= c < n ==> #[trigger] entry(a, n, r, c) == r + 1,
        forall|r: int, c: int| 0 <= r < n && 0 <= c < n ==> #[trigger] entry(b, n, r, c) == r + 1,
    ensures
        2 * product_sum(a, b, n, i, j, len) == (i + 1) * len * (len + 1),
    decreases len,
{
    if len > 0 {
        let k = len - 1;
        lemma_row_number_sum(a, b, n, i, j, (len - 1) as nat);
        assert(entry(a, n, i, k) == i + 1);
        assert(entry(b, n, k, j) == k + 1);
        assert(a[i * n + k] * b[k * n + j] == (i + 1) * (k + 1));
        assert((i + 1) * len * (len + 1) == (i + 1) * k * (k + 1) + 2 * ((i + 1) * (k + 1)))
            by (nonlinear_arith)
            requires
                k == len - 1,
        ;
    } else {
        assert((i + 1) * len * (len + 1) == 0) by (nonlinear_arith)
            requires
                len == 0,
        ;
    }
}

/// The product of the test data of `dummy_data_init`: row `i` of the
/// first matrix holds `i + 1` and column `j` of the second holds
/// `1, 2, .., n`, so entry `(i, j)` of the product is
/// `(i + 1) * n * (n + 1) / 2`.
pub proof fn lemma_dummy_data_product(a: Seq<u64>, b: Seq<u64>, n: int, i: int, j: int)
    requires
        0 <= i < n,
        0 <= j < n,
        forall|r: int, c: int| 0 <= r < n && 0 <= c < n ==> #[trigger] entry(a, n, r, c) == r + 1,
        forall|r: int, c: int| 0 <= r < n && 0 <= c < n ==> #[trigger] entry(b, n, r, c) == r + 1,
    ensures
        product_entry(a, b, n, i, j) == (i + 1) * n * (n + 1) / 2,
{
    lemma_row_number_sum(a, b, n, i, j, n as nat);
    vstd::arithmetic::div_mod::lemma_fundamental_div_mod_converse(
        (i + 1) * n * (n + 1),
        2,
        product_entry(a, b, n, i, j),
        0,
    );
}

} // verus!
