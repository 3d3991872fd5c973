//! What Floyd's algorithm computes on non-negative weights: the classical
//! recurrence, and the lengths of shortest walks.

use vstd::prelude::*;

use crate::flat::{lemma_flat_index_bound, lemma_flat_index_distinct};
use crate::lab5::serial::{
    as_ints, dist_min, entry, floyd_fits, floyd_rounds, relax, relax_fits, relax_row, relax_rows,
    row_fits, rows_fit, star_entry,
};

verus! {

/// Entry `(i, j)` of the `n`-column row-major matrix `s`.
pub open spec fn cell(s: Seq<int>, n: int, i: int, j: int) -> int {
    s[i * n + j]
}

/// Every entry of the `n`-by-`n` matrix `s` is a non-negative edge weight
/// or `-1` for a missing edge.
pub open spec fn weights_well_formed(s: Seq<int>, n: int) -> bool {
    &&& 0 <= n
    &&& n * n <= s.len()
    &&& forall|i: int, j: int| 0 <= i < n && 0 <= j < n ==> #[trigger] cell(s, n, i, j) >= -1
}

/// The Floyd–Warshall recurrence: the length of the shortest path from `i`
/// to `j` whose intermediate vertices are all below `k`, or `-1`.
pub open spec fn fw_dist(s: Seq<int>, n: int, k: nat, i: int, j: int) -> int
    decreases k,
{
    if k == 0 {
        cell(s, n, i, j)
    } else {
        let m = (k - 1) as nat;
        let via = fw_dist(s, n, m, i, k - 1);
        let onward = fw_dist(s, n, m, k - 1, j);
        if via != -1 && onward != -1 {
            dist_min(fw_dist(s, n, m, i, j), via + onward)
        } else {
            fw_dist(s, n, m, i, j)
        }
    }
}

/// Cell `(i, j)` of `m` once relaxed through `k` against the values of `m`.
spec fn relaxed_cell(m: Seq<int>, n: int, k: int, i: int, j: int) -> int {
    let via = cell(m, n, i, k);
    let onward = cell(m, n, k, j);
    if via != -1 && onward != -1 {
        dist_min(cell(m, n, i, j), via + onward)
    } else {
        cell(m, n, i, j)
    }
}

/// `(i, j)` comes before `(i0, j0)` in row-major order.
spec fn before(i: int, j: int, i0: int, j0: int) -> bool {
    i < i0 || (i == i0 && j < j0)
}

/// `t` is `m` with the cells before `(i0, j0)` relaxed through `k`.
spec fn swept_until(t: Seq<int>, m: Seq<int>, n: int, k: int, i0: int, j0: int) -> bool {
    &&& t.len() == m.len()
    &&& forall|i: int, j: int|
        0 <= i < n && 0 <= j < n ==> #[trigger] cell(t, n, i, j) == if before(i, j, i0, j0) {
            relaxed_cell(m, n, k, i, j)
        } else {
            cell(m, n, i, j)
        }
}

proof fn lemma_cell_update(t: Seq<int>, n: int, i0: int, j0: int, v: int, i: int, j: int)
    requires
        0 <= i0 < n,
        0 <= j0 < n,
        0 <= i < n,
        0 <= j < n,
        n * n <= t.len(),
    ensures
        cell(t.update(i0 * n + j0, v), n, i, j) == if i == i0 && j == j0 {
            v
        } else {
            cell(t, n, i, j)
        },
{
    lemma_flat_index_bound(i0, j0, n);
    lemma_flat_index_bound(i, j, n);
    if i != i0 || j != j0 {
        lemma_flat_index_distinct(i0, j0, i, j, n);
    }
}

/// Relaxing through `k` leaves column `k` and row `k` as they were when no
/// entry is below `-1`.
proof fn lemma_pivot_cells_fixed(m: Seq<int>, n: int, k: int, i: int, j: int)
    requires
        weights_well_formed(m, n),
        0 <= k < n,
        0 <= i < n,
        0 <= j < n,
    ensures
        relaxed_cell(m, n, k, i, k) == cell(m, n, i, k),
        relaxed_cell(m, n, k, k, j) == cell(m, n, k, j),
        relaxed_cell(m, n, k, i, j) >= -1,
{
    assert(cell(m, n, i, k) >= -1);
    assert(cell(m, n, k, k) >= -1);
    assert(cell(m, n, k, j) >= -1);
    assert(cell(m, n, i, j) >= -1);
}

proof fn lemma_sweep_row(m: Seq<int>, n: int, k: int, i0: int, j0: nat)
    requires
        weights_well_formed(m, n),
        0 <= k < n,
        0 <= i0 < n,
        j0 <= n,
        swept_until(relax_rows(m, n, k, i0 as nat), m, n, k, i0, 0),
    ensures
        swept_until(relax_row(relax_rows(m, n, k, i0 as nat), n, k, i0, j0), m, n, k, i0, j0 as int),
    decreases j0,
{
    if j0 > 0 {
        let jp = j0 - 1;
        lemma_sweep_row(m, n, k, i0, jp as nat);
        let r = relax_rows(m, n, k, i0 as nat);
        let t = relax_row(r, n, k, i0, jp as nat);
        lemma_pivot_cells_fixed(m, n, k, i0, jp);
        assert(cell(t, n, i0, k) == cell(m, n, i0, k));
        assert(cell(t, n, k, jp) == cell(m, n, k, jp));
        assert(cell(t, n, i0, jp) == cell(m, n, i0, jp));
        let t2 = relax(t, n, k, i0, jp);
        assert(t2 == relax_row(r, n, k, i0, j0));
        lemma_flat_index_bound(i0, jp, n);
        assert(t2.len() == m.len());
        assert forall|i: int, j: int| 0 <= i < n && 0 <= j < n implies #[trigger] cell(t2, n, i, j)
            == if before(i, j, i0, j0 as int) {
            relaxed_cell(m, n, k, i, j)
        } else {
            cell(m, n, i, j)
        } by {
            lemma_cell_update(t, n, i0, jp, relaxed_cell(m, n, k, i0, jp), i, j);
            assert(cell(t, n, i, j) == if before(i, j, i0, jp) {
                relaxed_cell(m, n, k, i, j)
            } else {
                cell(m, n, i, j)
            });
        }
    }
}

proof fn lemma_sweep_rows(m: Seq<int>, n: int, k: int, i0: nat)
    requires
        weights_well_formed(m, n),
        0 <= k < n,
        i0 <= n,
    ensures
        swept_until(relax_rows(m, n, k, i0), m, n, k, i0 as int, 0),
    decreases i0,
{
    if i0 > 0 {
        let ip = (i0 - 1) as nat;
        lemma_sweep_rows(m, n, k, ip);
        lemma_sweep_row(m, n, k, ip as int, n as nat);
        let t = relax_rows(m, n, k, i0);
        assert forall|i: int, j: int| 0 <= i < n && 0 <= j < n implies #[trigger] cell(t, n, i, j)
            == if before(i, j, i0 as int, 0) {
            relaxed_cell(m, n, k, i, j)
        } else {
            cell(m, n, i, j)
        } by {
            assert(before(i, j, i0 as int, 0) == before(i, j, ip as int, n));
        }
    }
}

proof fn lemma_rounds_follow_recurrence(s: Seq<int>, n: int, k: nat)
    requires
        weights_well_formed(s, n),
        k <= n,
    ensures
        weights_well_formed(floyd_rounds(s, n, k), n),
        floyd_rounds(s, n, k).len() == s.len(),
        forall|i: int, j: int|
            0 <= i < n && 0 <= j < n ==> #[trigger] cell(floyd_rounds(s, n, k), n, i, j)
                == fw_dist(s, n, k, i, j),
    decreases k,
{
    if k > 0 {
        let kp = (k - 1) as nat;
        lemma_rounds_follow_recurrence(s, n, kp);
        let m = floyd_rounds(s, n, kp);
        lemma_sweep_rows(m, n, kp as int, n as nat);
        let t = floyd_rounds(s, n, k);
        assert forall|i: int, j: int| 0 <= i < n && 0 <= j < n implies #[trigger] cell(t, n, i, j)
            == fw_dist(s, n, k, i, j) && cell(t, n, i, j) >= -1 by {
            assert(before(i, j, n, 0));
            assert(cell(m, n, i, kp as int) == fw_dist(s, n, kp, i, kp as int));
            assert(cell(m, n, kp as int, j) == fw_dist(s, n, kp, kp as int, j));
            assert(cell(m, n, i, j) == fw_dist(s, n, kp, i, j));
            lemma_pivot_cells_fixed(m, n, kp as int, i, j);
        }
    }
}

/// On a matrix of non-negative weights (`-1` for a missing edge), the
/// in-place rounds give, after the first `k` of them, exactly the
/// Floyd–Warshall recurrence for intermediate vertices below `k`.
pub proof fn lemma_floyd_follows_recurrence(s: Seq<int>, n: int, k: nat)
    requires
        weights_well_formed(s, n),
        k <= n,
    ensures
        forall|i: int, j: int|
            0 <= i < n && 0 <= j < n ==> #[trigger] cell(floyd_rounds(s, n, k), n, i, j)
                == fw_dist(s, n, k, i, j),
{
    lemma_rounds_follow_recurrence(s, n, k);
}


/// Weight of the `t`-th edge of the walk `p`.
pub open spec fn edge(s: Seq<int>, n: int, p: Seq<int>, t: int) -> int {
    cell(s, n, p[t], p[t + 1])
}

/// `p` is a walk of at least one edge in the graph of `s`, over the vertices
/// `0 .. n`, every edge present (weight not `-1`) and every intermediate
/// vertex below `k`.
pub open spec fn is_walk(s: Seq<int>, n: int, k: int, p: Seq<int>) -> bool {
    &&& p.len() >= 2
    &&& forall|t: int| 0 <= t < p.len() ==> 0 <= #[trigger] p[t] < n
    &&& forall|t: int| 0 < t < p.len() - 1 ==> #[trigger] p[t] < k
    &&& forall|t: int| 0 <= t < p.len() - 1 ==> #[trigger] edge(s, n, p, t) >= 0
}

/// `p` is a walk from `i` to `j` whose intermediate vertices are below `k`.
pub open spec fn is_walk_between(s: Seq<int>, n: int, k: int, p: Seq<int>, i: int, j: int) -> bool {
    &&& is_walk(s, n, k, p)
    &&& p[0] == i
    &&& p.last() == j
}

/// Total weight of the edges of the walk `p`.
pub open spec fn walk_weight(s: Seq<int>, n: int, p: Seq<int>) -> int
    decreases p.len(),
{
    if p.len() < 2 {
        0
    } else {
        walk_weight(s, n, p.drop_last()) + cell(s, n, p[p.len() - 2], p[p.len() - 1])
    }
}

proof fn lemma_walk_weight_split(s: Seq<int>, n: int, p: Seq<int>, t: int)
    requires
        0 <= t < p.len(),
    ensures
        walk_weight(s, n, p) == walk_weight(s, n, p.subrange(0, t + 1)) + walk_weight(
            s,
            n,
            p.subrange(t, p.len() as int),
        ),
    decreases p.len(),
{
    if t == p.len() - 1 {
        assert(p.subrange(0, t + 1) =~= p);
    } else {
        let d = p.drop_last();
        lemma_walk_weight_split(s, n, d, t);
        assert(d.subrange(0, t + 1) =~= p.subrange(0, t + 1));
        let suf = p.subrange(t, p.len() as int);
        assert(suf.drop_last() =~= d.subrange(t, d.len() as int));
        assert(suf[suf.len() - 2] == p[p.len() - 2]);
        assert(suf[suf.len() - 1] == p[p.len() - 1]);
    }
}

proof fn lemma_walk_weight_nonneg(s: Seq<int>, n: int, p: Seq<int>)
    requires
        forall|t: int| 0 <= t < p.len() - 1 ==> #[trigger] edge(s, n, p, t) >= 0,
    ensures
        walk_weight(s, n, p) >= 0,
    decreases p.len(),
{
    if p.len() >= 2 {
        let d = p.drop_last();
        assert forall|t: int| 0 <= t < d.len() - 1 implies #[trigger] edge(s, n, d, t) >= 0 by {
            assert(edge(s, n, p, t) >= 0);
        }
        lemma_walk_weight_nonneg(s, n, d);
        assert(edge(s, n, p, p.len() - 2) >= 0);
    }
}

proof fn lemma_fw_at_least_minus_one(s: Seq<int>, n: int, k: nat, i: int, j: int)
    requires
        weights_well_formed(s, n),
        k <= n,
        0 <= i < n,
        0 <= j < n,
    ensures
        fw_dist(s, n, k, i, j) >= -1,
    decreases k,
{
    if k > 0 {
        let m = (k - 1) as nat;
        lemma_fw_at_least_minus_one(s, n, m, i, j);
        lemma_fw_at_least_minus_one(s, n, m, i, m as int);
        lemma_fw_at_least_minus_one(s, n, m, m as int, j);
    } else {
        assert(cell(s, n, i, j) >= -1);
    }
}

/// Relaxing through `k - 1` keeps the distances to and from `k - 1`.
proof fn lemma_fw_pivot_fixed(s: Seq<int>, n: int, k: nat, i: int)
    requires
        weights_well_formed(s, n),
        0 < k <= n,
        0 <= i < n,
    ensures
        fw_dist(s, n, k, i, k - 1) == fw_dist(s, n, (k - 1) as nat, i, k - 1),
        fw_dist(s, n, k, k - 1, i) == fw_dist(s, n, (k - 1) as nat, k - 1, i),
{
    let m = (k - 1) as nat;
    lemma_fw_at_least_minus_one(s, n, m, i, m as int);
    lemma_fw_at_least_minus_one(s, n, m, m as int, m as int);
    lemma_fw_at_least_minus_one(s, n, m, m as int, i);
}

/// Every walk is at least as long as the recurrence's distance, which
/// therefore is not `-1`.
proof fn lemma_walk_bounds_fw(s: Seq<int>, n: int, k: nat, p: Seq<int>)
    requires
        weights_well_formed(s, n),
        k <= n,
        is_walk(s, n, k as int, p),
    ensures
        fw_dist(s, n, k, p[0], p.last()) != -1,
        fw_dist(s, n, k, p[0], p.last()) <= walk_weight(s, n, p),
    decreases k, p.len(),
{
    let i = p[0];
    let j = p.last();
    assert(0 <= p[0] < n);
    assert(0 <= p[p.len() - 1] < n);
    if k == 0 {
        if p.len() > 2 {
            assert(p[1] < 0);
            assert(0 <= p[1]);
        }
        assert(p.drop_last().len() == 1);
        assert(walk_weight(s, n, p.drop_last()) == 0);
        assert(edge(s, n, p, 0) >= 0);
    } else {
        let m = (k - 1) as nat;
        let v = m as int;
        if exists|t: int| 0 < t < p.len() - 1 && p[t] == v {
            let t = choose|t: int| 0 < t < p.len() - 1 && p[t] == v;
            let pre = p.subrange(0, t + 1);
            let suf = p.subrange(t, p.len() as int);
            assert(is_walk(s, n, k as int, pre)) by {
                assert forall|u: int| 0 <= u < pre.len() - 1 implies #[trigger] edge(s, n, pre, u)
                    >= 0 by {
                    assert(edge(s, n, p, u) >= 0);
                }
                assert forall|u: int| 0 <= u < pre.len() implies 0 <= #[trigger] pre[u] < n by {
                    assert(0 <= p[u] < n);
                }
                assert forall|u: int| 0 < u < pre.len() - 1 implies #[trigger] pre[u] < k by {
                    assert(p[u] < k);
                }
            }
            assert(is_walk(s, n, k as int, suf)) by {
                assert forall|u: int| 0 <= u < suf.len() - 1 implies #[trigger] edge(s, n, suf, u)
                    >= 0 by {
                    assert(edge(s, n, p, u + t) >= 0);
                }
                assert forall|u: int| 0 <= u < suf.len() implies 0 <= #[trigger] suf[u] < n by {
                    assert(0 <= p[u + t] < n);
                }
                assert forall|u: int| 0 < u < suf.len() - 1 implies #[trigger] suf[u] < k by {
                    assert(p[u + t] < k);
                }
            }
            lemma_walk_bounds_fw(s, n, k, pre);
            lemma_walk_bounds_fw(s, n, k, suf);
            lemma_walk_weight_split(s, n, p, t);
            lemma_fw_pivot_fixed(s, n, k, i);
            lemma_fw_pivot_fixed(s, n, k, j);
            lemma_fw_at_least_minus_one(s, n, m, i, j);
            lemma_fw_at_least_minus_one(s, n, m, i, v);
            lemma_fw_at_least_minus_one(s, n, m, v, j);
            assert(pre[0] == i && pre.last() == v);
            assert(suf[0] == v && suf.last() == j);
            let a = fw_dist(s, n, m, i, v);
            let b = fw_dist(s, n, m, v, j);
            assert(a != -1 && a <= walk_weight(s, n, pre));
            assert(b != -1 && b <= walk_weight(s, n, suf));
            assert(fw_dist(s, n, k, i, j) == dist_min(fw_dist(s, n, m, i, j), a + b));
        } else {
            assert forall|u: int| 0 < u < p.len() - 1 implies #[trigger] p[u] < m by {
                assert(p[u] < k);
                assert(p[u] != v);
            }
            lemma_walk_bounds_fw(s, n, m, p);
            lemma_fw_at_least_minus_one(s, n, m, i, j);
            lemma_fw_at_least_minus_one(s, n, m, i, v);
            lemma_fw_at_least_minus_one(s, n, m, v, j);
        }
    }
}

/// A walk realising the recurrence's distance whenever it is not `-1`.
proof fn lemma_fw_realised(s: Seq<int>, n: int, k: nat, i: int, j: int) -> (p: Seq<int>)
    requires
        weights_well_formed(s, n),
        k <= n,
        0 <= i < n,
        0 <= j < n,
        fw_dist(s, n, k, i, j) != -1,
    ensures
        is_walk_between(s, n, k as int, p, i, j),
        walk_weight(s, n, p) == fw_dist(s, n, k, i, j),
    decreases k,
{
    if k == 0 {
        let p = seq![i, j];
        assert(p.drop_last() =~= seq![i]);
        assert(walk_weight(s, n, seq![i]) == 0);
        assert(edge(s, n, p, 0) == cell(s, n, i, j));
        p
    } else {
        let m = (k - 1) as nat;
        let v = m as int;
        let c = fw_dist(s, n, m, i, j);
        let a = fw_dist(s, n, m, i, v);
        let b = fw_dist(s, n, m, v, j);
        lemma_fw_at_least_minus_one(s, n, m, i, j);
        lemma_fw_at_least_minus_one(s, n, m, i, v);
        lemma_fw_at_least_minus_one(s, n, m, v, j);
        if a != -1 && b != -1 && (c == -1 || a + b < c) {
            let p1 = lemma_fw_realised(s, n, m, i, v);
            let p2 = lemma_fw_realised(s, n, m, v, j);
            let q = p1 + p2.drop_first();
            let t = p1.len() - 1;
            assert(q.subrange(0, t + 1) =~= p1);
            assert(q.subrange(t, q.len() as int) =~= p2);
            lemma_walk_weight_split(s, n, q, t);
            assert forall|u: int| 0 <= u < q.len() - 1 implies #[trigger] edge(s, n, q, u) >= 0 by {
                if u < t {
                    assert(edge(s, n, p1, u) >= 0);
                } else {
                    assert(edge(s, n, p2, u - t) >= 0);
                }
            }
            assert forall|u: int| 0 <= u < q.len() implies 0 <= #[trigger] q[u] < n by {
                if u < p1.len() {
                    assert(0 <= p1[u] < n);
                } else {
                    assert(0 <= p2[u - t] < n);
                }
            }
            assert forall|u: int| 0 < u < q.len() - 1 implies #[trigger] q[u] < k by {
                if u < t {
                    assert(p1[u] < m);
                } else if u > t {
                    assert(p2[u - t] < m);
                }
            }
            q
        } else {
            let p = lemma_fw_realised(s, n, m, i, j);
            assert forall|u: int| 0 < u < p.len() - 1 implies #[trigger] p[u] < k by {
                assert(p[u] < m);
            }
            p
        }
    }
}

/// `d` is the weight of a lightest walk from `i` to `j` in the graph of
/// `s`, or `-1` when no walk leads from `i` to `j`.
pub open spec fn is_shortest_distance(s: Seq<int>, n: int, i: int, j: int, d: int) -> bool {
    &&& d == -1 <==> !exists|p: Seq<int>| is_walk_between(s, n, n, p, i, j)
    &&& d != -1 ==> exists|p: Seq<int>|
        is_walk_between(s, n, n, p, i, j) && walk_weight(s, n, p) == d
    &&& forall|p: Seq<int>| #[trigger] is_walk_between(s, n, n, p, i, j) ==> d <= walk_weight(s, n, p)
}

/// On a matrix of non-negative weights (`-1` for a missing edge), Floyd's
/// algorithm computes shortest paths: entry `(i, j)` of the result is `-1`
/// exactly when no walk leads from `i` to `j`; otherwise some walk from `i`
/// to `j` has that weight and none has less.
pub proof fn lemma_floyd_shortest_paths(s: Seq<int>, n: int, i: int, j: int)
    requires
        weights_well_formed(s, n),
        0 <= i < n,
        0 <= j < n,
    ensures
        is_shortest_distance(s, n, i, j, cell(floyd_rounds(s, n, n as nat), n, i, j)),
{
    lemma_rounds_follow_recurrence(s, n, n as nat);
    let d = cell(floyd_rounds(s, n, n as nat), n, i, j);
    assert(d == fw_dist(s, n, n as nat, i, j));
    if d != -1 {
        let p = lemma_fw_realised(s, n, n as nat, i, j);
        assert(is_walk_between(s, n, n, p, i, j));
    }
    assert forall|p: Seq<int>| #[trigger] is_walk_between(s, n, n, p, i, j) implies d != -1 && d
        <= walk_weight(s, n, p) by {
        lemma_walk_bounds_fw(s, n, n as nat, p);
    }
}

/// A walk of more than `n` edges over `n` vertices visits some vertex twice
/// among its first `n + 1` positions.
proof fn lemma_repeated_vertex(p: Seq<int>, n: int) -> (st: (int, int))
    requires
        0 <= n,
        p.len() > n,
        forall|t: int| 0 <= t < p.len() ==> 0 <= #[trigger] p[t] < n,
    ensures
        0 <= st.0 < st.1 <= n,
        p[st.0] == p[st.1],
{
    let q = p.subrange(0, n + 1);
    if q.no_duplicates() {
        q.unique_seq_to_set();
        vstd::set_lib::lemma_int_range(0, n);
        assert(q.to_set().subset_of(vstd::set_lib::set_int_range(0, n))) by {
            assert forall|x: int| q.to_set().contains(x) implies vstd::set_lib::set_int_range(
                0,
                n,
            ).contains(x) by {
                let t = choose|t: int| 0 <= t < q.len() && q[t] == x;
                assert(0 <= p[t] < n);
            }
        }
        vstd::set_lib::lemma_len_subset(q.to_set(), vstd::set_lib::set_int_range(0, n));
        assert(false);
    }
    let (a, b) = choose|a: int, b: int| 0 <= a < q.len() && 0 <= b < q.len() && a != b && q[a] == q[b];
    if a < b {
        (a, b)
    } else {
        (b, a)
    }
}

/// The walk `p` with the cycle from position `a` back to the same vertex
/// at position `b` cut out: a walk between the same ends, no heavier.
proof fn lemma_shortcut(s: Seq<int>, n: int, k: int, p: Seq<int>, a: int, b: int) -> (p2: Seq<int>)
    requires
        weights_well_formed(s, n),
        is_walk(s, n, k, p),
        0 <= a < b <= p.len() - 2,
        p[a] == p[b],
    ensures
        p2 == p.subrange(0, a + 1) + p.subrange(b + 1, p.len() as int),
        is_walk(s, n, k, p2),
        p2[0] == p[0],
        p2.last() == p.last(),
        p2.len() == p.len() - (b - a),
        walk_weight(s, n, p2) <= walk_weight(s, n, p),
{
    let len = p.len() as int;
    let p2 = p.subrange(0, a + 1) + p.subrange(b + 1, len);
    let len2 = p2.len() as int;
    assert(len2 == len - b + a);
    assert forall|u: int| 0 <= u < len2 implies 0 <= #[trigger] p2[u] < n by {
        if u <= a {
            assert(p2[u] == p[u]);
            assert(0 <= p[u] < n);
        } else {
            assert(p2[u] == p[u + b - a]);
            assert(0 <= p[u + b - a] < n);
        }
    }
    assert forall|u: int| 0 < u < len2 - 1 implies #[trigger] p2[u] < k by {
        if u <= a {
            assert(p2[u] == p[u]);
            assert(p[u] < k);
        } else {
            assert(p2[u] == p[u + b - a]);
            assert(p[u + b - a] < k);
        }
    }
    assert forall|u: int| 0 <= u < len2 - 1 implies #[trigger] edge(s, n, p2, u) >= 0 by {
        if u < a {
            assert(edge(s, n, p2, u) == edge(s, n, p, u));
            assert(edge(s, n, p, u) >= 0);
        } else if u == a {
            assert(p2[u + 1] == p[b + 1]);
            assert(edge(s, n, p2, u) == edge(s, n, p, b));
            assert(edge(s, n, p, b) >= 0);
        } else {
            assert(edge(s, n, p2, u) == edge(s, n, p, u + b - a));
            assert(edge(s, n, p, u + b - a) >= 0);
        }
    }
    // The weight of `p2` is that of `p` without the cycle from `a` to `b`.
    lemma_walk_weight_split(s, n, p2, a);
    lemma_walk_weight_split(s, n, p, a);
    let tail = p.subrange(a, len);
    lemma_walk_weight_split(s, n, tail, b - a);
    assert(p2.subrange(0, a + 1) =~= p.subrange(0, a + 1));
    assert(p2.subrange(a, len2) =~= p.subrange(b, len));
    assert(tail.subrange(b - a, tail.len() as int) =~= p.subrange(b, len));
    let cycle = tail.subrange(0, b - a + 1);
    assert forall|u: int| 0 <= u < cycle.len() - 1 implies #[trigger] edge(s, n, cycle, u)
        >= 0 by {
        assert(edge(s, n, cycle, u) == edge(s, n, p, u + a));
        assert(edge(s, n, p, u + a) >= 0);
    }
    lemma_walk_weight_nonneg(s, n, cycle);
    p2
}

/// A walk between the same ends, with intermediate vertices among those
/// of `p`, of at most `n` edges and no heavier than `p`.
proof fn lemma_shorter_walk(s: Seq<int>, n: int, k: int, p: Seq<int>) -> (q: Seq<int>)
    requires
        weights_well_formed(s, n),
        is_walk(s, n, k, p),
    ensures
        is_walk(s, n, k, q),
        q[0] == p[0],
        q.last() == p.last(),
        q.len() <= n + 1,
        walk_weight(s, n, q) <= walk_weight(s, n, p),
    decreases p.len(),
{
    if p.len() <= n + 1 {
        p
    } else {
        let (a, b) = lemma_repeated_vertex(p, n);
        let p2 = lemma_shortcut(s, n, k, p, a, b);
        lemma_shorter_walk(s, n, k, p2)
    }
}

/// A walk whose edges weigh at most `bound` weighs at most `bound` times
/// its number of edges.
proof fn lemma_walk_weight_at_most(s: Seq<int>, n: int, p: Seq<int>, bound: int)
    requires
        p.len() >= 1,
        forall|t: int| 0 <= t < p.len() - 1 ==> #[trigger] edge(s, n, p, t) <= bound,
    ensures
        walk_weight(s, n, p) <= (p.len() - 1) * bound,
    decreases p.len(),
{
    if p.len() >= 2 {
        let d = p.drop_last();
        assert forall|t: int| 0 <= t < d.len() - 1 implies #[trigger] edge(s, n, d, t) <= bound by {
            assert(edge(s, n, p, t) <= bound);
        }
        lemma_walk_weight_at_most(s, n, d, bound);
        assert(edge(s, n, p, p.len() - 2) <= bound);
        assert((p.len() - 1) * bound == (p.len() - 2) * bound + bound) by (nonlinear_arith);
    } else {
        assert((p.len() - 1) * bound == 0) by (nonlinear_arith)
            requires
                p.len() == 1,
        ;
    }
}

/// With every weight at most `bound`, a finite distance of the recurrence
/// is at most `n * bound`: it is the weight of a walk of at most `n` edges.
proof fn lemma_fw_bounded(s: Seq<int>, n: int, k: nat, i: int, j: int, bound: int)
    requires
        weights_well_formed(s, n),
        k <= n,
        0 <= i < n,
        0 <= j < n,
        0 <= bound,
        forall|a: int, b: int| 0 <= a < n && 0 <= b < n ==> #[trigger] cell(s, n, a, b) <= bound,
    ensures
        -1 <= fw_dist(s, n, k, i, j) <= n * bound,
{
    lemma_fw_at_least_minus_one(s, n, k, i, j);
    if fw_dist(s, n, k, i, j) != -1 {
        let p = lemma_fw_realised(s, n, k, i, j);
        let q = lemma_shorter_walk(s, n, k as int, p);
        lemma_walk_bounds_fw(s, n, k, q);
        assert forall|t: int| 0 <= t < q.len() - 1 implies #[trigger] edge(s, n, q, t) <= bound by {
            assert(0 <= q[t] < n);
            assert(0 <= q[t + 1] < n);
        }
        lemma_walk_weight_at_most(s, n, q, bound);
        assert((q.len() - 1) * bound <= n * bound) by (nonlinear_arith)
            requires
                q.len() - 1 <= n,
                0 <= bound,
        ;
    }
}

/// Cells of `m` lie in `-1 ..= limit`.
spec fn cells_within(m: Seq<int>, n: int, limit: int) -> bool {
    forall|a: int, b: int| 0 <= a < n && 0 <= b < n ==> -1 <= #[trigger] cell(m, n, a, b) <= limit
}

proof fn lemma_row_fits_within(m: Seq<int>, n: int, k: int, i0: int, j0: nat, limit: int)
    requires
        weights_well_formed(m, n),
        0 <= k < n,
        0 <= i0 < n,
        j0 <= n,
        2 * limit <= i32::MAX,
        cells_within(m, n, limit),
        swept_until(relax_rows(m, n, k, i0 as nat), m, n, k, i0, 0),
    ensures
        row_fits(relax_rows(m, n, k, i0 as nat), n, k, i0, j0),
    decreases j0,
{
    if j0 > 0 {
        let jp = j0 - 1;
        lemma_row_fits_within(m, n, k, i0, jp as nat, limit);
        lemma_sweep_row(m, n, k, i0, jp as nat);
        lemma_pivot_cells_fixed(m, n, k, i0, jp);
        let t = relax_row(relax_rows(m, n, k, i0 as nat), n, k, i0, jp as nat);
        assert(cell(t, n, i0, k) == cell(m, n, i0, k));
        assert(cell(t, n, k, jp) == cell(m, n, k, jp));
        assert(-1 <= cell(m, n, i0, k) <= limit);
        assert(-1 <= cell(m, n, k, jp) <= limit);
        assert(relax_fits(t, n, k, i0, jp));
    }
}

proof fn lemma_rows_fit_within(m: Seq<int>, n: int, k: int, i0: nat, limit: int)
    requires
        weights_well_formed(m, n),
        0 <= k < n,
        i0 <= n,
        2 * limit <= i32::MAX,
        cells_within(m, n, limit),
    ensures
        rows_fit(m, n, k, i0),
    decreases i0,
{
    if i0 > 0 {
        let ip = (i0 - 1) as nat;
        lemma_rows_fit_within(m, n, k, ip, limit);
        lemma_sweep_rows(m, n, k, ip);
        lemma_row_fits_within(m, n, k, ip as int, n as nat, limit);
    }
}

proof fn lemma_floyd_fits_within(s: Seq<int>, n: int, k: nat, bound: int)
    requires
        weights_well_formed(s, n),
        k <= n,
        0 <= bound,
        2 * (n * bound) <= i32::MAX,
        forall|a: int, b: int| 0 <= a < n && 0 <= b < n ==> #[trigger] cell(s, n, a, b) <= bound,
    ensures
        floyd_fits(s, n, k),
    decreases k,
{
    if k > 0 {
        let kp = (k - 1) as nat;
        lemma_floyd_fits_within(s, n, kp, bound);
        lemma_rounds_follow_recurrence(s, n, kp);
        let m = floyd_rounds(s, n, kp);
        assert forall|a: int, b: int| 0 <= a < n && 0 <= b < n implies -1 <= #[trigger] cell(
            m,
            n,
            a,
            b,
        ) <= n * bound by {
            lemma_fw_bounded(s, n, kp, a, b, bound);
        }
        lemma_rows_fit_within(m, n, kp as int, n as nat, n * bound);
    }
}

/// With non-negative weights of at most `bound` (and `-1` for a missing
/// edge), Floyd's algorithm forms no sum outside the range of `i32` as
/// long as `2 * n * bound` fits in it: every distance it holds is the
/// weight of a walk of at most `n` edges.
pub proof fn lemma_floyd_fits_bounded_weights(s: Seq<int>, n: int, bound: int)
    requires
        weights_well_formed(s, n),
        0 <= bound,
        forall|i: int, j: int| 0 <= i < n && 0 <= j < n ==> #[trigger] cell(s, n, i, j) <= bound,
        2 * n * bound <= i32::MAX,
    ensures
        floyd_fits(s, n, n as nat),
{
    assert(2 * n * bound == 2 * (n * bound)) by (nonlinear_arith);
    lemma_floyd_fits_within(s, n, n as nat, bound);
}

/// When every round state of the in-place rounds keeps its cells in
/// `-1 ..= limit` and `2 * limit` fits in an `i32`, no sum overflows.
proof fn lemma_floyd_fits_cells_within(s: Seq<int>, n: int, k: nat, limit: int)
    requires
        weights_well_formed(s, n),
        k <= n,
        2 * limit <= i32::MAX,
        forall|r: nat| r < k ==> #[trigger] cells_within(floyd_rounds(s, n, r), n, limit),
    ensures
        floyd_fits(s, n, k),
    decreases k,
{
    if k > 0 {
        let kp = (k - 1) as nat;
        lemma_floyd_fits_cells_within(s, n, kp, limit);
        lemma_rounds_follow_recurrence(s, n, kp);
        let m = floyd_rounds(s, n, kp);
        assert(cells_within(m, n, limit));
        lemma_rows_fit_within(m, n, kp as int, n as nat, limit);
    }
}

/// The distances of the test graph: `0` on the diagonal, `i + j` elsewhere
/// (every route runs through vertex `0`).
pub open spec fn star_distance(i: int, j: int) -> int {
    if i == j {
        0
    } else {
        i + j
    }
}

proof fn lemma_star_cells(m: Seq<i32>, n: int)
    requires
        1 <= n,
        4 * n <= i32::MAX,
        n * n <= m.len(),
        forall|i: int, j: int| 0 <= i < n && 0 <= j < n ==> #[trigger] entry(m, n, i, j) == star_entry(i, j),
    ensures
        weights_well_formed(as_ints(m), n),
        forall|i: int, j: int|
            0 <= i < n && 0 <= j < n ==> #[trigger] cell(as_ints(m), n, i, j) == if i == j {
                0
            } else if i == 0 || j == 0 {
                i + j
            } else {
                -1
            },
{
    assert forall|i: int, j: int| 0 <= i < n && 0 <= j < n implies #[trigger] cell(as_ints(m), n, i, j)
        == if i == j {
        0
    } else if i == 0 || j == 0 {
        i + j
    } else {
        -1
    } by {
        lemma_flat_index_bound(i, j, n);
        assert(entry(m, n, i, j) == star_entry(i, j));
        assert(cell(as_ints(m), n, i, j) == m[i * n + j] as int);
    }
}

proof fn lemma_star_fw(s: Seq<int>, n: int, k: nat, i: int, j: int)
    requires
        1 <= k <= n,
        0 <= i < n,
        0 <= j < n,
        forall|a: int, b: int|
            0 <= a < n && 0 <= b < n ==> #[trigger] cell(s, n, a, b) == if a == b {
                0
            } else if a == 0 || b == 0 {
                a + b
            } else {
                -1
            },
    ensures
        fw_dist(s, n, k, i, j) == star_distance(i, j),
    decreases k,
{
    if k == 1 {
        assert(cell(s, n, i, 0) == i);
        assert(cell(s, n, 0, j) == j);
        assert(fw_dist(s, n, 0, i, 0) == i);
        assert(fw_dist(s, n, 0, 0, j) == j);
        assert(fw_dist(s, n, 0, i, j) == cell(s, n, i, j));
        assert(cell(s, n, i, j) == if i == j {
            0
        } else if i == 0 || j == 0 {
            i + j
        } else {
            -1
        });
    } else {
        let m = (k - 1) as nat;
        let v = m as int;
        lemma_star_fw(s, n, m, i, j);
        lemma_star_fw(s, n, m, i, v);
        lemma_star_fw(s, n, m, v, j);
        assert(fw_dist(s, n, k, i, j) == dist_min(
            star_distance(i, j),
            star_distance(i, v) + star_distance(v, j),
        ));
    }
}

/// Floyd's algorithm on the test graph of `dummy_data_initialization`, for
/// any `n` with `4 * n` within `i32`: it forms no overflowing sum, and
/// leaves `0` on the diagonal and `i + j` in cell `(i, j)` elsewhere.
pub proof fn lemma_floyd_on_test_graph(m: Seq<i32>, n: int)
    requires
        1 <= n,
        4 * n <= i32::MAX,
        n * n <= m.len(),
        forall|i: int, j: int| 0 <= i < n && 0 <= j < n ==> #[trigger] entry(m, n, i, j) == star_entry(i, j),
    ensures
        floyd_fits(as_ints(m), n, n as nat),
        forall|i: int, j: int|
            0 <= i < n && 0 <= j < n ==> #[trigger] cell(floyd_rounds(as_ints(m), n, n as nat), n, i, j)
                == star_distance(i, j),
{
    let s = as_ints(m);
    lemma_star_cells(m, n);
    assert forall|r: nat| r < n implies #[trigger] cells_within(floyd_rounds(s, n, r), n, 2 * n) by {
        lemma_rounds_follow_recurrence(s, n, r);
        assert forall|a: int, b: int| 0 <= a < n && 0 <= b < n implies -1 <= #[trigger] cell(
            floyd_rounds(s, n, r),
            n,
            a,
            b,
        ) <= 2 * n by {
            if r >= 1 {
                lemma_star_fw(s, n, r, a, b);
            }
        }
    }
    lemma_floyd_fits_cells_within(s, n, n as nat, 2 * n);
    lemma_rounds_follow_recurrence(s, n, n as nat);
    assert forall|i: int, j: int| 0 <= i < n && 0 <= j < n implies #[trigger] cell(
        floyd_rounds(s, n, n as nat),
        n,
        i,
        j,
    ) == star_distance(i, j) by {
        lemma_star_fw(s, n, n as nat, i, j);
    }
}

/// The positive part of a weight.
pub open spec fn positive_part(x: int) -> int {
    if x > 0 {
        x
    } else {
        0
    }
}

/// Sum of the positive entries `(i, 0) .. (i, c)` of row `i`.
pub open spec fn row_positive_sum(s: Seq<int>, n: int, i: int, c: nat) -> int
    decreases c,
{
    if c == 0 {
        0
    } else {
        row_positive_sum(s, n, i, (c - 1) as nat) + positive_part(cell(s, n, i, c - 1))
    }
}

/// Sum of the positive entries of rows `0 .. r`.
pub open spec fn rows_positive_sum(s: Seq<int>, n: int, r: nat) -> int
    decreases r,
{
    if r == 0 {
        0
    } else {
        rows_positive_sum(s, n, (r - 1) as nat) + row_positive_sum(s, n, r - 1, n as nat)
    }
}

/// Sum of the positive entries of the `n`-by-`n` matrix `s`.
pub open spec fn positive_weight_sum(s: Seq<int>, n: int) -> int {
    rows_positive_sum(s, n, n as nat)
}

/// Sum over the vertices in `q` of the positive entries of their rows.
spec fn sources_sum(s: Seq<int>, n: int, q: Seq<int>) -> int
    decreases q.len(),
{
    if q.len() == 0 {
        0
    } else {
        sources_sum(s, n, q.drop_last()) + row_positive_sum(s, n, q.last(), n as nat)
    }
}

proof fn lemma_row_positive_sum(s: Seq<int>, n: int, i: int, j: int, c: nat)
    requires
        0 <= j < c,
    ensures
        0 <= positive_part(cell(s, n, i, j)) <= row_positive_sum(s, n, i, c),
    decreases c,
{
    if j < c - 1 {
        lemma_row_positive_sum(s, n, i, j, (c - 1) as nat);
    } else {
        lemma_row_positive_sum_nonneg(s, n, i, (c - 1) as nat);
    }
}

proof fn lemma_row_positive_sum_nonneg(s: Seq<int>, n: int, i: int, c: nat)
    ensures
        0 <= row_positive_sum(s, n, i, c),
    decreases c,
{
    if c > 0 {
        lemma_row_positive_sum_nonneg(s, n, i, (c - 1) as nat);
    }
}

proof fn lemma_sources_sum_nonneg(s: Seq<int>, n: int, q: Seq<int>)
    ensures
        0 <= sources_sum(s, n, q),
    decreases q.len(),
{
    if q.len() > 0 {
        lemma_sources_sum_nonneg(s, n, q.drop_last());
        lemma_row_positive_sum_nonneg(s, n, q.last(), n as nat);
    }
}

proof fn lemma_sources_sum_remove(s: Seq<int>, n: int, q: Seq<int>, t: int)
    requires
        0 <= t < q.len(),
    ensures
        sources_sum(s, n, q) == row_positive_sum(s, n, q[t], n as nat) + sources_sum(
            s,
            n,
            q.remove(t),
        ),
    decreases q.len(),
{
    if t == q.len() - 1 {
        assert(q.remove(t) =~= q.drop_last());
    } else {
        let d = q.drop_last();
        lemma_sources_sum_remove(s, n, d, t);
        assert(q.remove(t).drop_last() =~= d.remove(t));
        assert(q.remove(t).last() == q.last());
    }
}

/// Distinct vertices below `r` draw at most the positive entries of the
/// rows `0 .. r`.
proof fn lemma_sources_sum_distinct(s: Seq<int>, n: int, q: Seq<int>, r: nat)
    requires
        r <= n,
        q.no_duplicates(),
        forall|t: int| 0 <= t < q.len() ==> 0 <= #[trigger] q[t] < r,
    ensures
        sources_sum(s, n, q) <= rows_positive_sum(s, n, r),
    decreases r,
{
    if r == 0 {
        if q.len() > 0 {
            assert(0 <= q[0] < r);
        }
    } else {
        let top = r - 1;
        lemma_row_positive_sum_nonneg(s, n, top, n as nat);
        if exists|t: int| 0 <= t < q.len() && q[t] == top {
            let t = choose|t: int| 0 <= t < q.len() && q[t] == top;
            let q2 = q.remove(t);
            lemma_sources_sum_remove(s, n, q, t);
            assert forall|u: int| 0 <= u < q2.len() implies 0 <= #[trigger] q2[u] < top by {
                if u < t {
                    assert(q2[u] == q[u]);
                    assert(q[u] != q[t]);
                } else {
                    assert(q2[u] == q[u + 1]);
                    assert(q[u + 1] != q[t]);
                }
                assert(0 <= q[u] < r);
                assert(0 <= q[u + 1] < r || u + 1 >= q.len());
            }
            assert(q2.no_duplicates()) by {
                assert forall|x: int, y: int|
                    0 <= x < q2.len() && 0 <= y < q2.len() && x != y implies q2[x] != q2[y] by {
                    let xo = if x < t {
                        x
                    } else {
                        x + 1
                    };
                    let yo = if y < t {
                        y
                    } else {
                        y + 1
                    };
                    assert(q2[x] == q[xo]);
                    assert(q2[y] == q[yo]);
                }
            }
            lemma_sources_sum_distinct(s, n, q2, (r - 1) as nat);
        } else {
            assert forall|u: int| 0 <= u < q.len() implies 0 <= #[trigger] q[u] < top by {
                assert(0 <= q[u] < r);
            }
            lemma_sources_sum_distinct(s, n, q, (r - 1) as nat);
        }
    }
}

/// A walk weighs at most the positive entries of the rows it leaves from.
proof fn lemma_walk_weight_sources(s: Seq<int>, n: int, p: Seq<int>)
    requires
        p.len() >= 1,
        forall|t: int| 0 <= t < p.len() ==> 0 <= #[trigger] p[t] < n,
    ensures
        walk_weight(s, n, p) <= sources_sum(s, n, p.drop_last()),
    decreases p.len(),
{
    if p.len() >= 2 {
        let d = p.drop_last();
        assert forall|t: int| 0 <= t < d.len() implies 0 <= #[trigger] d[t] < n by {
            assert(0 <= p[t] < n);
        }
        lemma_walk_weight_sources(s, n, d);
        assert(d.drop_last() == p.drop_last().drop_last());
        assert(p.drop_last().last() == p[p.len() - 2]);
        assert(0 <= p[p.len() - 1] < n);
        lemma_row_positive_sum(s, n, p[p.len() - 2], p[p.len() - 1], n as nat);
    } else {
        assert(p.drop_last().len() == 0);
    }
}

proof fn lemma_rows_positive_sum_nonneg(s: Seq<int>, n: int, r: nat)
    ensures
        0 <= rows_positive_sum(s, n, r),
    decreases r,
{
    if r > 0 {
        lemma_rows_positive_sum_nonneg(s, n, (r - 1) as nat);
        lemma_row_positive_sum_nonneg(s, n, r - 1, n as nat);
    }
}

/// A walk between the same ends, no heavier than `p`, that leaves from
/// each vertex at most once.
proof fn lemma_simple_walk(s: Seq<int>, n: int, k: int, p: Seq<int>) -> (q: Seq<int>)
    requires
        weights_well_formed(s, n),
        is_walk(s, n, k, p),
    ensures
        is_walk(s, n, k, q),
        q[0] == p[0],
        q.last() == p.last(),
        q.drop_last().no_duplicates(),
        walk_weight(s, n, q) <= walk_weight(s, n, p),
    decreases p.len(),
{
    let d = p.drop_last();
    if d.no_duplicates() {
        p
    } else {
        let (x, y) = choose|x: int, y: int|
            0 <= x < d.len() && 0 <= y < d.len() && x != y && d[x] == d[y];
        let a = if x < y {
            x
        } else {
            y
        };
        let b = if x < y {
            y
        } else {
            x
        };
        let p2 = lemma_shortcut(s, n, k, p, a, b);
        lemma_simple_walk(s, n, k, p2)
    }
}

/// A finite distance of the recurrence is at most the sum of the positive
/// weights: it is the weight of a walk leaving each vertex at most once.
proof fn lemma_fw_at_most_positive_sum(s: Seq<int>, n: int, k: nat, i: int, j: int)
    requires
        weights_well_formed(s, n),
        k <= n,
        0 <= i < n,
        0 <= j < n,
    ensures
        -1 <= fw_dist(s, n, k, i, j) <= positive_weight_sum(s, n),
{
    lemma_fw_at_least_minus_one(s, n, k, i, j);
    lemma_rows_positive_sum_nonneg(s, n, n as nat);
    if fw_dist(s, n, k, i, j) != -1 {
        let p = lemma_fw_realised(s, n, k, i, j);
        let q = lemma_simple_walk(s, n, k as int, p);
        lemma_walk_bounds_fw(s, n, k, q);
        lemma_walk_weight_sources(s, n, q);
        let d = q.drop_last();
        assert forall|t: int| 0 <= t < d.len() implies 0 <= #[trigger] d[t] < n by {
            assert(0 <= q[t] < n);
        }
        lemma_sources_sum_distinct(s, n, d, n as nat);
    }
}

/// With entries of at least `-1` (no edge) and twice the sum of the
/// positive weights within `i32`, Floyd's algorithm forms no overflowing
/// sum: every distance it holds is the weight of a simple path.
pub proof fn lemma_floyd_fits_positive_sum(s: Seq<int>, n: int)
    requires
        weights_well_formed(s, n),
        2 * positive_weight_sum(s, n) <= i32::MAX,
    ensures
        floyd_fits(s, n, n as nat),
{
    let bound = positive_weight_sum(s, n);
    assert forall|r: nat| r < n implies #[trigger] cells_within(floyd_rounds(s, n, r), n, bound) by {
        lemma_rounds_follow_recurrence(s, n, r);
        assert forall|a: int, b: int| 0 <= a < n && 0 <= b < n implies -1 <= #[trigger] cell(
            floyd_rounds(s, n, r),
            n,
            a,
            b,
        ) <= bound by {
            lemma_fw_at_most_positive_sum(s, n, r, a, b);
        }
    }
    lemma_floyd_fits_cells_within(s, n, n as nat, bound);
}

/// Joining a walk that ends at vertex `p1.last()` with one that starts
/// there gives a walk between the outer ends, of the summed weight.
proof fn lemma_join_walks(s: Seq<int>, n: int, k: int, p1: Seq<int>, p2: Seq<int>) -> (q: Seq<int>)
    requires
        is_walk(s, n, k, p1),
        is_walk(s, n, k, p2),
        p1.last() == p2[0],
        p1.last() < k,
    ensures
        is_walk(s, n, k, q),
        q[0] == p1[0],
        q.last() == p2.last(),
        walk_weight(s, n, q) == walk_weight(s, n, p1) + walk_weight(s, n, p2),
{
    let q = p1 + p2.drop_first();
    let t = p1.len() - 1;
    assert(q.subrange(0, t + 1) =~= p1);
    assert(q.subrange(t, q.len() as int) =~= p2);
    lemma_walk_weight_split(s, n, q, t);
    assert forall|u: int| 0 <= u < q.len() - 1 implies #[trigger] edge(s, n, q, u) >= 0 by {
        if u < t {
            assert(edge(s, n, q, u) == edge(s, n, p1, u));
            assert(edge(s, n, p1, u) >= 0);
        } else {
            assert(edge(s, n, q, u) == edge(s, n, p2, u - t));
            assert(edge(s, n, p2, u - t) >= 0);
        }
    }
    assert forall|u: int| 0 <= u < q.len() implies 0 <= #[trigger] q[u] < n by {
        if u < p1.len() {
            assert(0 <= p1[u] < n);
        } else {
            assert(q[u] == p2[u - t]);
            assert(0 <= p2[u - t] < n);
        }
    }
    assert forall|u: int| 0 < u < q.len() - 1 implies #[trigger] q[u] < k by {
        if u < t {
            assert(p1[u] < k);
        } else if u > t {
            assert(q[u] == p2[u - t]);
            assert(p2[u - t] < k);
        }
    }
    q
}

/// Floyd's distances obey the triangle inequality.
proof fn lemma_floyd_triangle(s: Seq<int>, n: int, i: int, v: int, j: int)
    requires
        weights_well_formed(s, n),
        0 <= i < n,
        0 <= v < n,
        0 <= j < n,
        fw_dist(s, n, n as nat, i, v) != -1,
        fw_dist(s, n, n as nat, v, j) != -1,
    ensures
        fw_dist(s, n, n as nat, i, j) != -1,
        fw_dist(s, n, n as nat, i, j) <= fw_dist(s, n, n as nat, i, v) + fw_dist(s, n, n as nat, v, j),
{
    let p1 = lemma_fw_realised(s, n, n as nat, i, v);
    let p2 = lemma_fw_realised(s, n, n as nat, v, j);
    let q = lemma_join_walks(s, n, n, p1, p2);
    lemma_walk_bounds_fw(s, n, n as nat, q);
}

/// Relaxing Floyd's result again changes nothing: the recurrence run on it
/// gives back its entries.
proof fn lemma_fw_of_result(s: Seq<int>, n: int, k: nat, i: int, j: int)
    requires
        weights_well_formed(s, n),
        k <= n,
        0 <= i < n,
        0 <= j < n,
    ensures
        fw_dist(floyd_rounds(s, n, n as nat), n, k, i, j) == fw_dist(s, n, n as nat, i, j),
    decreases k,
{
    let r = floyd_rounds(s, n, n as nat);
    lemma_rounds_follow_recurrence(s, n, n as nat);
    if k == 0 {
        assert(cell(r, n, i, j) == fw_dist(s, n, n as nat, i, j));
    } else {
        let m = (k - 1) as nat;
        let v = m as int;
        lemma_fw_of_result(s, n, m, i, j);
        lemma_fw_of_result(s, n, m, i, v);
        lemma_fw_of_result(s, n, m, v, j);
        lemma_fw_at_least_minus_one(s, n, n as nat, i, j);
        lemma_fw_at_least_minus_one(s, n, n as nat, i, v);
        lemma_fw_at_least_minus_one(s, n, n as nat, v, j);
        if fw_dist(s, n, n as nat, i, v) != -1 && fw_dist(s, n, n as nat, v, j) != -1 {
            lemma_floyd_triangle(s, n, i, v, j);
        }
    }
}

proof fn lemma_relax_row_keeps_tail(s: Seq<int>, n: int, k: int, i: int, j: nat)
    requires
        0 <= i < n,
        0 <= k < n,
        j <= n,
        n * n <= s.len(),
    ensures
        relax_row(s, n, k, i, j).len() == s.len(),
        forall|x: int| n * n <= x < s.len() ==> #[trigger] relax_row(s, n, k, i, j)[x] == s[x],
    decreases j,
{
    if j > 0 {
        lemma_relax_row_keeps_tail(s, n, k, i, (j - 1) as nat);
        lemma_flat_index_bound(i, j - 1, n);
        lemma_flat_index_bound(i, k, n);
        lemma_flat_index_bound(k, j - 1, n);
    }
}

proof fn lemma_relax_rows_keeps_tail(s: Seq<int>, n: int, k: int, i: nat)
    requires
        i <= n,
        0 <= k < n,
        n * n <= s.len(),
    ensures
        relax_rows(s, n, k, i).len() == s.len(),
        forall|x: int| n * n <= x < s.len() ==> #[trigger] relax_rows(s, n, k, i)[x] == s[x],
    decreases i,
{
    if i > 0 {
        lemma_relax_rows_keeps_tail(s, n, k, (i - 1) as nat);
        lemma_relax_row_keeps_tail(relax_rows(s, n, k, (i - 1) as nat), n, k, i - 1, n as nat);
    }
}

/// The in-place rounds leave the entries past `n * n` as they are.
proof fn lemma_rounds_keep_tail(s: Seq<int>, n: int, k: nat)
    requires
        k <= n,
        n * n <= s.len(),
    ensures
        floyd_rounds(s, n, k).len() == s.len(),
        forall|x: int| n * n <= x < s.len() ==> #[trigger] floyd_rounds(s, n, k)[x] == s[x],
    decreases k,
{
    if k > 0 {
        lemma_rounds_keep_tail(s, n, (k - 1) as nat);
        lemma_relax_rows_keeps_tail(floyd_rounds(s, n, (k - 1) as nat), n, k - 1, n as nat);
    }
}

/// Two matrices of the same length that agree on every cell of the
/// `n`-by-`n` block and past it are equal.
proof fn lemma_same_cells(a: Seq<int>, b: Seq<int>, n: int)
    requires
        0 < n,
        n * n <= a.len(),
        a.len() == b.len(),
        forall|i: int, j: int| 0 <= i < n && 0 <= j < n ==> #[trigger] cell(a, n, i, j) == cell(b, n, i, j),
        forall|x: int| n * n <= x < a.len() ==> #[trigger] a[x] == b[x],
    ensures
        a == b,
{
    assert forall|x: int| 0 <= x < a.len() implies a[x] == b[x] by {
        if x < n * n {
            vstd::arithmetic::div_mod::lemma_fundamental_div_mod(x, n);
            vstd::arithmetic::div_mod::lemma_mod_pos_bound(x, n);
            let i = x / n;
            let j = x % n;
            assert(n * i == i * n) by (nonlinear_arith);
            assert(0 <= i) by (nonlinear_arith)
                requires
                    x == n * i + j,
                    0 <= x,
                    0 <= j < n,
            ;
            assert(i < n) by (nonlinear_arith)
                requires
                    x == n * i + j,
                    x < n * n,
                    0 <= j,
                    0 < n,
            ;
            assert(cell(a, n, i, j) == cell(b, n, i, j));
        }
    }
    assert(a =~= b);
}

/// Floyd's result is closed under shortest paths: with entries of at
/// least `-1` (no edge) and twice the sum of the positive weights within
/// `i32`, running the algorithm on its own result again forms no
/// overflowing sum and leaves the result unchanged.
pub proof fn lemma_floyd_idempotent(s: Seq<int>, n: int)
    requires
        weights_well_formed(s, n),
        2 * positive_weight_sum(s, n) <= i32::MAX,
    ensures
        floyd_fits(s, n, n as nat),
        floyd_fits(floyd_rounds(s, n, n as nat), n, n as nat),
        floyd_rounds(floyd_rounds(s, n, n as nat), n, n as nat) == floyd_rounds(s, n, n as nat),
{
    let r = floyd_rounds(s, n, n as nat);
    let bound = positive_weight_sum(s, n);
    lemma_floyd_fits_positive_sum(s, n);
    lemma_rounds_follow_recurrence(s, n, n as nat);
    assert forall|k: nat| k < n implies #[trigger] cells_within(floyd_rounds(r, n, k), n, bound) by {
        lemma_rounds_follow_recurrence(r, n, k);
        assert forall|a: int, b: int| 0 <= a < n && 0 <= b < n implies -1 <= #[trigger] cell(
            floyd_rounds(r, n, k),
            n,
            a,
            b,
        ) <= bound by {
            lemma_fw_of_result(s, n, k, a, b);
            lemma_fw_at_most_positive_sum(s, n, n as nat, a, b);
        }
    }
    lemma_floyd_fits_cells_within(r, n, n as nat, bound);
    if n > 0 {
        lemma_rounds_keep_tail(r, n, n as nat);
        lemma_rounds_follow_recurrence(r, n, n as nat);
        assert forall|a: int, b: int| 0 <= a < n && 0 <= b < n implies #[trigger] cell(
            floyd_rounds(r, n, n as nat),
            n,
            a,
            b,
        ) == cell(r, n, a, b) by {
            lemma_fw_of_result(s, n, n as nat, a, b);
        }
        lemma_same_cells(floyd_rounds(r, n, n as nat), r, n);
    }
}

} // verus!
