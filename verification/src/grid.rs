//! Shape of a dense node grid: node counts per axis and the memory layout
//! (x fastest, then y, then z).

use vstd::prelude::*;
use vstd::arithmetic::div_mod::lemma_fundamental_div_mod_converse;
use vstd::arithmetic::mul::lemma_mul_strict_inequality;

verus! {

/// Flat position of node (i, j, k) in a grid with `n0` nodes along x and
/// `n1` along y: x fastest, then y, then z.
pub open spec fn flat_index(n0: int, n1: int, i: int, j: int, k: int) -> int {
    i + n0 * (j + n1 * k)
}

/// The node stored at flat position `t` (the inverse of `flat_index`).
pub open spec fn unflatten(n0: int, n1: int, t: int) -> (int, int, int) {
    (t % n0, (t / n0) % n1, (t / n0) / n1)
}

/// Number of nodes of a grid with `n` nodes per axis.
pub open spec fn node_total(n: [usize; 3]) -> int {
    n[0] * n[1] * n[2]
}

/// The product `n[0] * n[1] * n[2]`, computed left to right, stays within
/// the `usize` range at every step.
pub open spec fn product_fits(n: [usize; 3]) -> bool {
    n[0] * n[1] <= usize::MAX && node_total(n) <= usize::MAX
}

/// A node inside the grid lands strictly before the end of the storage.
pub proof fn lemma_flat_index_bound(n0: int, n1: int, n2: int, i: int, j: int, k: int)
    requires
        0 <= i < n0,
        0 <= j < n1,
        0 <= k < n2,
    ensures
        0 <= flat_index(n0, n1, i, j, k) < n0 * n1 * n2,
{
    assert(0 <= n1 * k) by (nonlinear_arith)
        requires
            0 <= n1,
            0 <= k,
    ;
    assert(j + n1 * k < n1 * n2) by (nonlinear_arith)
        requires
            0 <= j < n1,
            0 <= k < n2,
    ;
    assert(0 <= n0 * (j + n1 * k)) by (nonlinear_arith)
        requires
            0 <= n0,
            0 <= j + n1 * k,
    ;
    assert(i + n0 * (j + n1 * k) < n0 * (n1 * n2)) by (nonlinear_arith)
        requires
            0 <= i < n0,
            0 <= j + n1 * k < n1 * n2,
    ;
    assert(n0 * (n1 * n2) == n0 * n1 * n2) by (nonlinear_arith);
}

/// Reading back the node at the flat position of (i, j, k) gives (i, j, k).
pub proof fn lemma_unflatten_flat_index(n0: int, n1: int, i: int, j: int, k: int)
    requires
        0 <= i < n0,
        0 <= j < n1,
        0 <= k,
    ensures
        unflatten(n0, n1, flat_index(n0, n1, i, j, k)) == (i, j, k),
{
    let t = flat_index(n0, n1, i, j, k);
    assert(t == (j + n1 * k) * n0 + i) by (nonlinear_arith)
        requires
            t == i + n0 * (j + n1 * k),
    ;
    lemma_fundamental_div_mod_converse(t, n0, j + n1 * k, i);
    assert(j + n1 * k == k * n1 + j) by (nonlinear_arith);
    lemma_fundamental_div_mod_converse(j + n1 * k, n1, k, j);
}

/// Every flat position below the node count holds exactly one in-grid node.
pub proof fn lemma_flat_index_unflatten(n0: int, n1: int, n2: int, t: int)
    requires
        0 <= t < n0 * n1 * n2,
        0 <= n0,
        0 <= n1,
        0 <= n2,
    ensures
        0 <= unflatten(n0, n1, t).0 < n0,
        0 <= unflatten(n0, n1, t).1 < n1,
        0 <= unflatten(n0, n1, t).2 < n2,
        flat_index(n0, n1, unflatten(n0, n1, t).0, unflatten(n0, n1, t).1, unflatten(n0, n1, t).2)
            == t,
{
    assert(0 < n0 && 0 < n1) by (nonlinear_arith)
        requires
            0 <= t < n0 * n1 * n2,
            0 <= n0,
            0 <= n1,
            0 <= n2,
    ;
    let q = t / n0;
    let i = t % n0;
    let j = q % n1;
    let k = q / n1;
    assert(t == n0 * q + i && 0 <= i < n0 && 0 <= q) by (nonlinear_arith)
        requires
            0 <= t,
            0 < n0,
            q == t / n0,
            i == t % n0,
    ;
    assert(q == n1 * k + j && 0 <= j < n1 && 0 <= k) by (nonlinear_arith)
        requires
            0 <= q,
            0 < n1,
            j == q % n1,
            k == q / n1,
    ;
    assert(k < n2) by (nonlinear_arith)
        requires
            t < n0 * n1 * n2,
            t == n0 * q + i,
            q == n1 * k + j,
            0 <= i,
            0 <= j,
            0 < n0,
            0 < n1,
            0 <= k,
    ;
}

/// Distinct in-grid nodes have distinct flat positions.
pub proof fn lemma_flat_index_injective(
    n0: int,
    n1: int,
    i: int,
    j: int,
    k: int,
    i2: int,
    j2: int,
    k2: int,
)
    requires
        0 <= i < n0,
        0 <= j < n1,
        0 <= k,
        0 <= i2 < n0,
        0 <= j2 < n1,
        0 <= k2,
        flat_index(n0, n1, i, j, k) == flat_index(n0, n1, i2, j2, k2),
    ensures
        i == i2 && j == j2 && k == k2,
{
    lemma_unflatten_flat_index(n0, n1, i, j, k);
    lemma_unflatten_flat_index(n0, n1, i2, j2, k2);
}

/// Node counts of a dense grid, `n[d]` nodes along axis `d`.
pub struct GridShape {
    pub n: [usize; 3],
}

impl GridShape {
    /// Number of nodes, or `None` where the product `n[0] * n[1] * n[2]`,
    /// taken left to right, leaves the `usize` range.
    pub fn node_count(&self) -> (r: Option<usize>)
        ensures
            r matches Some(c) ==> c == node_total(self.n),
            r is None <==> !product_fits(self.n),
    {
        let a = self.n[0].checked_mul(self.n[1]);
        match a {
            Some(a) => {
                let b = a.checked_mul(self.n[2]);
                proof {
                    if b is None {
                        assert(node_total(self.n) > usize::MAX);
                    }
                }
                b
            },
            None => {
                None
            },
        }
    }

    /// Flat position of node (i, j, k) in the storage.
    pub fn idx(&self, i: usize, j: usize, k: usize) -> (r: usize)
        requires
            j + self.n[1] * k <= usize::MAX,
            flat_index(self.n[0] as int, self.n[1] as int, i as int, j as int, k as int)
                <= usize::MAX,
        ensures
            r == flat_index(self.n[0] as int, self.n[1] as int, i as int, j as int, k as int),
    {
        let n0 = self.n[0];
        let n1 = self.n[1];
        proof {
            assert(0 <= n1 * k) by (nonlinear_arith)
                requires
                    0 <= n1,
                    0 <= k,
            ;
            assert(0 <= n0 * (j + n1 * k)) by (nonlinear_arith)
                requires
                    0 <= n0,
                    0 <= j + n1 * k,
            ;
        }
        i + n0 * (j + n1 * k)
    }
}

/// Index span of the nodes along one axis whose position lies between two
/// bounds, given the first candidate index (the rounded-up lower bound, which
/// may be negative) and the last one (the rounded-down upper bound, already
/// capped at the last node, so it fits a `usize`). `None` when no node lies
/// in between.
pub fn index_span(first: i64, last: i64) -> (r: Option<(usize, usize)>)
    requires
        last <= usize::MAX,
    ensures
        r is None <==> last < (if first < 0 { 0 } else { first as int }),
        r matches Some((a, b)) ==> a == (if first < 0 { 0 } else { first as int }) && b == last,
{
    let a = if first < 0 {
        0
    } else {
        first
    };
    if last < a {
        None
    } else {
        Some((a as usize, last as usize))
    }
}

} // verus!
