//! Where no face of a cell has inside and outside alternating around it, the
//! closed surface of a sealed box is also a manifold: every directed triangle
//! side occurs exactly once, and so does its reverse.

use vstd::prelude::*;
use crate::grid::node_total;
use crate::dc::{SignField, Pt, step, quad_cell, lemma_surface_prefix, lemma_cell_count, lemma_local_injective};
use crate::surface::{
    directed_count,
    sealed,
    lemma_directed_count_add,
    lemma_vertex_of,
    lemma_node_at_local,
    lemma_node_at,
    lemma_sealed_quad,
    lemma_closed_surface,
};

verus! {

/// 1 if the step from `x` to `y` is the step from `a` to `b`.
pub open spec fn hit(x: Pt, y: Pt, a: Pt, b: Pt) -> int {
    if x == a && y == b {
        1
    } else {
        0
    }
}

/// The `s`-th cell of the quad around the edge from `p` along `ax` in the
/// order its triangles use: reversed when `rev`.
pub open spec fn ordered_cell(p: Pt, ax: int, s: int, rev: bool) -> Pt {
    if rev {
        quad_cell(p, ax, 3 - s)
    } else {
        quad_cell(p, ax, s)
    }
}

/// Sides of the quad's two triangles, `(k0, k1, k2)` and `(k0, k2, k3)`,
/// that run from cell `a` to cell `b`.
pub open spec fn quad_count(p: Pt, ax: int, rev: bool, a: Pt, b: Pt) -> int {
    let k0 = ordered_cell(p, ax, 0, rev);
    let k1 = ordered_cell(p, ax, 1, rev);
    let k2 = ordered_cell(p, ax, 2, rev);
    let k3 = ordered_cell(p, ax, 3, rev);
    hit(k0, k1, a, b) + hit(k1, k2, a, b) + hit(k2, k0, a, b) + hit(k0, k2, a, b) + hit(
        k2,
        k3,
        a,
        b,
    ) + hit(k3, k0, a, b)
}

/// The quad around the edge from `p` along `ax` is reversed.
pub open spec fn reversed(sf: &SignField, p: Pt) -> bool {
    sf.sign(p) is NonNegative
}

proof fn lemma_edge_count(sf: &SignField, p: Pt, ax: int, a: u32, b: u32)
    requires
        sf.wf(),
        sf.vertices_fit(),
    ensures
        (a >= sf.surface_cells().len() || b >= sf.surface_cells().len()) ==> directed_count(
            sf.edge_tris(p, ax),
            a,
            b,
        ) == 0,
        (a < sf.surface_cells().len() && b < sf.surface_cells().len()) ==> directed_count(
            sf.edge_tris(p, ax),
            a,
            b,
        ) == (if sf.edge_has_quad(p, ax) {
            quad_count(
                p,
                ax,
                reversed(sf, p),
                sf.surface_cells()[a as int],
                sf.surface_cells()[b as int],
            )
        } else {
            0
        }),
{
    reveal(SignField::edge_tris);
    reveal_with_fuel(directed_count, 3);
    if sf.edge_has_quad(p, ax) {
        let c0 = quad_cell(p, ax, 0);
        let c1 = quad_cell(p, ax, 1);
        let c2 = quad_cell(p, ax, 2);
        let c3 = quad_cell(p, ax, 3);
        lemma_vertex_of(sf, c0);
        lemma_vertex_of(sf, c1);
        lemma_vertex_of(sf, c2);
        lemma_vertex_of(sf, c3);
        let cells = sf.surface_cells();
        if a < cells.len() && b < cells.len() {
            let ca = cells[a as int];
            let cb = cells[b as int];
            assert((sf.quad_vertex(p, ax, 0) == a) <==> c0 == ca);
            assert((sf.quad_vertex(p, ax, 1) == a) <==> c1 == ca);
            assert((sf.quad_vertex(p, ax, 2) == a) <==> c2 == ca);
            assert((sf.quad_vertex(p, ax, 3) == a) <==> c3 == ca);
            assert((sf.quad_vertex(p, ax, 0) == b) <==> c0 == cb);
            assert((sf.quad_vertex(p, ax, 1) == b) <==> c1 == cb);
            assert((sf.quad_vertex(p, ax, 2) == b) <==> c2 == cb);
            assert((sf.quad_vertex(p, ax, 3) == b) <==> c3 == cb);
        }
    }
}

/// Sides from `a` to `b` among the triangles of the three edges leaving the
/// `t`-th node.
pub open spec fn node_count(sf: &SignField, t: int, a: u32, b: u32) -> int {
    directed_count(sf.edge_tris(sf.node_at(t), 0), a, b) + directed_count(
        sf.edge_tris(sf.node_at(t), 1),
        a,
        b,
    ) + directed_count(sf.edge_tris(sf.node_at(t), 2), a, b)
}

/// Sides from `a` to `b` among the triangles of the first `t` nodes.
pub open spec fn count_sum(sf: &SignField, t: nat, a: u32, b: u32) -> int
    decreases t,
{
    if t == 0 {
        0
    } else {
        count_sum(sf, (t - 1) as nat, a, b) + node_count(sf, t - 1, a, b)
    }
}

proof fn lemma_faces_prefix_count(sf: &SignField, t: nat, a: u32, b: u32)
    ensures
        directed_count(sf.faces_prefix(t), a, b) == count_sum(sf, t, a, b),
    decreases t,
{
    if t > 0 {
        lemma_faces_prefix_count(sf, (t - 1) as nat, a, b);
        let p = sf.node_at(t - 1);
        let prev = sf.faces_prefix((t - 1) as nat);
        let e0 = sf.edge_tris(p, 0);
        let e1 = sf.edge_tris(p, 1);
        let e2 = sf.edge_tris(p, 2);
        assert(sf.faces_prefix(t) == prev + e0 + e1 + e2);
        lemma_directed_count_add(prev + e0 + e1, e2, a, b);
        lemma_directed_count_add(prev + e0, e1, a, b);
        lemma_directed_count_add(prev, e0, a, b);
    }
}

proof fn lemma_sparse_count_sum(sf: &SignField, t: nat, a: u32, b: u32, t1: int, t2: int, t3: int)
    requires
        t1 != t2 && t1 != t3 && t2 != t3,
        forall|x: int|
            0 <= x < t && x != t1 && x != t2 && x != t3 ==> #[trigger] node_count(sf, x, a, b) == 0,
    ensures
        count_sum(sf, t, a, b) == (if 0 <= t1 < t {
            node_count(sf, t1, a, b)
        } else {
            0
        }) + (if 0 <= t2 < t {
            node_count(sf, t2, a, b)
        } else {
            0
        }) + (if 0 <= t3 < t {
            node_count(sf, t3, a, b)
        } else {
            0
        }),
    decreases t,
{
    if t > 0 {
        lemma_sparse_count_sum(sf, (t - 1) as nat, a, b, t1, t2, t3);
    }
}

/// Sides of the quad around the edge from `p` along `ax` that step from
/// cell `a` to its neighbour one step up along `w`: with `n00` the lowest
/// node of the face they share and `a1`, `b1` the two axes after `w`, the
/// kept quads of the edges from `n00 + a1` along `b1` and from `n00` along
/// `a1`, and the reversed quads of the edges from `n00` along `b1` and from
/// `n00 + b1` along `a1`.
pub open spec fn adjacent_count(p: Pt, ax: int, a: Pt, w: int, rev: bool) -> int {
    let a1 = (w + 1) % 3;
    let b1 = (w + 2) % 3;
    let n00 = step(a, w, 1);
    if !rev {
        (if ax == b1 && p == step(n00, a1, 1) {
            1int
        } else {
            0
        }) + (if ax == a1 && p == n00 {
            1int
        } else {
            0
        })
    } else {
        (if ax == b1 && p == n00 {
            1int
        } else {
            0
        }) + (if ax == a1 && p == step(n00, b1, 1) {
            1int
        } else {
            0
        })
    }
}

proof fn lemma_quad_count_adjacent(p: Pt, ax: int, rev: bool, a: Pt, w: int)
    requires
        0 <= ax < 3,
        0 <= w < 3,
    ensures
        quad_count(p, ax, rev, a, step(a, w, 1)) == adjacent_count(p, ax, a, w, rev),
{
    if ax == 0 {
        if w == 0 {
        } else if w == 1 {
        } else {
        }
    } else if ax == 1 {
        if w == 0 {
        } else if w == 1 {
        } else {
        }
    } else {
        if w == 0 {
        } else if w == 1 {
        } else {
        }
    }
}

/// Two cells share a face.
pub open spec fn face_neighbours(a: Pt, b: Pt) -> bool {
    ||| b == step(a, 0, 1)
    ||| b == step(a, 1, 1)
    ||| b == step(a, 2, 1)
    ||| a == step(b, 0, 1)
    ||| a == step(b, 1, 1)
    ||| a == step(b, 2, 1)
}

/// The larger of two integers.
pub open spec fn max_int(x: int, y: int) -> int {
    if x < y {
        y
    } else {
        x
    }
}

/// The node at the componentwise maximum of two cells' lowest nodes.
pub open spec fn top_node(a: Pt, b: Pt) -> Pt {
    (max_int(a.0, b.0), max_int(a.1, b.1), max_int(a.2, b.2))
}

/// Two distinct cells that share no face are joined by at most one side of
/// a quad, the diagonal of the quad around the grid edge that both hold,
/// which starts at their componentwise maximum along the one axis on which
/// they agree.
proof fn lemma_quad_count_apart(p: Pt, ax: int, rev: bool, a: Pt, b: Pt)
    requires
        0 <= ax < 3,
        a != b,
        !face_neighbours(a, b),
    ensures
        0 <= quad_count(p, ax, rev, a, b) <= 1,
        quad_count(p, ax, rev, a, b) > 0 ==> {
            &&& p == top_node(a, b)
            &&& (ax == 0 ==> a.0 == b.0 && a.1 != b.1 && a.2 != b.2)
            &&& (ax == 1 ==> a.1 == b.1 && a.0 != b.0 && a.2 != b.2)
            &&& (ax == 2 ==> a.2 == b.2 && a.0 != b.0 && a.1 != b.1)
        },
{
    if ax == 0 {
    } else if ax == 1 {
    } else {
    }
}

proof fn lemma_quad_count_same(p: Pt, ax: int, rev: bool, a: Pt)
    requires
        0 <= ax < 3,
    ensures
        quad_count(p, ax, rev, a, a) == 0,
{
    if ax == 0 {
    } else if ax == 1 {
    } else {
    }
}

/// No face of a cell has inside and outside alternating around its four
/// nodes.
pub open spec fn unambiguous(sf: &SignField) -> bool {
    forall|p: Pt, d1: int, d2: int|
        #![trigger sf.inside(step(step(p, d1, 1), d2, 1))]
        0 <= d1 < 3 && 0 <= d2 < 3 && d1 != d2 && sf.has_node(p) && sf.has_node(
            step(step(p, d1, 1), d2, 1),
        ) ==> !(sf.inside(p) == sf.inside(step(step(p, d1, 1), d2, 1)) && sf.inside(
            step(p, d1, 1),
        ) == sf.inside(step(p, d2, 1)) && sf.inside(p) != sf.inside(step(p, d1, 1)))
}

/// The sides from `a` to `b` at one node, in terms of cells.
pub open spec fn edge_quad_count(sf: &SignField, p: Pt, ax: int, ca: Pt, cb: Pt) -> int {
    if sf.edge_has_quad(p, ax) {
        quad_count(p, ax, reversed(sf, p), ca, cb)
    } else {
        0
    }
}

proof fn lemma_node_count_cells(sf: &SignField, a: u32, b: u32, p: Pt)
    requires
        sf.wf(),
        sf.vertices_fit(),
        a < sf.surface_cells().len(),
        b < sf.surface_cells().len(),
        sf.has_node(p),
    ensures
        node_count(sf, sf.local(p), a, b) == edge_quad_count(
            sf,
            p,
            0,
            sf.surface_cells()[a as int],
            sf.surface_cells()[b as int],
        ) + edge_quad_count(
            sf,
            p,
            1,
            sf.surface_cells()[a as int],
            sf.surface_cells()[b as int],
        ) + edge_quad_count(sf, p, 2, sf.surface_cells()[a as int], sf.surface_cells()[b as int]),
{
    lemma_node_at_local(sf, p);
    lemma_edge_count(sf, p, 0, a, b);
    lemma_edge_count(sf, p, 1, a, b);
    lemma_edge_count(sf, p, 2, a, b);
}

/// Where no node contributes, no side runs from `a` to `b`.
proof fn lemma_no_count(sf: &SignField, a: u32, b: u32)
    requires
        sf.wf(),
        sf.vertices_fit(),
        forall|t: int|
            0 <= t < node_total(sf.dims) ==> #[trigger] node_count(sf, t, a, b) == 0,
    ensures
        directed_count(sf.faces(), a, b) == 0,
{
    let total = node_total(sf.dims);
    lemma_sparse_count_sum(sf, total as nat, a, b, -1, -2, -3);
    lemma_faces_prefix_count(sf, total as nat, a, b);
}

/// Around a face that is not ambiguous, at most one quad steps from one of
/// the two cells sharing it to the other.
proof fn lemma_square_count(i00: bool, i10: bool, i01: bool, i11: bool)
    requires
        !(i00 == i11 && i10 == i01 && i00 != i10),
    ensures
        (if i00 != i10 && i00 {
            1int
        } else {
            0
        }) + (if i00 != i01 && !i00 {
            1int
        } else {
            0
        }) + (if i10 != i11 && i10 {
            1int
        } else {
            0
        }) + (if i01 != i11 && !i01 {
            1int
        } else {
            0
        }) <= 1,
{
}

/// The facts shared by the lemmas on two neighbouring cells.
pub open spec fn neighbours_up(sf: &SignField, a: u32, b: u32, w: int) -> bool {
    &&& sf.wf()
    &&& sf.vertices_fit()
    &&& a < sf.surface_cells().len()
    &&& b < sf.surface_cells().len()
    &&& 0 <= w < 3
    &&& sf.surface_cells()[b as int] == step(sf.surface_cells()[a as int], w, 1)
}

/// Between neighbouring cells, only the three nodes that start the edges of
/// the face they share carry sides from the first to the second.
#[verifier::spinoff_prover]
proof fn lemma_adjacent_count_reduce(sf: &SignField, a: u32, b: u32, w: int)
    requires
        neighbours_up(sf, a, b, w),
    ensures
        ({
            let n00 = sf.surface_cells()[b as int];
            let n10 = step(n00, (w + 1) % 3, 1);
            let n01 = step(n00, (w + 2) % 3, 1);
            &&& sf.has_node(n00) && sf.has_node(n10) && sf.has_node(n01)
            &&& sf.has_node(step(n10, (w + 2) % 3, 1))
            &&& directed_count(sf.faces(), a, b) == node_count(sf, sf.local(n00), a, b) + node_count(
                sf,
                sf.local(n10),
                a,
                b,
            ) + node_count(sf, sf.local(n01), a, b)
        }),
{
    let cells = sf.surface_cells();
    let ca = cells[a as int];
    let cb = cells[b as int];
    lemma_cell_count(sf);
    lemma_surface_prefix(sf, sf.cell_count() as nat);
    assert(sf.is_surface(cb));
    let a1 = (w + 1) % 3;
    let b1 = (w + 2) % 3;
    assert(0 <= a1 < 3 && 0 <= b1 < 3 && a1 != b1 && a1 != w && b1 != w);
    let n00 = cb;
    let n10 = step(n00, a1, 1);
    let n01 = step(n00, b1, 1);
    assert(sf.has_node(n00) && sf.has_node(n10) && sf.has_node(n01));
    assert(sf.has_node(step(n10, b1, 1)));
    lemma_node_at_local(sf, n00);
    lemma_node_at_local(sf, n10);
    lemma_node_at_local(sf, n01);
    let t00 = sf.local(n00);
    let t10 = sf.local(n10);
    let t01 = sf.local(n01);
    assert(n00 != n10 && n00 != n01 && n10 != n01);
    if t00 == t10 {
        lemma_local_injective(sf, n00, n10);
    }
    if t00 == t01 {
        lemma_local_injective(sf, n00, n01);
    }
    if t10 == t01 {
        lemma_local_injective(sf, n10, n01);
    }
    let total = node_total(sf.dims);
    assert forall|t: int|
        0 <= t < total && t != t00 && t != t10 && t != t01 implies #[trigger] node_count(
        sf,
        t,
        a,
        b,
    ) == 0 by {
        lemma_node_at(sf, t);
        let p = sf.node_at(t);
        lemma_node_count_cells(sf, a, b, p);
        let rev = reversed(sf, p);
        lemma_quad_count_adjacent(p, 0, rev, ca, w);
        lemma_quad_count_adjacent(p, 1, rev, ca, w);
        lemma_quad_count_adjacent(p, 2, rev, ca, w);
    }
    lemma_sparse_count_sum(sf, total as nat, a, b, t00, t10, t01);
    lemma_faces_prefix_count(sf, total as nat, a, b);
}

/// The sides at the face's lowest node `n00`.
proof fn lemma_adjacent_count_n00(sf: &SignField, a: u32, b: u32, w: int)
    requires
        neighbours_up(sf, a, b, w),
        sealed(sf),
    ensures
        ({
            let n00 = sf.surface_cells()[b as int];
            let n10 = step(n00, (w + 1) % 3, 1);
            let n01 = step(n00, (w + 2) % 3, 1);
            node_count(sf, sf.local(n00), a, b) == (if sf.inside(n00) != sf.inside(n10)
                && sf.inside(n00) {
                1int
            } else {
                0
            }) + (if sf.inside(n00) != sf.inside(n01) && !sf.inside(n00) {
                1int
            } else {
                0
            })
        }),
{
    let ca = sf.surface_cells()[a as int];
    let a1 = (w + 1) % 3;
    let b1 = (w + 2) % 3;
    assert(0 <= a1 < 3 && 0 <= b1 < 3 && a1 != b1 && a1 != w && b1 != w);
    let n00 = sf.surface_cells()[b as int];
    lemma_adjacent_count_reduce(sf, a, b, w);
    lemma_node_count_cells(sf, a, b, n00);
    assert(!(sf.sign(n00) is Unordered));
    let rev = reversed(sf, n00);
    lemma_quad_count_adjacent(n00, a1, rev, ca, w);
    lemma_quad_count_adjacent(n00, b1, rev, ca, w);
    lemma_quad_count_adjacent(n00, w, rev, ca, w);
    if sf.inside(n00) != sf.inside(step(n00, a1, 1)) {
        lemma_sealed_quad(sf, n00, a1);
    }
    if sf.inside(n00) != sf.inside(step(n00, b1, 1)) {
        lemma_sealed_quad(sf, n00, b1);
    }
}

/// The sides at node `n00 + a1`.
proof fn lemma_adjacent_count_n10(sf: &SignField, a: u32, b: u32, w: int)
    requires
        neighbours_up(sf, a, b, w),
        sealed(sf),
    ensures
        ({
            let n00 = sf.surface_cells()[b as int];
            let n10 = step(n00, (w + 1) % 3, 1);
            let n11 = step(n10, (w + 2) % 3, 1);
            node_count(sf, sf.local(n10), a, b) == (if sf.inside(n10) != sf.inside(n11)
                && sf.inside(n10) {
                1int
            } else {
                0
            })
        }),
{
    let ca = sf.surface_cells()[a as int];
    let a1 = (w + 1) % 3;
    let b1 = (w + 2) % 3;
    assert(0 <= a1 < 3 && 0 <= b1 < 3 && a1 != b1 && a1 != w && b1 != w);
    let n00 = sf.surface_cells()[b as int];
    let n10 = step(n00, a1, 1);
    lemma_adjacent_count_reduce(sf, a, b, w);
    lemma_node_count_cells(sf, a, b, n10);
    assert(!(sf.sign(n10) is Unordered));
    let rev = reversed(sf, n10);
    lemma_quad_count_adjacent(n10, a1, rev, ca, w);
    lemma_quad_count_adjacent(n10, b1, rev, ca, w);
    lemma_quad_count_adjacent(n10, w, rev, ca, w);
    if sf.inside(n10) != sf.inside(step(n10, b1, 1)) {
        lemma_sealed_quad(sf, n10, b1);
    }
}

/// The sides at node `n00 + b1`.
proof fn lemma_adjacent_count_n01(sf: &SignField, a: u32, b: u32, w: int)
    requires
        neighbours_up(sf, a, b, w),
        sealed(sf),
    ensures
        ({
            let n00 = sf.surface_cells()[b as int];
            let n01 = step(n00, (w + 2) % 3, 1);
            let n11 = step(n01, (w + 1) % 3, 1);
            node_count(sf, sf.local(n01), a, b) == (if sf.inside(n01) != sf.inside(n11)
                && !sf.inside(n01) {
                1int
            } else {
                0
            })
        }),
{
    let ca = sf.surface_cells()[a as int];
    let a1 = (w + 1) % 3;
    let b1 = (w + 2) % 3;
    assert(0 <= a1 < 3 && 0 <= b1 < 3 && a1 != b1 && a1 != w && b1 != w);
    let n00 = sf.surface_cells()[b as int];
    let n01 = step(n00, b1, 1);
    lemma_adjacent_count_reduce(sf, a, b, w);
    assert(sf.has_node(step(n01, a1, 1)));
    lemma_node_count_cells(sf, a, b, n01);
    assert(!(sf.sign(n01) is Unordered));
    let rev = reversed(sf, n01);
    lemma_quad_count_adjacent(n01, a1, rev, ca, w);
    lemma_quad_count_adjacent(n01, b1, rev, ca, w);
    lemma_quad_count_adjacent(n01, w, rev, ca, w);
    if sf.inside(n01) != sf.inside(step(n01, a1, 1)) {
        lemma_sealed_quad(sf, n01, a1);
    }
}

/// Between a cell and its neighbour one step up along `w`, at most one side
/// runs from the first to the second.
proof fn lemma_adjacent_at_most_one(sf: &SignField, a: u32, b: u32, w: int)
    requires
        neighbours_up(sf, a, b, w),
        sealed(sf),
        unambiguous(sf),
    ensures
        directed_count(sf.faces(), a, b) <= 1,
{
    lemma_adjacent_count_reduce(sf, a, b, w);
    lemma_adjacent_count_n00(sf, a, b, w);
    lemma_adjacent_count_n10(sf, a, b, w);
    lemma_adjacent_count_n01(sf, a, b, w);
    let a1 = (w + 1) % 3;
    let b1 = (w + 2) % 3;
    assert(0 <= a1 < 3 && 0 <= b1 < 3 && a1 != b1);
    let n00 = sf.surface_cells()[b as int];
    let n10 = step(n00, a1, 1);
    let n01 = step(n00, b1, 1);
    let n11 = step(n10, b1, 1);
    assert(n11 == step(n01, a1, 1));
    assert(sf.inside(step(step(n00, a1, 1), b1, 1)) == sf.inside(n11));
    lemma_square_count(sf.inside(n00), sf.inside(n10), sf.inside(n01), sf.inside(n11));
}

/// Two distinct cells that share no face are joined by at most one side.
#[verifier::spinoff_prover]
proof fn lemma_apart_at_most_one(sf: &SignField, a: u32, b: u32)
    requires
        sf.wf(),
        sf.vertices_fit(),
        a < sf.surface_cells().len(),
        b < sf.surface_cells().len(),
        sf.surface_cells()[a as int] != sf.surface_cells()[b as int],
        !face_neighbours(sf.surface_cells()[a as int], sf.surface_cells()[b as int]),
    ensures
        directed_count(sf.faces(), a, b) <= 1,
{
    let ca = sf.surface_cells()[a as int];
    let cb = sf.surface_cells()[b as int];
    let top = top_node(ca, cb);
    let total = node_total(sf.dims);
    let ts = if sf.has_node(top) {
        sf.local(top)
    } else {
        -1
    };
    if sf.has_node(top) {
        lemma_node_at_local(sf, top);
    }
    assert forall|t: int| 0 <= t < total && t != ts && t != -2 && t != -3 implies #[trigger] node_count(
        sf,
        t,
        a,
        b,
    ) == 0 by {
        lemma_node_at(sf, t);
        let p = sf.node_at(t);
        if p == top {
            assert(sf.has_node(top));
        }
        lemma_node_count_cells(sf, a, b, p);
        let rev = reversed(sf, p);
        lemma_quad_count_apart(p, 0, rev, ca, cb);
        lemma_quad_count_apart(p, 1, rev, ca, cb);
        lemma_quad_count_apart(p, 2, rev, ca, cb);
    }
    lemma_sparse_count_sum(sf, total as nat, a, b, ts, -2, -3);
    lemma_faces_prefix_count(sf, total as nat, a, b);
    if sf.has_node(top) {
        lemma_node_count_cells(sf, a, b, top);
        let rev = reversed(sf, top);
        lemma_quad_count_apart(top, 0, rev, ca, cb);
        lemma_quad_count_apart(top, 1, rev, ca, cb);
        lemma_quad_count_apart(top, 2, rev, ca, cb);
    }
}

/// The contoured surface of a sealed box in which no face of a cell is
/// ambiguous is a closed manifold: every directed triangle side that occurs
/// at all occurs exactly once, and so does the side running back.
pub proof fn lemma_manifold_surface(sf: &SignField, a: u32, b: u32)
    requires
        sf.wf(),
        sf.vertices_fit(),
        sealed(sf),
        unambiguous(sf),
        directed_count(sf.faces(), a, b) > 0,
    ensures
        directed_count(sf.faces(), a, b) == 1,
        directed_count(sf.faces(), b, a) == 1,
{
    lemma_closed_surface(sf, a, b);
    let cells = sf.surface_cells();
    if a >= cells.len() || b >= cells.len() {
        assert forall|t: int| 0 <= t < node_total(sf.dims) implies #[trigger] node_count(
            sf,
            t,
            a,
            b,
        ) == 0 by {
            let p = sf.node_at(t);
            lemma_edge_count(sf, p, 0, a, b);
            lemma_edge_count(sf, p, 1, a, b);
            lemma_edge_count(sf, p, 2, a, b);
        }
        lemma_no_count(sf, a, b);
        assert(false);
    } else {
        let ca = cells[a as int];
        let cb = cells[b as int];
        if ca == cb {
            assert forall|t: int| 0 <= t < node_total(sf.dims) implies #[trigger] node_count(
                sf,
                t,
                a,
                b,
            ) == 0 by {
                let p = sf.node_at(t);
                lemma_edge_count(sf, p, 0, a, b);
                lemma_edge_count(sf, p, 1, a, b);
                lemma_edge_count(sf, p, 2, a, b);
                let rev = reversed(sf, p);
                lemma_quad_count_same(p, 0, rev, ca);
                lemma_quad_count_same(p, 1, rev, ca);
                lemma_quad_count_same(p, 2, rev, ca);
            }
            lemma_no_count(sf, a, b);
            assert(false);
        } else if cb == step(ca, 0, 1) {
            lemma_adjacent_at_most_one(sf, a, b, 0);
        } else if cb == step(ca, 1, 1) {
            lemma_adjacent_at_most_one(sf, a, b, 1);
        } else if cb == step(ca, 2, 1) {
            lemma_adjacent_at_most_one(sf, a, b, 2);
        } else if ca == step(cb, 0, 1) {
            lemma_adjacent_at_most_one(sf, b, a, 0);
        } else if ca == step(cb, 1, 1) {
            lemma_adjacent_at_most_one(sf, b, a, 1);
        } else if ca == step(cb, 2, 1) {
            lemma_adjacent_at_most_one(sf, b, a, 2);
        } else {
            lemma_apart_at_most_one(sf, a, b);
        }
    }
}

} // verus!
