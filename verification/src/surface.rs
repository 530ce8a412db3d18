//! Properties of the contoured mesh: its indices are in range; every surface
//! cell has exactly one vertex; where the field is not below zero on the
//! border of the box, the surface is closed (every directed triangle side is
//! matched by as many sides running the other way); each quad winds so that
//! its normal points from inside to outside; and swapping inside and outside
//! reverses every quad.

use vstd::prelude::*;
use crate::grid::{node_total, lemma_unflatten_flat_index, lemma_flat_index_unflatten};
use crate::dc::{
    SignField,
    Pt,
    coord,
    step,
    corner,
    quad_cell,
    lemma_surface_prefix,
    lemma_cell_count,
    lemma_cell_scan_index,
    lemma_local_bound,
    lemma_local_injective,
};

verus! {

/// Sides of triangle `t` that run from vertex `a` to vertex `b`.
pub open spec fn side_count(t: (u32, u32, u32), a: u32, b: u32) -> int {
    (if t.0 == a && t.1 == b {
        1int
    } else {
        0
    }) + (if t.1 == a && t.2 == b {
        1int
    } else {
        0
    }) + (if t.2 == a && t.0 == b {
        1int
    } else {
        0
    })
}

/// Triangle sides in `tris` that run from vertex `a` to vertex `b`.
pub open spec fn directed_count(tris: Seq<(u32, u32, u32)>, a: u32, b: u32) -> int
    decreases tris.len(),
{
    if tris.len() == 0 {
        0
    } else {
        directed_count(tris.drop_last(), a, b) + side_count(tris.last(), a, b)
    }
}

/// The box is sealed: every node's sign is ordered, and no node on the
/// border of the box is inside.
pub open spec fn sealed(sf: &SignField) -> bool {
    &&& forall|p: Pt| #[trigger] sf.has_node(p) ==> !(sf.sign(p) is Unordered)
    &&& forall|p: Pt|
        #[trigger] sf.has_node(p) && (p.0 == sf.lo[0] || p.1 == sf.lo[1] || p.2 == sf.lo[2] || p.0
            + 1 == sf.hi_at(0) || p.1 + 1 == sf.hi_at(1) || p.2 + 1 == sf.hi_at(2)) ==> !sf.inside(
            p,
        )
}

pub(crate) proof fn lemma_directed_count_add(s1: Seq<(u32, u32, u32)>, s2: Seq<(u32, u32, u32)>, a: u32, b: u32)
    ensures
        directed_count(s1 + s2, a, b) == directed_count(s1, a, b) + directed_count(s2, a, b),
    decreases s2.len(),
{
    if s2.len() == 0 {
        assert(s1 + s2 =~= s1);
    } else {
        lemma_directed_count_add(s1, s2.drop_last(), a, b);
        assert((s1 + s2).drop_last() =~= s1 + s2.drop_last());
        assert((s1 + s2).last() == s2.last());
    }
}

/// The vertex of a surface cell is its position in the list of surface
/// cells.
pub proof fn lemma_vertex_of(sf: &SignField, c: Pt)
    requires
        sf.wf(),
        sf.vertices_fit(),
        sf.is_surface(c),
    ensures
        0 <= sf.vertex_of(c) < sf.surface_cells().len(),
        sf.surface_cells()[sf.vertex_of(c)] == c,
        forall|x: int|
            0 <= x < sf.surface_cells().len() ==> ((sf.vertex_of(c) as u32 == x as u32)
                <==> #[trigger] sf.surface_cells()[x] == c),
{
    lemma_cell_count(sf);
    lemma_surface_prefix(sf, sf.cell_count() as nat);
    lemma_cell_scan_index(sf, c);
    let cells = sf.surface_cells();
    assert(cells.contains(c));
    let v = sf.vertex_of(c);
    assert(0 <= v < cells.len() && cells[v] == c);
    assert forall|x: int| 0 <= x < cells.len() implies ((v as u32 == x as u32) <==> #[trigger] cells[x]
        == c) by {
        if cells[x] == c {
            assert(x == v);
        }
    }
}

/// The mesh's indices: every triangle corner names a vertex.
pub proof fn lemma_faces_in_range(sf: &SignField)
    requires
        sf.wf(),
    ensures
        forall|x: int|
            0 <= x < sf.faces().len() ==> {
                &&& (#[trigger] sf.faces()[x]).0 < sf.surface_cells().len()
                &&& sf.faces()[x].1 < sf.surface_cells().len()
                &&& sf.faces()[x].2 < sf.surface_cells().len()
            },
{
    lemma_faces_prefix_in_range(sf, node_total(sf.dims) as nat);
}

proof fn lemma_faces_prefix_in_range(sf: &SignField, t: nat)
    requires
        sf.wf(),
    ensures
        forall|x: int|
            0 <= x < sf.faces_prefix(t).len() ==> {
                &&& (#[trigger] sf.faces_prefix(t)[x]).0 < sf.surface_cells().len()
                &&& sf.faces_prefix(t)[x].1 < sf.surface_cells().len()
                &&& sf.faces_prefix(t)[x].2 < sf.surface_cells().len()
            },
    decreases t,
{
    if t > 0 {
        lemma_faces_prefix_in_range(sf, (t - 1) as nat);
        let p = sf.node_at(t - 1);
        lemma_edge_tris_in_range(sf, p, 0);
        lemma_edge_tris_in_range(sf, p, 1);
        lemma_edge_tris_in_range(sf, p, 2);
        let prev = sf.faces_prefix((t - 1) as nat);
        let all = sf.faces_prefix(t);
        let e0 = sf.edge_tris(p, 0);
        let e1 = sf.edge_tris(p, 1);
        let e2 = sf.edge_tris(p, 2);
        assert(all == prev + (e0 + e1 + e2));
        assert forall|x: int| 0 <= x < all.len() implies {
            &&& (#[trigger] all[x]).0 < sf.surface_cells().len()
            &&& all[x].1 < sf.surface_cells().len()
            &&& all[x].2 < sf.surface_cells().len()
        } by {
            if x < prev.len() {
                assert(all[x] == prev[x]);
            } else if x < prev.len() + e0.len() {
                assert(all[x] == e0[x - prev.len()]);
            } else if x < prev.len() + e0.len() + e1.len() {
                assert(all[x] == e1[x - prev.len() - e0.len()]);
            } else {
                assert(all[x] == e2[x - prev.len() - e0.len() - e1.len()]);
            }
        }
    }
}

proof fn lemma_edge_tris_in_range(sf: &SignField, p: Pt, ax: int)
    requires
        sf.wf(),
    ensures
        forall|x: int|
            0 <= x < sf.edge_tris(p, ax).len() ==> {
                &&& (#[trigger] sf.edge_tris(p, ax)[x]).0 < sf.surface_cells().len()
                &&& sf.edge_tris(p, ax)[x].1 < sf.surface_cells().len()
                &&& sf.edge_tris(p, ax)[x].2 < sf.surface_cells().len()
            },
{
    reveal(SignField::edge_tris);
    if sf.edge_has_quad(p, ax) && sf.vertices_fit() {
        lemma_vertex_of(sf, quad_cell(p, ax, 0));
        lemma_vertex_of(sf, quad_cell(p, ax, 1));
        lemma_vertex_of(sf, quad_cell(p, ax, 2));
        lemma_vertex_of(sf, quad_cell(p, ax, 3));
    }
}

/// Each surface cell appears once in the vertex list, and the list holds
/// exactly the surface cells.
pub proof fn lemma_one_vertex_per_surface_cell(sf: &SignField)
    requires
        sf.wf(),
    ensures
        sf.surface_cells().no_duplicates(),
        forall|c: Pt| sf.surface_cells().contains(c) <==> sf.is_surface(c),
{
    lemma_cell_count(sf);
    lemma_surface_prefix(sf, sf.cell_count() as nat);
    assert forall|c: Pt| sf.surface_cells().contains(c) <==> sf.is_surface(c) by {
        if sf.is_surface(c) {
            lemma_cell_scan_index(sf, c);
        }
    }
}


/// +1 if the step from cell `c0` to cell `c1` runs from `a` to `b`, -1 if it
/// runs from `b` to `a`, else 0.
pub open spec fn pair_flow(c0: Pt, c1: Pt, a: Pt, b: Pt) -> int {
    (if c0 == a && c1 == b {
        1int
    } else {
        0
    }) - (if c0 == b && c1 == a {
        1int
    } else {
        0
    })
}

/// Net number of times the cycle of the four cells around the edge from
/// `p` along `ax` (in unreversed order) steps from cell `a` to cell `b`.
pub open spec fn cycle_flow(p: Pt, ax: int, a: Pt, b: Pt) -> int {
    pair_flow(quad_cell(p, ax, 0), quad_cell(p, ax, 1), a, b) + pair_flow(
        quad_cell(p, ax, 1),
        quad_cell(p, ax, 2),
        a,
        b,
    ) + pair_flow(quad_cell(p, ax, 2), quad_cell(p, ax, 3), a, b) + pair_flow(
        quad_cell(p, ax, 3),
        quad_cell(p, ax, 0),
        a,
        b,
    )
}

/// `cycle_flow` from cell `a` to its neighbour one step up along `w`. Only
/// the four grid edges of the face the two cells share contribute. With
/// `n00` the lowest node of that face and `a1`, `b1` the two axes after `w`:
/// the edge from `n00 + a1` along `b1` and the edge from `n00` along `a1`
/// step from `a` to the neighbour; the edge from `n00` along `b1` and the
/// edge from `n00 + b1` along `a1` step back.
pub open spec fn adjacent_flow(p: Pt, ax: int, a: Pt, w: int) -> int {
    let a1 = (w + 1) % 3;
    let b1 = (w + 2) % 3;
    let n00 = step(a, w, 1);
    (if ax == b1 && p == step(n00, a1, 1) {
        1int
    } else {
        0
    }) - (if ax == b1 && p == n00 {
        1int
    } else {
        0
    }) + (if ax == a1 && p == n00 {
        1int
    } else {
        0
    }) - (if ax == a1 && p == step(n00, b1, 1) {
        1int
    } else {
        0
    })
}

proof fn lemma_cycle_flow_adjacent(p: Pt, ax: int, a: Pt, w: int)
    requires
        0 <= ax < 3,
        0 <= w < 3,
    ensures
        cycle_flow(p, ax, a, step(a, w, 1)) == adjacent_flow(p, ax, a, w),
{
    if ax == 0 {
        if w == 0 {
        } else if w == 1 {
        } else {
        }
    } else if ax == 1 {
        if w == 0 {
        } else if w == 1 {
        } else {
        }
    } else {
        if w == 0 {
        } else if w == 1 {
        } else {
        }
    }
}

proof fn lemma_cycle_flow_apart(p: Pt, ax: int, a: Pt, b: Pt)
    requires
        0 <= ax < 3,
        b != step(a, 0, 1) && a != step(b, 0, 1),
        b != step(a, 1, 1) && a != step(b, 1, 1),
        b != step(a, 2, 1) && a != step(b, 2, 1),
    ensures
        cycle_flow(p, ax, a, b) == 0,
{
    if ax == 0 {
    } else if ax == 1 {
    } else {
    }
}

/// The orientation of the quad around an edge that starts at `p`: 1 where
/// it is kept, -1 where it is reversed.
pub open spec fn orientation(sf: &SignField, p: Pt) -> int {
    if sf.sign(p) is NonNegative {
        -1
    } else {
        1
    }
}

/// Sides from `a` to `b` minus sides from `b` to `a`.
pub open spec fn flow(tris: Seq<(u32, u32, u32)>, a: u32, b: u32) -> int {
    directed_count(tris, a, b) - directed_count(tris, b, a)
}

proof fn lemma_edge_flow(sf: &SignField, p: Pt, ax: int, a: u32, b: u32)
    requires
        sf.wf(),
        sf.vertices_fit(),
    ensures
        (a >= sf.surface_cells().len() || b >= sf.surface_cells().len()) ==> flow(
            sf.edge_tris(p, ax),
            a,
            b,
        ) == 0,
        (a < sf.surface_cells().len() && b < sf.surface_cells().len()) ==> flow(
            sf.edge_tris(p, ax),
            a,
            b,
        ) == (if sf.edge_has_quad(p, ax) {
            orientation(sf, p) * cycle_flow(
                p,
                ax,
                sf.surface_cells()[a as int],
                sf.surface_cells()[b as int],
            )
        } else {
            0
        }),
{
    reveal(SignField::edge_tris);
    reveal_with_fuel(directed_count, 3);
    if sf.edge_has_quad(p, ax) {
        let c0 = quad_cell(p, ax, 0);
        let c1 = quad_cell(p, ax, 1);
        let c2 = quad_cell(p, ax, 2);
        let c3 = quad_cell(p, ax, 3);
        lemma_vertex_of(sf, c0);
        lemma_vertex_of(sf, c1);
        lemma_vertex_of(sf, c2);
        lemma_vertex_of(sf, c3);
        let cells = sf.surface_cells();
        if a < cells.len() && b < cells.len() {
            let ca = cells[a as int];
            let cb = cells[b as int];
            assert((sf.quad_vertex(p, ax, 0) == a) <==> c0 == ca);
            assert((sf.quad_vertex(p, ax, 1) == a) <==> c1 == ca);
            assert((sf.quad_vertex(p, ax, 2) == a) <==> c2 == ca);
            assert((sf.quad_vertex(p, ax, 3) == a) <==> c3 == ca);
            assert((sf.quad_vertex(p, ax, 0) == b) <==> c0 == cb);
            assert((sf.quad_vertex(p, ax, 1) == b) <==> c1 == cb);
            assert((sf.quad_vertex(p, ax, 2) == b) <==> c2 == cb);
            assert((sf.quad_vertex(p, ax, 3) == b) <==> c3 == cb);
        }
    }
}

/// Net flow of the three edges leaving the `t`-th node.
pub open spec fn node_flow(sf: &SignField, t: int, a: u32, b: u32) -> int {
    flow(sf.edge_tris(sf.node_at(t), 0), a, b) + flow(sf.edge_tris(sf.node_at(t), 1), a, b) + flow(
        sf.edge_tris(sf.node_at(t), 2),
        a,
        b,
    )
}

/// Net flow of the first `t` nodes.
pub open spec fn flow_sum(sf: &SignField, t: nat, a: u32, b: u32) -> int
    decreases t,
{
    if t == 0 {
        0
    } else {
        flow_sum(sf, (t - 1) as nat, a, b) + node_flow(sf, t - 1, a, b)
    }
}

proof fn lemma_faces_prefix_flow(sf: &SignField, t: nat, a: u32, b: u32)
    ensures
        flow(sf.faces_prefix(t), a, b) == flow_sum(sf, t, a, b),
    decreases t,
{
    if t > 0 {
        lemma_faces_prefix_flow(sf, (t - 1) as nat, a, b);
        let p = sf.node_at(t - 1);
        let prev = sf.faces_prefix((t - 1) as nat);
        let e0 = sf.edge_tris(p, 0);
        let e1 = sf.edge_tris(p, 1);
        let e2 = sf.edge_tris(p, 2);
        assert(sf.faces_prefix(t) == prev + e0 + e1 + e2);
        lemma_directed_count_add(prev + e0 + e1, e2, a, b);
        lemma_directed_count_add(prev + e0, e1, a, b);
        lemma_directed_count_add(prev, e0, a, b);
        lemma_directed_count_add(prev + e0 + e1, e2, b, a);
        lemma_directed_count_add(prev + e0, e1, b, a);
        lemma_directed_count_add(prev, e0, b, a);
    }
}

/// A sum whose terms vanish outside three distinct positions.
proof fn lemma_sparse_flow_sum(sf: &SignField, t: nat, a: u32, b: u32, t1: int, t2: int, t3: int)
    requires
        t1 != t2 && t1 != t3 && t2 != t3,
        forall|x: int|
            0 <= x < t && x != t1 && x != t2 && x != t3 ==> #[trigger] node_flow(sf, x, a, b) == 0,
    ensures
        flow_sum(sf, t, a, b) == (if 0 <= t1 < t {
            node_flow(sf, t1, a, b)
        } else {
            0
        }) + (if 0 <= t2 < t {
            node_flow(sf, t2, a, b)
        } else {
            0
        }) + (if 0 <= t3 < t {
            node_flow(sf, t3, a, b)
        } else {
            0
        }),
    decreases t,
{
    if t > 0 {
        lemma_sparse_flow_sum(sf, (t - 1) as nat, a, b, t1, t2, t3);
    }
}

/// Storage order visits each node of the box once.
pub(crate) proof fn lemma_node_at_local(sf: &SignField, p: Pt)
    requires
        sf.wf(),
        sf.has_node(p),
    ensures
        0 <= sf.local(p) < node_total(sf.dims),
        sf.node_at(sf.local(p)) == p,
{
    lemma_local_bound(sf, p);
    lemma_unflatten_flat_index(
        sf.dims[0] as int,
        sf.dims[1] as int,
        p.0 - sf.lo[0],
        p.1 - sf.lo[1],
        p.2 - sf.lo[2],
    );
}

pub(crate) proof fn lemma_node_at(sf: &SignField, t: int)
    requires
        sf.wf(),
        0 <= t < node_total(sf.dims),
    ensures
        sf.has_node(sf.node_at(t)),
        sf.local(sf.node_at(t)) == t,
{
    lemma_flat_index_unflatten(sf.dims[0] as int, sf.dims[1] as int, sf.dims[2] as int, t);
}

/// Cell `c`'s corner count is at least the bit of corner `k` and at most 7
/// plus it.
proof fn lemma_corner_term(sf: &SignField, c: Pt, k: int)
    requires
        0 <= k < 8,
    ensures
        sf.inside_corners(c) >= sf.inside_bit(corner(c, k)),
        sf.inside_corners(c) <= 7 + sf.inside_bit(corner(c, k)),
{
}

/// A cell with one corner inside and another not inside is a surface cell.
proof fn lemma_two_corners(sf: &SignField, c: Pt, x: Pt, y: Pt)
    requires
        sf.has_cell(c),
        0 <= x.0 - c.0 <= 1 && 0 <= x.1 - c.1 <= 1 && 0 <= x.2 - c.2 <= 1,
        0 <= y.0 - c.0 <= 1 && 0 <= y.1 - c.1 <= 1 && 0 <= y.2 - c.2 <= 1,
        sf.inside(x) != sf.inside(y),
    ensures
        sf.is_surface(c),
{
    let kx = (x.0 - c.0) + 2 * (x.1 - c.1) + 4 * (x.2 - c.2);
    let ky = (y.0 - c.0) + 2 * (y.1 - c.1) + 4 * (y.2 - c.2);
    assert(corner(c, kx) == x);
    assert(corner(c, ky) == y);
    lemma_corner_term(sf, c, kx);
    lemma_corner_term(sf, c, ky);
}

/// In a sealed box, every grid edge that changes sign gets its quad.
pub(crate) proof fn lemma_sealed_quad(sf: &SignField, p: Pt, ax: int)
    requires
        sf.wf(),
        sealed(sf),
        0 <= ax < 3,
        sf.has_node(p),
        sf.has_node(step(p, ax, 1)),
        sf.inside(p) != sf.inside(step(p, ax, 1)),
    ensures
        sf.edge_has_quad(p, ax),
{
    let q = step(p, ax, 1);
    let x = if sf.inside(p) {
        p
    } else {
        q
    };
    assert(sf.has_node(x));
    assert(sf.inside(x));
    assert(coord(p, ax) + 1 < sf.hi_at(ax));
    let c0 = quad_cell(p, ax, 0);
    let c1 = quad_cell(p, ax, 1);
    let c2 = quad_cell(p, ax, 2);
    let c3 = quad_cell(p, ax, 3);
    if ax == 0 {
        lemma_two_corners(sf, c0, p, q);
        lemma_two_corners(sf, c1, p, q);
        lemma_two_corners(sf, c2, p, q);
        lemma_two_corners(sf, c3, p, q);
    } else if ax == 1 {
        lemma_two_corners(sf, c0, p, q);
        lemma_two_corners(sf, c1, p, q);
        lemma_two_corners(sf, c2, p, q);
        lemma_two_corners(sf, c3, p, q);
    } else {
        lemma_two_corners(sf, c0, p, q);
        lemma_two_corners(sf, c1, p, q);
        lemma_two_corners(sf, c2, p, q);
        lemma_two_corners(sf, c3, p, q);
    }
}

/// The flow of one edge, as `adjacent_flow` says.
pub open spec fn edge_adjacent_flow(sf: &SignField, p: Pt, ax: int, ca: Pt, w: int) -> int {
    if sf.edge_has_quad(p, ax) {
        orientation(sf, p) * adjacent_flow(p, ax, ca, w)
    } else {
        0
    }
}

/// The flow at node `p` between neighbouring cells.
proof fn lemma_node_flow_adjacent(sf: &SignField, a: u32, b: u32, w: int, p: Pt)
    requires
        sf.wf(),
        sf.vertices_fit(),
        a < sf.surface_cells().len(),
        b < sf.surface_cells().len(),
        0 <= w < 3,
        sf.surface_cells()[b as int] == step(sf.surface_cells()[a as int], w, 1),
        sf.has_node(p),
    ensures
        node_flow(sf, sf.local(p), a, b) == edge_adjacent_flow(
            sf,
            p,
            0,
            sf.surface_cells()[a as int],
            w,
        ) + edge_adjacent_flow(sf, p, 1, sf.surface_cells()[a as int], w) + edge_adjacent_flow(
            sf,
            p,
            2,
            sf.surface_cells()[a as int],
            w,
        ),
{
    let ca = sf.surface_cells()[a as int];
    lemma_node_at_local(sf, p);
    lemma_edge_flow(sf, p, 0, a, b);
    lemma_edge_flow(sf, p, 1, a, b);
    lemma_edge_flow(sf, p, 2, a, b);
    lemma_cycle_flow_adjacent(p, 0, ca, w);
    lemma_cycle_flow_adjacent(p, 1, ca, w);
    lemma_cycle_flow_adjacent(p, 2, ca, w);
}

proof fn lemma_adjacent_flow_far(p: Pt, ax: int, ca: Pt, w: int)
    requires
        0 <= ax < 3,
        0 <= w < 3,
        p != step(ca, w, 1),
        p != step(step(ca, w, 1), (w + 1) % 3, 1),
        p != step(step(ca, w, 1), (w + 2) % 3, 1),
    ensures
        adjacent_flow(p, ax, ca, w) == 0,
{
}

/// Between neighbouring cells, only the three nodes that start the edges of
/// the shared face contribute to the flow.
#[verifier::spinoff_prover]
proof fn lemma_adjacent_reduce(sf: &SignField, a: u32, b: u32, w: int)
    requires
        sf.wf(),
        sf.vertices_fit(),
        a < sf.surface_cells().len(),
        b < sf.surface_cells().len(),
        0 <= w < 3,
        sf.surface_cells()[b as int] == step(sf.surface_cells()[a as int], w, 1),
    ensures
        ({
            let n00 = sf.surface_cells()[b as int];
            let n10 = step(n00, (w + 1) % 3, 1);
            let n01 = step(n00, (w + 2) % 3, 1);
            &&& sf.has_node(n00) && sf.has_node(n10) && sf.has_node(n01)
            &&& sf.has_node(step(n10, (w + 2) % 3, 1))
            &&& flow(sf.faces(), a, b) == node_flow(sf, sf.local(n00), a, b) + node_flow(
                sf,
                sf.local(n10),
                a,
                b,
            ) + node_flow(sf, sf.local(n01), a, b)
        }),
{
    let cells = sf.surface_cells();
    let ca = cells[a as int];
    let cb = cells[b as int];
    lemma_cell_count(sf);
    lemma_surface_prefix(sf, sf.cell_count() as nat);
    assert(sf.is_surface(cb));
    let a1 = (w + 1) % 3;
    let b1 = (w + 2) % 3;
    assert(0 <= a1 < 3 && 0 <= b1 < 3 && a1 != b1 && a1 != w && b1 != w);
    let n00 = cb;
    let n10 = step(n00, a1, 1);
    let n01 = step(n00, b1, 1);
    assert(sf.has_node(n00) && sf.has_node(n10) && sf.has_node(n01));
    assert(sf.has_node(step(n10, b1, 1)));
    lemma_node_at_local(sf, n00);
    lemma_node_at_local(sf, n10);
    lemma_node_at_local(sf, n01);
    let t00 = sf.local(n00);
    let t10 = sf.local(n10);
    let t01 = sf.local(n01);
    assert(n00 != n10 && n00 != n01 && n10 != n01);
    if t00 == t10 {
        lemma_local_injective(sf, n00, n10);
    }
    if t00 == t01 {
        lemma_local_injective(sf, n00, n01);
    }
    if t10 == t01 {
        lemma_local_injective(sf, n10, n01);
    }
    let total = node_total(sf.dims);
    assert forall|t: int|
        0 <= t < total && t != t00 && t != t10 && t != t01 implies #[trigger] node_flow(
        sf,
        t,
        a,
        b,
    ) == 0 by {
        lemma_node_at(sf, t);
        let p = sf.node_at(t);
        lemma_node_flow_adjacent(sf, a, b, w, p);
        lemma_adjacent_flow_far(p, 0, ca, w);
        lemma_adjacent_flow_far(p, 1, ca, w);
        lemma_adjacent_flow_far(p, 2, ca, w);
    }
    lemma_sparse_flow_sum(sf, total as nat, a, b, t00, t10, t01);
    lemma_faces_prefix_flow(sf, total as nat, a, b);
}

/// The faces of a sealed box are balanced between two vertices whose cells
/// are neighbours, the second one step up from the first along `w`.
#[verifier::spinoff_prover]
proof fn lemma_adjacent_balance(sf: &SignField, a: u32, b: u32, w: int)
    requires
        sf.wf(),
        sf.vertices_fit(),
        sealed(sf),
        a < sf.surface_cells().len(),
        b < sf.surface_cells().len(),
        0 <= w < 3,
        sf.surface_cells()[b as int] == step(sf.surface_cells()[a as int], w, 1),
    ensures
        flow(sf.faces(), a, b) == 0,
{
    lemma_adjacent_reduce(sf, a, b, w);
    let ca = sf.surface_cells()[a as int];
    let a1 = (w + 1) % 3;
    let b1 = (w + 2) % 3;
    let n00 = sf.surface_cells()[b as int];
    let n10 = step(n00, a1, 1);
    let n01 = step(n00, b1, 1);
    let n11 = step(n10, b1, 1);
    assert(n11 == step(n01, a1, 1));
    lemma_node_flow_adjacent(sf, a, b, w, n00);
    lemma_node_flow_adjacent(sf, a, b, w, n10);
    lemma_node_flow_adjacent(sf, a, b, w, n01);
    let h1 = sf.edge_has_quad(n00, b1);
    let h2 = sf.edge_has_quad(n00, a1);
    let h3 = sf.edge_has_quad(n10, b1);
    let h4 = sf.edge_has_quad(n01, a1);
    let o00 = orientation(sf, n00);
    let o10 = orientation(sf, n10);
    let o01 = orientation(sf, n01);
    assert(node_flow(sf, sf.local(n00), a, b) == (if h2 {
        o00
    } else {
        0
    }) - (if h1 {
        o00
    } else {
        0
    })) by {
        assert(adjacent_flow(n00, a1, ca, w) == 1);
        assert(adjacent_flow(n00, b1, ca, w) == -1);
        assert(adjacent_flow(n00, w, ca, w) == 0);
        assert(a1 != b1 && a1 != w && b1 != w && 0 <= a1 < 3 && 0 <= b1 < 3);
    }
    assert(node_flow(sf, sf.local(n10), a, b) == (if h3 {
        o10
    } else {
        0
    })) by {
        assert(adjacent_flow(n10, b1, ca, w) == 1);
        assert(adjacent_flow(n10, a1, ca, w) == 0);
        assert(adjacent_flow(n10, w, ca, w) == 0);
        assert(a1 != b1 && a1 != w && b1 != w && 0 <= a1 < 3 && 0 <= b1 < 3);
    }
    assert(node_flow(sf, sf.local(n01), a, b) == -(if h4 {
        o01
    } else {
        0
    })) by {
        assert(adjacent_flow(n01, a1, ca, w) == -1);
        assert(adjacent_flow(n01, b1, ca, w) == 0);
        assert(adjacent_flow(n01, w, ca, w) == 0);
        assert(a1 != b1 && a1 != w && b1 != w && 0 <= a1 < 3 && 0 <= b1 < 3);
    }
    // Whether each of the four edges of the shared face has its quad.
    assert(h1 == (sf.inside(n00) != sf.inside(n01))) by {
        if sf.inside(n00) != sf.inside(n01) {
            lemma_sealed_quad(sf, n00, b1);
        }
    }
    assert(h2 == (sf.inside(n00) != sf.inside(n10))) by {
        if sf.inside(n00) != sf.inside(n10) {
            lemma_sealed_quad(sf, n00, a1);
        }
    }
    assert(h3 == (sf.inside(n10) != sf.inside(n11))) by {
        if sf.inside(n10) != sf.inside(n11) {
            lemma_sealed_quad(sf, n10, b1);
        }
    }
    assert(h4 == (sf.inside(n01) != sf.inside(n11))) by {
        if sf.inside(n01) != sf.inside(n11) {
            lemma_sealed_quad(sf, n01, a1);
        }
    }
    assert(!(sf.sign(n00) is Unordered));
    assert(!(sf.sign(n10) is Unordered));
    assert(!(sf.sign(n01) is Unordered));
    lemma_square_balance(
        sf.inside(n00),
        sf.inside(n10),
        sf.inside(n01),
        sf.inside(n11),
        h1,
        h2,
        h3,
        h4,
        o00,
        o10,
        o01,
    );
}

/// Around a square of four nodes, the edges that change sign step as often
/// from one side of the square to the other as back.
proof fn lemma_square_balance(
    i00: bool,
    i10: bool,
    i01: bool,
    i11: bool,
    h1: bool,
    h2: bool,
    h3: bool,
    h4: bool,
    o00: int,
    o10: int,
    o01: int,
)
    requires
        h1 == (i00 != i01),
        h2 == (i00 != i10),
        h3 == (i10 != i11),
        h4 == (i01 != i11),
        o00 == (if i00 {
            1int
        } else {
            -1
        }),
        o10 == (if i10 {
            1int
        } else {
            -1
        }),
        o01 == (if i01 {
            1int
        } else {
            -1
        }),
    ensures
        (if h2 {
            o00
        } else {
            0
        }) - (if h1 {
            o00
        } else {
            0
        }) + (if h3 {
            o10
        } else {
            0
        }) - (if h4 {
            o01
        } else {
            0
        }) == 0,
{
}

/// Where no node contributes, the faces have no net flow.
proof fn lemma_no_flow(sf: &SignField, a: u32, b: u32)
    requires
        sf.wf(),
        sf.vertices_fit(),
        forall|t: int|
            0 <= t < node_total(sf.dims) ==> #[trigger] node_flow(sf, t, a, b) == 0,
    ensures
        flow(sf.faces(), a, b) == 0,
{
    let total = node_total(sf.dims);
    lemma_sparse_flow_sum(sf, total as nat, a, b, -1, -2, -3);
    lemma_faces_prefix_flow(sf, total as nat, a, b);
}

/// The contoured surface of a sealed box is closed: for any two vertices
/// `a` and `b`, as many triangle sides run from `a` to `b` as from `b` to
/// `a`. (Where a cell face has all four of its edges changing sign, four
/// sides meet along one line, two each way.)
pub proof fn lemma_closed_surface(sf: &SignField, a: u32, b: u32)
    requires
        sf.wf(),
        sf.vertices_fit(),
        sealed(sf),
    ensures
        directed_count(sf.faces(), a, b) == directed_count(sf.faces(), b, a),
{
    let cells = sf.surface_cells();
    if a == b {
    } else if a >= cells.len() || b >= cells.len() {
        assert forall|t: int| 0 <= t < node_total(sf.dims) implies #[trigger] node_flow(
            sf,
            t,
            a,
            b,
        ) == 0 by {
            let p = sf.node_at(t);
            lemma_edge_flow(sf, p, 0, a, b);
            lemma_edge_flow(sf, p, 1, a, b);
            lemma_edge_flow(sf, p, 2, a, b);
        }
        lemma_no_flow(sf, a, b);
    } else {
        let ca = cells[a as int];
        let cb = cells[b as int];
        if cb == step(ca, 0, 1) {
            lemma_adjacent_balance(sf, a, b, 0);
        } else if cb == step(ca, 1, 1) {
            lemma_adjacent_balance(sf, a, b, 1);
        } else if cb == step(ca, 2, 1) {
            lemma_adjacent_balance(sf, a, b, 2);
        } else if ca == step(cb, 0, 1) {
            lemma_adjacent_balance(sf, b, a, 0);
        } else if ca == step(cb, 1, 1) {
            lemma_adjacent_balance(sf, b, a, 1);
        } else if ca == step(cb, 2, 1) {
            lemma_adjacent_balance(sf, b, a, 2);
        } else {
            assert forall|t: int| 0 <= t < node_total(sf.dims) implies #[trigger] node_flow(
                sf,
                t,
                a,
                b,
            ) == 0 by {
                let p = sf.node_at(t);
                lemma_edge_flow(sf, p, 0, a, b);
                lemma_edge_flow(sf, p, 1, a, b);
                lemma_edge_flow(sf, p, 2, a, b);
                lemma_cycle_flow_apart(p, 0, ca, cb);
                lemma_cycle_flow_apart(p, 1, ca, cb);
                lemma_cycle_flow_apart(p, 2, ca, cb);
            }
            lemma_no_flow(sf, a, b);
        }
    }
}

/// `a - b`.
pub open spec fn diff(a: Pt, b: Pt) -> Pt {
    (a.0 - b.0, a.1 - b.1, a.2 - b.2)
}

/// The cross product of two integer vectors.
pub open spec fn cross(a: Pt, b: Pt) -> Pt {
    (a.1 * b.2 - a.2 * b.1, a.2 * b.0 - a.0 * b.2, a.0 * b.1 - a.1 * b.0)
}

/// `c` is one of the cells that hold node `p` as a corner.
pub open spec fn cell_holds(c: Pt, p: Pt) -> bool {
    &&& 0 <= p.0 - c.0 <= 1
    &&& 0 <= p.1 - c.1 <= 1
    &&& 0 <= p.2 - c.2 <= 1
}

/// Each quad joins the vertices of the four cells around its grid edge and
/// winds so that its normal points from the edge's inside node to its
/// outside node: the cells of the quad's first three corners, `k0`, `k1`,
/// `k2`, turn about the outward direction (`(k1 - k0) x (k2 - k1)` is the
/// unit step from the inside node to the outside node).
pub proof fn lemma_quad_faces_outward(sf: &SignField, p: Pt, ax: int)
    requires
        sf.wf(),
        sf.vertices_fit(),
        0 <= ax < 3,
        sf.edge_has_quad(p, ax),
        !(sf.sign(p) is Unordered),
    ensures
        ({
            let t = sf.edge_tris(p, ax);
            let cells = sf.surface_cells();
            let q = step(p, ax, 1);
            let inner = if sf.inside(p) {
                p
            } else {
                q
            };
            let outer = if sf.inside(p) {
                q
            } else {
                p
            };
            &&& t.len() == 2
            &&& t[1].0 == t[0].0 && t[1].1 == t[0].2
            &&& t[0].0 < cells.len() && t[0].1 < cells.len() && t[0].2 < cells.len()
            &&& t[1].2 < cells.len()
            &&& cell_holds(cells[t[0].0 as int], p) && cell_holds(cells[t[0].0 as int], q)
            &&& cell_holds(cells[t[0].1 as int], p) && cell_holds(cells[t[0].1 as int], q)
            &&& cell_holds(cells[t[0].2 as int], p) && cell_holds(cells[t[0].2 as int], q)
            &&& cell_holds(cells[t[1].2 as int], p) && cell_holds(cells[t[1].2 as int], q)
            &&& cross(
                diff(cells[t[0].1 as int], cells[t[0].0 as int]),
                diff(cells[t[0].2 as int], cells[t[0].1 as int]),
            ) == diff(outer, inner)
        }),
{
    reveal(SignField::edge_tris);
    let c0 = quad_cell(p, ax, 0);
    let c1 = quad_cell(p, ax, 1);
    let c2 = quad_cell(p, ax, 2);
    let c3 = quad_cell(p, ax, 3);
    lemma_vertex_of(sf, c0);
    lemma_vertex_of(sf, c1);
    lemma_vertex_of(sf, c2);
    lemma_vertex_of(sf, c3);
    let cells = sf.surface_cells();
    assert(cells[sf.quad_vertex(p, ax, 0) as int] == c0);
    assert(cells[sf.quad_vertex(p, ax, 1) as int] == c1);
    assert(cells[sf.quad_vertex(p, ax, 2) as int] == c2);
    assert(cells[sf.quad_vertex(p, ax, 3) as int] == c3);
    let u = (ax + 1) % 3;
    let v = (ax + 2) % 3;
    let eu = step((0, 0, 0), u, 1);
    let ev = step((0, 0, 0), v, 1);
    let ea = step((0, 0, 0), ax, 1);
    assert(diff(c1, c0) == eu && diff(c2, c1) == ev) by {
        if ax == 0 {
        } else if ax == 1 {
        } else {
        }
    }
    assert(diff(c2, c3) == eu && diff(c1, c2) == (-ev.0, -ev.1, -ev.2)) by {
        if ax == 0 {
        } else if ax == 1 {
        } else {
        }
    }
    assert(cross(eu, ev) == ea && cross(eu, (-ev.0, -ev.1, -ev.2)) == (-ea.0, -ea.1, -ea.2)) by {
        if ax == 0 {
            assert(eu == (0int, 1int, 0int) && ev == (0int, 0int, 1int) && ea == (1int, 0int, 0int));
            assert(cross((0, 1, 0), (0, 0, 1)) == (1int, 0int, 0int)) by (nonlinear_arith);
            assert(cross((0, 1, 0), (0, 0, -1)) == (-1int, 0int, 0int)) by (nonlinear_arith);
        } else if ax == 1 {
            assert(eu == (0int, 0int, 1int) && ev == (1int, 0int, 0int) && ea == (0int, 1int, 0int));
            assert(cross((0, 0, 1), (1, 0, 0)) == (0int, 1int, 0int)) by (nonlinear_arith);
            assert(cross((0, 0, 1), (-1, 0, 0)) == (0int, -1int, 0int)) by (nonlinear_arith);
        } else {
            assert(eu == (1int, 0int, 0int) && ev == (0int, 1int, 0int) && ea == (0int, 0int, 1int));
            assert(cross((1, 0, 0), (0, 1, 0)) == (0int, 0int, 1int)) by (nonlinear_arith);
            assert(cross((1, 0, 0), (0, -1, 0)) == (0int, 0int, -1int)) by (nonlinear_arith);
        }
    }
    assert(diff(step(p, ax, 1), p) == ea && diff(p, step(p, ax, 1)) == (-ea.0, -ea.1, -ea.2)) by {
        if ax == 0 {
        } else if ax == 1 {
        } else {
        }
    }
    assert(cell_holds(c0, p) && cell_holds(c1, p) && cell_holds(c2, p) && cell_holds(c3, p)
        && cell_holds(c0, step(p, ax, 1)) && cell_holds(c1, step(p, ax, 1)) && cell_holds(
        c2,
        step(p, ax, 1),
    ) && cell_holds(c3, step(p, ax, 1))) by {
        if ax == 0 {
        } else if ax == 1 {
        } else {
        }
    }
}

/// `sf2` is `sf` with inside and outside swapped at every node: same box,
/// and every sign turned from below zero to not below zero and back.
pub open spec fn complements(sf: &SignField, sf2: &SignField) -> bool {
    &&& sf2.lo == sf.lo
    &&& sf2.dims == sf.dims
    &&& sf2.signs.len() == sf.signs.len()
    &&& forall|i: int|
        0 <= i < sf.signs.len() ==> {
            ||| (sf.signs@[i] is Negative && sf2.signs@[i] is NonNegative)
            ||| (sf.signs@[i] is NonNegative && sf2.signs@[i] is Negative)
        }
}

proof fn lemma_complement_inside(sf: &SignField, sf2: &SignField, p: Pt)
    requires
        sf.wf(),
        complements(sf, sf2),
        sf.has_node(p),
    ensures
        sf2.has_node(p),
        sf2.local(p) == sf.local(p),
        sf2.inside(p) == !sf.inside(p),
        (sf2.sign(p) is NonNegative) == !(sf.sign(p) is NonNegative),
{
    lemma_local_bound(sf, p);
}

proof fn lemma_complement_surface(sf: &SignField, sf2: &SignField, c: Pt)
    requires
        sf.wf(),
        complements(sf, sf2),
    ensures
        sf2.is_surface(c) == sf.is_surface(c),
{
    if sf.has_cell(c) {
        lemma_complement_inside(sf, sf2, corner(c, 0));
        lemma_complement_inside(sf, sf2, corner(c, 1));
        lemma_complement_inside(sf, sf2, corner(c, 2));
        lemma_complement_inside(sf, sf2, corner(c, 3));
        lemma_complement_inside(sf, sf2, corner(c, 4));
        lemma_complement_inside(sf, sf2, corner(c, 5));
        lemma_complement_inside(sf, sf2, corner(c, 6));
        lemma_complement_inside(sf, sf2, corner(c, 7));
        assert(sf2.inside_corners(c) == 8 - sf.inside_corners(c));
    }
}

proof fn lemma_complement_prefix(sf: &SignField, sf2: &SignField, t: nat)
    requires
        sf.wf(),
        complements(sf, sf2),
    ensures
        sf2.surface_prefix(t) == sf.surface_prefix(t),
    decreases t,
{
    if t > 0 {
        lemma_complement_prefix(sf, sf2, (t - 1) as nat);
        assert(sf2.cell_at(t - 1) == sf.cell_at(t - 1));
        lemma_complement_surface(sf, sf2, sf.cell_at(t - 1));
    }
}

/// Swapping inside and outside keeps the surface cells and every quad, and
/// winds each quad the other way: where the field's quad around the edge
/// from `p` along `ax` is `(a, b, c, d)` (triangles `(a, b, c)`,
/// `(a, c, d)`), the complement's is `(d, c, b, a)`.
pub proof fn lemma_complement_reverses(sf: &SignField, sf2: &SignField, p: Pt, ax: int)
    requires
        sf.wf(),
        complements(sf, sf2),
        sf.has_node(p),
        0 <= ax < 3,
    ensures
        sf2.surface_cells() == sf.surface_cells(),
        sf2.edge_has_quad(p, ax) == sf.edge_has_quad(p, ax),
        sf2.edge_tris(p, ax).len() == sf.edge_tris(p, ax).len(),
        sf.edge_has_quad(p, ax) ==> {
            let t = sf.edge_tris(p, ax);
            let r = sf2.edge_tris(p, ax);
            &&& r[0] == (t[1].2, t[0].2, t[0].1)
            &&& r[1] == (t[1].2, t[0].1, t[0].0)
        },
{
    reveal(SignField::edge_tris);
    assert(sf2.cell_count() == sf.cell_count());
    lemma_complement_prefix(sf, sf2, sf.cell_count() as nat);
    lemma_complement_inside(sf, sf2, p);
    let q = step(p, ax, 1);
    if coord(p, ax) + 1 < sf.hi_at(ax) {
        assert(sf.has_node(q));
        lemma_complement_inside(sf, sf2, q);
    }
    lemma_complement_surface(sf, sf2, quad_cell(p, ax, 0));
    lemma_complement_surface(sf, sf2, quad_cell(p, ax, 1));
    lemma_complement_surface(sf, sf2, quad_cell(p, ax, 2));
    lemma_complement_surface(sf, sf2, quad_cell(p, ax, 3));
    assert(sf2.vertex_of(quad_cell(p, ax, 0)) == sf.vertex_of(quad_cell(p, ax, 0)));
    assert(sf2.vertex_of(quad_cell(p, ax, 1)) == sf.vertex_of(quad_cell(p, ax, 1)));
    assert(sf2.vertex_of(quad_cell(p, ax, 2)) == sf.vertex_of(quad_cell(p, ax, 2)));
    assert(sf2.vertex_of(quad_cell(p, ax, 3)) == sf.vertex_of(quad_cell(p, ax, 3)));
}

/// `sf2` covers the same box as `sf` and agrees with it at every node on
/// which nodes are inside and which values are unordered; where neither
/// field holds an unordered value, that is: the same nodes are inside.
pub open spec fn same_classes(sf: &SignField, sf2: &SignField) -> bool {
    &&& sf2.lo == sf.lo
    &&& sf2.dims == sf.dims
    &&& sf2.signs.len() == sf.signs.len()
    &&& forall|i: int|
        0 <= i < sf.signs.len() ==> {
            &&& (sf2.signs@[i] is Negative) == (sf.signs@[i] is Negative)
            &&& (sf2.signs@[i] is Unordered) == (sf.signs@[i] is Unordered)
        }
}

proof fn lemma_same_node(sf: &SignField, sf2: &SignField, p: Pt)
    requires
        sf.wf(),
        same_classes(sf, sf2),
        sf.has_node(p),
    ensures
        sf2.has_node(p),
        sf2.local(p) == sf.local(p),
        sf2.inside(p) == sf.inside(p),
        sf2.sign(p) == sf.sign(p),
{
    lemma_local_bound(sf, p);
}

proof fn lemma_same_surface(sf: &SignField, sf2: &SignField, c: Pt)
    requires
        sf.wf(),
        same_classes(sf, sf2),
    ensures
        sf2.is_surface(c) == sf.is_surface(c),
{
    if sf.has_cell(c) {
        lemma_same_node(sf, sf2, corner(c, 0));
        lemma_same_node(sf, sf2, corner(c, 1));
        lemma_same_node(sf, sf2, corner(c, 2));
        lemma_same_node(sf, sf2, corner(c, 3));
        lemma_same_node(sf, sf2, corner(c, 4));
        lemma_same_node(sf, sf2, corner(c, 5));
        lemma_same_node(sf, sf2, corner(c, 6));
        lemma_same_node(sf, sf2, corner(c, 7));
        assert(sf2.inside_corners(c) == sf.inside_corners(c));
    }
}

proof fn lemma_same_prefix(sf: &SignField, sf2: &SignField, t: nat)
    requires
        sf.wf(),
        same_classes(sf, sf2),
    ensures
        sf2.surface_prefix(t) == sf.surface_prefix(t),
    decreases t,
{
    if t > 0 {
        lemma_same_prefix(sf, sf2, (t - 1) as nat);
        assert(sf2.cell_at(t - 1) == sf.cell_at(t - 1));
        lemma_same_surface(sf, sf2, sf.cell_at(t - 1));
    }
}

proof fn lemma_same_edge(sf: &SignField, sf2: &SignField, p: Pt, ax: int)
    requires
        sf.wf(),
        same_classes(sf, sf2),
        sf.has_node(p),
        sf2.surface_cells() == sf.surface_cells(),
    ensures
        sf2.edge_tris(p, ax) == sf.edge_tris(p, ax),
{
    reveal(SignField::edge_tris);
    lemma_same_node(sf, sf2, p);
    let q = step(p, ax, 1);
    if coord(p, ax) + 1 < sf.hi_at(ax) {
        assert(sf.has_node(q));
        lemma_same_node(sf, sf2, q);
    }
    lemma_same_surface(sf, sf2, quad_cell(p, ax, 0));
    lemma_same_surface(sf, sf2, quad_cell(p, ax, 1));
    lemma_same_surface(sf, sf2, quad_cell(p, ax, 2));
    lemma_same_surface(sf, sf2, quad_cell(p, ax, 3));
    assert(sf2.edge_has_quad(p, ax) == sf.edge_has_quad(p, ax));
}

proof fn lemma_same_faces_prefix(sf: &SignField, sf2: &SignField, t: nat)
    requires
        sf.wf(),
        same_classes(sf, sf2),
        t <= node_total(sf.dims),
        sf2.surface_cells() == sf.surface_cells(),
    ensures
        sf2.faces_prefix(t) == sf.faces_prefix(t),
    decreases t,
{
    if t > 0 {
        lemma_same_faces_prefix(sf, sf2, (t - 1) as nat);
        lemma_node_at(sf, t - 1);
        let p = sf.node_at(t - 1);
        assert(sf2.node_at(t - 1) == p);
        lemma_same_edge(sf, sf2, p, 0);
        lemma_same_edge(sf, sf2, p, 1);
        lemma_same_edge(sf, sf2, p, 2);
    }
}

/// The mesh's connectivity depends only on which nodes are inside (and on
/// where the unordered values are): two fields over the same box that agree
/// on both at every node have the same surface cells, so the same vertices
/// in the same order, and the same triangles in the same order.
pub proof fn lemma_same_classes_same_mesh(sf: &SignField, sf2: &SignField)
    requires
        sf.wf(),
        same_classes(sf, sf2),
    ensures
        sf2.surface_cells() == sf.surface_cells(),
        sf2.faces() == sf.faces(),
{
    assert(sf2.cell_count() == sf.cell_count());
    lemma_same_prefix(sf, sf2, sf.cell_count() as nat);
    lemma_same_faces_prefix(sf, sf2, node_total(sf.dims) as nat);
}

} // verus!
