//! The combinatorial half of dual contouring on a dense grid.
//!
//! Given the sign of the field at every node of a box of nodes, this finds
//! the cells that the zero level passes through (one mesh vertex each, in
//! scan order) and, for every grid edge whose ends differ in sign, the quad
//! of the four cells around it, split in two triangles and wound so that the
//! normal points from inside to outside. Placing the vertices is floating
//! point work and happens outside this module.

use vstd::prelude::*;
use std::collections::HashMap;
use crate::surface::lemma_faces_in_range;
use crate::grid::{
    flat_index,
    unflatten,
    node_total,
    lemma_flat_index_bound,
    lemma_unflatten_flat_index,
    lemma_flat_index_unflatten,
    lemma_flat_index_injective,
};

verus! {

broadcast use vstd::std_specs::hash::group_hash_axioms;

/// How a field value compares with zero.
#[derive(Clone, Copy, PartialEq, Eq, Debug)]
pub enum NodeSign {
    /// The value is below zero: the node is inside the shape.
    Negative,
    /// The value is zero or above.
    NonNegative,
    /// The value is not ordered against zero (not a number).
    Unordered,
}

/// A point of the integer lattice.
pub type Pt = (int, int, int);

/// Coordinate `d` (0, 1 or 2) of a point.
pub open spec fn coord(p: Pt, d: int) -> int {
    if d == 0 {
        p.0
    } else if d == 1 {
        p.1
    } else {
        p.2
    }
}

/// The point moved by `delta` along axis `d`.
pub open spec fn step(p: Pt, d: int, delta: int) -> Pt {
    if d == 0 {
        (p.0 + delta, p.1, p.2)
    } else if d == 1 {
        (p.0, p.1 + delta, p.2)
    } else {
        (p.0, p.1, p.2 + delta)
    }
}

/// The lattice point of a node or cell given as an array.
pub open spec fn pt(a: [usize; 3]) -> Pt {
    (a[0] as int, a[1] as int, a[2] as int)
}

/// Corner `s` (0..8) of the cell with lowest node `c`: bit 0 of `s` steps
/// along x, bit 1 along y, bit 2 along z.
pub open spec fn corner(c: Pt, s: int) -> Pt {
    (c.0 + s % 2, c.1 + (s / 2) % 2, c.2 + s / 4)
}

/// The two corners joined by edge `e` (0..12) of a cell, in the order
/// (0,1) (0,2) (0,4) (1,3) (1,5) (2,3) (2,6) (3,7) (4,5) (4,6) (5,7) (6,7):
/// by lower corner, then by axis.
pub open spec fn cell_edge(e: int) -> (int, int) {
    if e == 0 {
        (0, 1)
    } else if e == 1 {
        (0, 2)
    } else if e == 2 {
        (0, 4)
    } else if e == 3 {
        (1, 3)
    } else if e == 4 {
        (1, 5)
    } else if e == 5 {
        (2, 3)
    } else if e == 6 {
        (2, 6)
    } else if e == 7 {
        (3, 7)
    } else if e == 8 {
        (4, 5)
    } else if e == 9 {
        (4, 6)
    } else if e == 10 {
        (5, 7)
    } else {
        (6, 7)
    }
}

/// The signs of a field at the nodes of the box `lo .. lo + dims`, stored
/// x fastest, then y, then z.
pub struct SignField {
    pub lo: [usize; 3],
    pub dims: [usize; 3],
    pub signs: Vec<NodeSign>,
}

impl SignField {
    /// One sign per node, and coordinates that fit a `usize`.
    pub open spec fn wf(&self) -> bool {
        &&& self.signs.len() == node_total(self.dims)
        &&& self.lo[0] + self.dims[0] <= usize::MAX
        &&& self.lo[1] + self.dims[1] <= usize::MAX
        &&& self.lo[2] + self.dims[2] <= usize::MAX
    }

    /// Lowest node coordinate on axis `d`.
    pub open spec fn lo_at(&self, d: int) -> int {
        if d == 0 {
            self.lo[0] as int
        } else if d == 1 {
            self.lo[1] as int
        } else {
            self.lo[2] as int
        }
    }

    /// One past the highest node coordinate on axis `d`.
    pub open spec fn hi_at(&self, d: int) -> int {
        if d == 0 {
            self.lo[0] + self.dims[0]
        } else if d == 1 {
            self.lo[1] + self.dims[1]
        } else {
            self.lo[2] + self.dims[2]
        }
    }

    /// `p` is a node of the box.
    pub open spec fn has_node(&self, p: Pt) -> bool {
        &&& self.lo[0] <= p.0 < self.lo[0] + self.dims[0]
        &&& self.lo[1] <= p.1 < self.lo[1] + self.dims[1]
        &&& self.lo[2] <= p.2 < self.lo[2] + self.dims[2]
    }

    /// `c` is the lowest node of a cell of the box: all its corners are nodes.
    pub open spec fn has_cell(&self, c: Pt) -> bool {
        &&& self.lo[0] <= c.0 && c.0 + 1 < self.lo[0] + self.dims[0]
        &&& self.lo[1] <= c.1 && c.1 + 1 < self.lo[1] + self.dims[1]
        &&& self.lo[2] <= c.2 && c.2 + 1 < self.lo[2] + self.dims[2]
    }

    /// Storage position of node `p`.
    pub open spec fn local(&self, p: Pt) -> int {
        flat_index(
            self.dims[0] as int,
            self.dims[1] as int,
            p.0 - self.lo[0],
            p.1 - self.lo[1],
            p.2 - self.lo[2],
        )
    }

    /// Sign at node `p`.
    pub open spec fn sign(&self, p: Pt) -> NodeSign {
        self.signs@[self.local(p)]
    }

    /// Node `p` is inside the shape (its value is below zero).
    pub open spec fn inside(&self, p: Pt) -> bool {
        self.sign(p) is Negative
    }

    /// 1 if node `p` is inside, else 0.
    pub open spec fn inside_bit(&self, p: Pt) -> int {
        if self.inside(p) {
            1
        } else {
            0
        }
    }

    /// How many of the 8 corners of cell `c` are inside.
    pub open spec fn inside_corners(&self, c: Pt) -> int {
        self.inside_bit(corner(c, 0)) + self.inside_bit(corner(c, 1)) + self.inside_bit(
            corner(c, 2),
        ) + self.inside_bit(corner(c, 3)) + self.inside_bit(corner(c, 4)) + self.inside_bit(
            corner(c, 5),
        ) + self.inside_bit(corner(c, 6)) + self.inside_bit(corner(c, 7))
    }

    /// Cell `c` of the box has corners both inside and not inside: the zero
    /// level passes through it, and it gets a mesh vertex.
    pub open spec fn is_surface(&self, c: Pt) -> bool {
        &&& self.has_cell(c)
        &&& 0 < self.inside_corners(c) < 8
    }

    /// Cells per axis.
    pub open spec fn cell_dim(&self, d: int) -> int {
        let n = if d == 0 {
            self.dims[0] as int
        } else if d == 1 {
            self.dims[1] as int
        } else {
            self.dims[2] as int
        };
        if n > 0 {
            n - 1
        } else {
            0
        }
    }

    /// Number of cells of the box.
    pub open spec fn cell_count(&self) -> int {
        self.cell_dim(0) * self.cell_dim(1) * self.cell_dim(2)
    }

    /// The `t`-th cell in scan order (x fastest, then y, then z).
    pub open spec fn cell_at(&self, t: int) -> Pt {
        let u = unflatten(self.cell_dim(0), self.cell_dim(1), t);
        (self.lo[0] + u.0, self.lo[1] + u.1, self.lo[2] + u.2)
    }

    /// The surface cells among the first `t` cells, in scan order.
    pub open spec fn surface_prefix(&self, t: nat) -> Seq<Pt>
        decreases t,
    {
        if t == 0 {
            Seq::empty()
        } else {
            let prev = self.surface_prefix((t - 1) as nat);
            let c = self.cell_at(t - 1);
            if self.is_surface(c) {
                prev.push(c)
            } else {
                prev
            }
        }
    }

    /// All surface cells in scan order: cell `surface_cells()[x]` owns mesh
    /// vertex `x`.
    pub open spec fn surface_cells(&self) -> Seq<Pt> {
        self.surface_prefix(self.cell_count() as nat)
    }

    /// Every vertex index fits a `u32`: there are at most 2^32 surface
    /// cells. Beyond that the indices, cut to 32 bits, wrap around.
    pub open spec fn vertices_fit(&self) -> bool {
        self.surface_cells().len() <= u32::MAX + 1
    }

    /// Index of the mesh vertex of surface cell `c`.
    pub open spec fn vertex_of(&self, c: Pt) -> int {
        self.surface_cells().index_of(c)
    }

    /// The corner pairs of the edges of cell `c` whose ends differ in being
    /// inside, in `cell_edge` order.
    pub open spec fn crossings(&self, c: Pt) -> Seq<(usize, usize)> {
        self.crossings_prefix(c, 12)
    }

    /// The cell-edge crossings of cell `c`: the corner pairs of its 12 edges
    /// (in `cell_edge` order) whose ends differ in being inside, among the
    /// first `e` edges.
    pub open spec fn crossings_prefix(&self, c: Pt, e: nat) -> Seq<(usize, usize)>
        decreases e,
    {
        if e == 0 {
            Seq::empty()
        } else {
            let prev = self.crossings_prefix(c, (e - 1) as nat);
            let (c0, c1) = cell_edge(e - 1);
            if self.inside(corner(c, c0)) != self.inside(corner(c, c1)) {
                prev.push((c0 as usize, c1 as usize))
            } else {
                prev
            }
        }
    }

    /// The `t`-th node in storage order.
    pub open spec fn node_at(&self, t: int) -> Pt {
        let u = unflatten(self.dims[0] as int, self.dims[1] as int, t);
        (self.lo[0] + u.0, self.lo[1] + u.1, self.lo[2] + u.2)
    }

    /// The grid edge from node `p` one step along axis `ax` changes between
    /// inside and not inside, and all four cells around it carry a vertex;
    /// the edges at the low border of the box on the two other axes are left
    /// out.
    pub open spec fn edge_has_quad(&self, p: Pt, ax: int) -> bool {
        let u = (ax + 1) % 3;
        let v = (ax + 2) % 3;
        &&& coord(p, ax) + 1 < self.hi_at(ax)
        &&& self.inside(p) != self.inside(step(p, ax, 1))
        &&& coord(p, u) != self.lo_at(u)
        &&& coord(p, v) != self.lo_at(v)
        &&& self.is_surface(quad_cell(p, ax, 0))
        &&& self.is_surface(quad_cell(p, ax, 1))
        &&& self.is_surface(quad_cell(p, ax, 2))
        &&& self.is_surface(quad_cell(p, ax, 3))
    }

    /// Vertex of the `s`-th cell around the edge from `p` along `ax`.
    pub open spec fn quad_vertex(&self, p: Pt, ax: int, s: int) -> u32 {
        self.vertex_of(quad_cell(p, ax, s)) as u32
    }

    /// The two triangles of the quad around the edge from `p` along `ax`
    /// (none where the edge has no quad). The quad runs counter-clockwise
    /// about +`ax`, and is reversed when `p` is not below zero, so that the
    /// normal points from inside to outside.
    #[verifier::opaque]
    pub open spec fn edge_tris(&self, p: Pt, ax: int) -> Seq<(u32, u32, u32)> {
        if self.edge_has_quad(p, ax) {
            let (a, b, c, d) = if self.sign(p) is NonNegative {
                (
                    self.quad_vertex(p, ax, 3),
                    self.quad_vertex(p, ax, 2),
                    self.quad_vertex(p, ax, 1),
                    self.quad_vertex(p, ax, 0),
                )
            } else {
                (
                    self.quad_vertex(p, ax, 0),
                    self.quad_vertex(p, ax, 1),
                    self.quad_vertex(p, ax, 2),
                    self.quad_vertex(p, ax, 3),
                )
            };
            seq![(a, b, c), (a, c, d)]
        } else {
            Seq::empty()
        }
    }

    /// Triangles of the three edges leaving node `p` in the positive
    /// direction.
    pub open spec fn node_tris(&self, p: Pt) -> Seq<(u32, u32, u32)> {
        self.edge_tris(p, 0) + self.edge_tris(p, 1) + self.edge_tris(p, 2)
    }

    /// Triangles of the first `t` nodes in storage order.
    pub open spec fn faces_prefix(&self, t: nat) -> Seq<(u32, u32, u32)>
        decreases t,
    {
        if t == 0 {
            Seq::empty()
        } else {
            self.faces_prefix((t - 1) as nat) + self.node_tris(self.node_at(t - 1))
        }
    }

    /// All triangles, in the order in which the nodes are stored.
    pub open spec fn faces(&self) -> Seq<(u32, u32, u32)> {
        self.faces_prefix(node_total(self.dims) as nat)
    }
}

/// The `s`-th (0..4) of the four cells around the grid edge from `p` along
/// `ax`, counter-clockwise about +`ax`: with `u` and `v` the next two axes,
/// the cell's lowest node is `p` moved back by (1, 1), (0, 1), (0, 0), (1, 0)
/// along (`u`, `v`).
pub open spec fn quad_cell(p: Pt, ax: int, s: int) -> Pt {
    let u = (ax + 1) % 3;
    let v = (ax + 2) % 3;
    let du = if s == 0 || s == 3 {
        1int
    } else {
        0
    };
    let dv = if s == 0 || s == 1 {
        1int
    } else {
        0
    };
    step(step(p, u, -du), v, -dv)
}

/// A triangle as a triple of vertex indices.
pub open spec fn tri_of(t: [u32; 3]) -> (u32, u32, u32) {
    (t[0], t[1], t[2])
}

/// A point's coordinates fit the box's storage arithmetic.
pub(crate) proof fn lemma_local_bound(sf: &SignField, p: Pt)
    requires
        sf.wf(),
        sf.has_node(p),
    ensures
        0 <= sf.local(p) < sf.signs.len(),
        0 <= (p.1 - sf.lo[1]) + sf.dims[1] * (p.2 - sf.lo[2]),
        (p.1 - sf.lo[1]) + sf.dims[1] * (p.2 - sf.lo[2]) <= sf.dims[1] * sf.dims[2],
        sf.dims[1] * sf.dims[2] <= sf.signs.len(),
{
    lemma_flat_index_bound(
        sf.dims[0] as int,
        sf.dims[1] as int,
        sf.dims[2] as int,
        p.0 - sf.lo[0],
        p.1 - sf.lo[1],
        p.2 - sf.lo[2],
    );
    let j = p.1 - sf.lo[1];
    let k = p.2 - sf.lo[2];
    let n1 = sf.dims[1] as int;
    let n2 = sf.dims[2] as int;
    assert(0 <= j + n1 * k <= n1 * n2) by (nonlinear_arith)
        requires
            0 <= j < n1,
            0 <= k < n2,
    ;
    assert(n1 * n2 <= sf.dims[0] * sf.dims[1] * sf.dims[2]) by (nonlinear_arith)
        requires
            1 <= sf.dims[0],
            n1 == sf.dims[1],
            n2 == sf.dims[2],
    ;
}

/// Distinct nodes of the box have distinct storage positions.
pub(crate) proof fn lemma_local_injective(sf: &SignField, p: Pt, q: Pt)
    requires
        sf.has_node(p),
        sf.has_node(q),
        sf.local(p) == sf.local(q),
    ensures
        p == q,
{
    lemma_flat_index_injective(
        sf.dims[0] as int,
        sf.dims[1] as int,
        p.0 - sf.lo[0],
        p.1 - sf.lo[1],
        p.2 - sf.lo[2],
        q.0 - sf.lo[0],
        q.1 - sf.lo[1],
        q.2 - sf.lo[2],
    );
}

/// The scan order visits every cell of the box, and each at one position.
proof fn lemma_cell_at(sf: &SignField, t: int)
    requires
        0 <= t < sf.cell_count(),
    ensures
        sf.has_cell(sf.cell_at(t)),
{
    lemma_flat_index_unflatten(sf.cell_dim(0), sf.cell_dim(1), sf.cell_dim(2), t);
}

/// Position of a cell in the scan order.
pub open spec fn cell_scan_index(sf: &SignField, c: Pt) -> int {
    flat_index(sf.cell_dim(0), sf.cell_dim(1), c.0 - sf.lo[0], c.1 - sf.lo[1], c.2 - sf.lo[2])
}

pub(crate) proof fn lemma_cell_scan_index(sf: &SignField, c: Pt)
    requires
        sf.has_cell(c),
    ensures
        0 <= cell_scan_index(sf, c) < sf.cell_count(),
        sf.cell_at(cell_scan_index(sf, c)) == c,
{
    lemma_flat_index_bound(
        sf.cell_dim(0),
        sf.cell_dim(1),
        sf.cell_dim(2),
        c.0 - sf.lo[0],
        c.1 - sf.lo[1],
        c.2 - sf.lo[2],
    );
    lemma_unflatten_flat_index(
        sf.cell_dim(0),
        sf.cell_dim(1),
        c.0 - sf.lo[0],
        c.1 - sf.lo[1],
        c.2 - sf.lo[2],
    );
}

proof fn lemma_cell_at_injective(sf: &SignField, t1: int, t2: int)
    requires
        0 <= t1 < sf.cell_count(),
        0 <= t2 < sf.cell_count(),
        sf.cell_at(t1) == sf.cell_at(t2),
    ensures
        t1 == t2,
{
    lemma_flat_index_unflatten(sf.cell_dim(0), sf.cell_dim(1), sf.cell_dim(2), t1);
    lemma_flat_index_unflatten(sf.cell_dim(0), sf.cell_dim(1), sf.cell_dim(2), t2);
}

/// What the first `t` cells contribute: exactly the surface cells among them,
/// each once.
pub proof fn lemma_surface_prefix(sf: &SignField, t: nat)
    requires
        t <= sf.cell_count(),
    ensures
        sf.surface_prefix(t).no_duplicates(),
        sf.surface_prefix(t).len() <= t,
        forall|x: int|
            0 <= x < sf.surface_prefix(t).len() ==> sf.is_surface(
                #[trigger] sf.surface_prefix(t)[x],
            ),
        forall|c: Pt|
            sf.surface_prefix(t).contains(c) <==> (sf.is_surface(c) && cell_scan_index(sf, c)
                < t),
    decreases t,
{
    if t > 0 {
        lemma_surface_prefix(sf, (t - 1) as nat);
        let prev = sf.surface_prefix((t - 1) as nat);
        let c = sf.cell_at(t - 1);
        lemma_cell_at(sf, t - 1);
        lemma_cell_scan_index(sf, c);
        lemma_cell_at_injective(sf, t - 1, cell_scan_index(sf, c));
        assert forall|d: Pt| sf.surface_prefix(t).contains(d) <==> (sf.is_surface(d)
            && cell_scan_index(sf, d) < t) by {
            if sf.is_surface(d) {
                lemma_cell_scan_index(sf, d);
                if cell_scan_index(sf, d) == t - 1 {
                    assert(d == c);
                    assert(sf.surface_prefix(t).last() == c);
                } else if cell_scan_index(sf, d) < t - 1 {
                    assert(prev.contains(d));
                    let x = choose|x: int| 0 <= x < prev.len() && prev[x] == d;
                    assert(sf.surface_prefix(t)[x] == d);
                }
            }
            if sf.surface_prefix(t).contains(d) {
                let x = choose|x: int|
                    0 <= x < sf.surface_prefix(t).len() && sf.surface_prefix(t)[x] == d;
                if x < prev.len() {
                    assert(prev.contains(d));
                } else {
                    assert(d == c);
                }
            }
        }
        if sf.is_surface(c) {
            assert(!prev.contains(c));
        }
    }
}


/// There are no more cells than nodes.
pub(crate) proof fn lemma_cell_count(sf: &SignField)
    ensures
        0 <= sf.cell_count() <= node_total(sf.dims),
{
    let a = sf.cell_dim(0);
    let b = sf.cell_dim(1);
    let c = sf.cell_dim(2);
    assert(0 <= a * b * c <= sf.dims[0] * sf.dims[1] * sf.dims[2]) by (nonlinear_arith)
        requires
            0 <= a <= sf.dims[0],
            0 <= b <= sf.dims[1],
            0 <= c <= sf.dims[2],
    ;
}

/// The map from a cell's storage position to its vertex index, built for
/// the cells in `cells`.
pub open spec fn vertex_map_of(sf: &SignField, cells: Seq<Pt>, m: Map<usize, u32>) -> bool {
    &&& forall|x: int|
        #![trigger cells[x]]
        0 <= x < cells.len() ==> m.contains_key(sf.local(cells[x]) as usize) && m[sf.local(
            cells[x],
        ) as usize] == x as u32
    &&& forall|key: usize|
        #[trigger] m.contains_key(key) ==> exists|x: int|
            0 <= x < cells.len() && key == sf.local(cells[x]) as usize
}

/// What pass 1 leaves behind: every node of the box is a key exactly when
/// it is the lowest node of a surface cell, and then maps to that cell's
/// vertex.
#[verifier::opaque]
pub open spec fn vertex_map(sf: &SignField, m: Map<usize, u32>) -> bool {
    forall|x: Pt|
        #![trigger sf.local(x)]
        sf.has_node(x) ==> {
            &&& m.contains_key(sf.local(x) as usize) <==> sf.is_surface(x)
            &&& sf.is_surface(x) ==> m[sf.local(x) as usize] == sf.vertex_of(x) as u32
            &&& sf.is_surface(x) ==> 0 <= sf.vertex_of(x) < sf.surface_cells().len()
        }
}

/// The state of pass 1 after the first `t` cells.
pub open spec fn pass_state(sf: &SignField, t: int, cells: Seq<[usize; 3]>, m: Map<usize, u32>) -> bool {
    &&& cells.map_values(|a: [usize; 3]| pt(a)) == sf.surface_prefix(t as nat)
    &&& vertex_map_of(sf, sf.surface_prefix(t as nat), m)
}

/// Pass 1 on the `t`-th cell: a surface cell gets the next vertex.
#[verifier::spinoff_prover]
fn visit_cell(
    sf: &SignField,
    i: usize,
    j: usize,
    k: usize,
    cells: &mut Vec<[usize; 3]>,
    map: &mut HashMap<usize, u32>,
    Ghost(t): Ghost<int>,
)
    requires
        sf.wf(),
        sf.has_cell((i as int, j as int, k as int)),
        t == cell_scan_index(sf, (i as int, j as int, k as int)),
        sf.cell_count() <= node_total(sf.dims),
        pass_state(sf, t, old(cells)@, old(map)@),
    ensures
        pass_state(sf, t + 1, final(cells)@, final(map)@),
{
    let ghost c: Pt = (i as int, j as int, k as int);
    proof {
        lemma_cell_scan_index(sf, c);
        lemma_surface_prefix(sf, t as nat);
    }
    let ghost prev = sf.surface_prefix(t as nat);
    assert(sf.cell_at(t) == c);
    if cell_is_surface(sf, i, j, k) {
        let key = local_index(sf, i, j, k);
        proof {
            lemma_local_bound(sf, c);
            if map@.contains_key(key) {
                let x = choose|x: int| 0 <= x < prev.len() && key == sf.local(prev[x]) as usize;
                assert(sf.is_surface(prev[x]));
                lemma_local_bound(sf, prev[x]);
                lemma_local_injective(sf, prev[x], c);
                assert(prev.contains(c));
            }
        }
        let n = cells.len();
        assert(n == prev.len());
        let ghost old_map = map@;
        cells.push([i, j, k]);
        #[verifier::truncate]
        let v = n as u32;
        map.insert(key, v);
        proof {
            let next = sf.surface_prefix((t + 1) as nat);
            assert(next == prev.push(c));
            assert(cells@.map_values(|a: [usize; 3]| pt(a)) =~= next);
            lemma_vertex_map_push(sf, prev, old_map, c, key);
        }
    } else {
        proof {
            assert(sf.surface_prefix((t + 1) as nat) == prev);
        }
    }
}

proof fn lemma_vertex_map_push(
    sf: &SignField,
    prev: Seq<Pt>,
    m: Map<usize, u32>,
    c: Pt,
    key: usize,
)
    requires
        sf.wf(),
        vertex_map_of(sf, prev, m),
        forall|x: int| 0 <= x < prev.len() ==> sf.is_surface(#[trigger] prev[x]),
        !prev.contains(c),
        sf.has_cell(c),
        key == sf.local(c),
    ensures
        vertex_map_of(sf, prev.push(c), m.insert(key, prev.len() as u32)),
{
    let next = prev.push(c);
    let m2 = m.insert(key, prev.len() as u32);
    lemma_local_bound(sf, c);
    assert forall|x: int| #![trigger next[x]] 0 <= x < next.len() implies m2.contains_key(
        sf.local(next[x]) as usize,
    ) && m2[sf.local(next[x]) as usize] == x as u32 by {
        if x < prev.len() {
            assert(next[x] == prev[x]);
            assert(sf.is_surface(prev[x]));
            lemma_local_bound(sf, prev[x]);
            if sf.local(prev[x]) as usize == key {
                lemma_local_injective(sf, prev[x], c);
                assert(prev.contains(c));
            }
            assert(m.contains_key(sf.local(prev[x]) as usize));
            assert(m[sf.local(prev[x]) as usize] == x as u32);
        } else {
            assert(next[x] == c);
            assert(sf.local(c) as usize == key);
        }
    }
    assert forall|key2: usize| #[trigger] m2.contains_key(key2) implies exists|x: int|
        0 <= x < next.len() && key2 == sf.local(next[x]) as usize by {
        if key2 != key {
            let x = choose|x: int| 0 <= x < prev.len() && key2 == sf.local(prev[x]) as usize;
            assert(next[x] == prev[x]);
        } else {
            assert(next[prev.len() as int] == c);
        }
    }
}

/// Pass 1: the surface cells in scan order, and the map from a cell's
/// storage position to its vertex index.
#[verifier::spinoff_prover]
fn surface_pass(sf: &SignField) -> (r: (Vec<[usize; 3]>, HashMap<usize, u32>))
    requires
        sf.wf(),
    ensures
        r.0@.map_values(|a: [usize; 3]| pt(a)) == sf.surface_cells(),
        vertex_map(sf, r.1@),
{
    let mut cells: Vec<[usize; 3]> = Vec::new();
    let mut map: HashMap<usize, u32> = HashMap::new();
    let ghost cd0 = sf.cell_dim(0);
    let ghost cd1 = sf.cell_dim(1);
    let ghost cd2 = sf.cell_dim(2);
    let ghost mut t: int = 0;
    proof {
        lemma_cell_count(sf);
    }
    let hi0 = sf.lo[0] + sf.dims[0];
    let hi1 = sf.lo[1] + sf.dims[1];
    let hi2 = sf.lo[2] + sf.dims[2];
    let mut k = sf.lo[2];
    assert(cells@.map_values(|a: [usize; 3]| pt(a)) =~= sf.surface_prefix(0));
    while hi2 - k > 1
        invariant
            sf.wf(),
            hi0 == sf.lo[0] + sf.dims[0],
            hi1 == sf.lo[1] + sf.dims[1],
            hi2 == sf.lo[2] + sf.dims[2],
            cd0 == sf.cell_dim(0),
            cd1 == sf.cell_dim(1),
            cd2 == sf.cell_dim(2),
            sf.lo[2] <= k <= hi2,
            k - sf.lo[2] <= cd2,
            t == cd0 * cd1 * (k - sf.lo[2]),
            0 <= sf.cell_count() <= node_total(sf.dims),
            pass_state(sf, t, cells@, map@),
        decreases hi2 - k,
    {
        let mut j = sf.lo[1];
        assert(t == cd0 * ((j - sf.lo[1]) + cd1 * (k - sf.lo[2]))) by (nonlinear_arith)
            requires
                t == cd0 * cd1 * (k - sf.lo[2]),
                j == sf.lo[1],
        ;
        while hi1 - j > 1
            invariant
                sf.wf(),
                hi0 == sf.lo[0] + sf.dims[0],
                hi1 == sf.lo[1] + sf.dims[1],
                hi2 == sf.lo[2] + sf.dims[2],
                cd0 == sf.cell_dim(0),
                cd1 == sf.cell_dim(1),
                cd2 == sf.cell_dim(2),
                sf.lo[2] <= k,
                k + 1 < hi2,
                sf.lo[1] <= j <= hi1,
                j - sf.lo[1] <= cd1,
                t == cd0 * ((j - sf.lo[1]) + cd1 * (k - sf.lo[2])),
                0 <= sf.cell_count() <= node_total(sf.dims),
                pass_state(sf, t, cells@, map@),
            decreases hi1 - j,
        {
            let mut i = sf.lo[0];
            while hi0 - i > 1
                invariant
                    sf.wf(),
                    hi0 == sf.lo[0] + sf.dims[0],
                    hi1 == sf.lo[1] + sf.dims[1],
                    hi2 == sf.lo[2] + sf.dims[2],
                    cd0 == sf.cell_dim(0),
                    cd1 == sf.cell_dim(1),
                    cd2 == sf.cell_dim(2),
                    sf.lo[2] <= k,
                    k + 1 < hi2,
                    sf.lo[1] <= j,
                    j + 1 < hi1,
                    sf.lo[0] <= i <= hi0,
                    i - sf.lo[0] <= cd0,
                    t == (i - sf.lo[0]) + cd0 * ((j - sf.lo[1]) + cd1 * (k - sf.lo[2])),
                    0 <= sf.cell_count() <= node_total(sf.dims),
                    pass_state(sf, t, cells@, map@),
                decreases hi0 - i,
            {
                proof {
                    lemma_flat_index_bound(
                        cd0,
                        cd1,
                        cd2,
                        i - sf.lo[0],
                        j - sf.lo[1],
                        k - sf.lo[2],
                    );
                }
                visit_cell(sf, i, j, k, &mut cells, &mut map, Ghost(t));
                i = i + 1;
                proof {
                    t = t + 1;
                }
            }
            proof {
                assert(i - sf.lo[0] == cd0);
                assert(t == cd0 * ((j + 1 - sf.lo[1]) + cd1 * (k - sf.lo[2]))) by (nonlinear_arith)
                    requires
                        t == (i - sf.lo[0]) + cd0 * ((j - sf.lo[1]) + cd1 * (k - sf.lo[2])),
                        i - sf.lo[0] == cd0,
                ;
            }
            j = j + 1;
        }
        proof {
            assert(j - sf.lo[1] == cd1);
            assert(t == cd0 * cd1 * (k + 1 - sf.lo[2])) by (nonlinear_arith)
                requires
                    t == cd0 * ((j - sf.lo[1]) + cd1 * (k - sf.lo[2])),
                    j - sf.lo[1] == cd1,
            ;
        }
        k = k + 1;
    }
    proof {
        assert(k - sf.lo[2] == cd2);
        assert(t == sf.cell_count());
        let all = sf.surface_cells();
        lemma_surface_prefix(sf, t as nat);
        reveal(vertex_map);
        assert forall|x: Pt| #![trigger sf.local(x)] sf.has_node(x) implies {
            &&& map@.contains_key(sf.local(x) as usize) <==> sf.is_surface(x)
            &&& sf.is_surface(x) ==> map@[sf.local(x) as usize] == sf.vertex_of(x) as u32
            &&& sf.is_surface(x) ==> 0 <= sf.vertex_of(x) < sf.surface_cells().len()
        } by {
            lemma_local_bound(sf, x);
            if sf.is_surface(x) {
                lemma_cell_scan_index(sf, x);
                assert(all.contains(x));
                let y = choose|y: int| 0 <= y < all.len() && all[y] == x;
                assert(map@.contains_key(sf.local(all[y]) as usize));
                let z = sf.vertex_of(x);
                assert(0 <= z < all.len() && all[z] == x);
                assert(z == y);
            }
            if map@.contains_key(sf.local(x) as usize) {
                let y = choose|y: int|
                    0 <= y < all.len() && sf.local(x) as usize == sf.local(all[y]) as usize;
                assert(sf.is_surface(all[y]));
                lemma_local_bound(sf, all[y]);
                lemma_local_injective(sf, all[y], x);
            }
        }
    }
    (cells, map)
}


/// The vertex stored under `key`, if any.
fn lookup_vertex(map: &HashMap<usize, u32>, key: usize) -> (r: Option<u32>)
    ensures
        r matches Some(v) ==> map@.contains_key(key) && map@[key] == v,
        r is None ==> !map@.contains_key(key),
{
    match map.get(&key) {
        Some(v) => Some(*v),
        None => None,
    }
}

/// `p` moved one node up along axis `d`.
fn step_up(p: [usize; 3], d: usize) -> (r: [usize; 3])
    requires
        d < 3,
        p[d as int] < usize::MAX,
    ensures
        pt(r) == step(pt(p), d as int, 1),
{
    if d == 0 {
        [p[0] + 1, p[1], p[2]]
    } else if d == 1 {
        [p[0], p[1] + 1, p[2]]
    } else {
        [p[0], p[1], p[2] + 1]
    }
}

/// `p` moved `delta` (0 or 1) nodes down along axis `d`.
fn step_down(p: [usize; 3], d: usize, delta: usize) -> (r: [usize; 3])
    requires
        d < 3,
        delta <= p[d as int],
    ensures
        pt(r) == step(pt(p), d as int, -delta),
{
    if d == 0 {
        [p[0] - delta, p[1], p[2]]
    } else if d == 1 {
        [p[0], p[1] - delta, p[2]]
    } else {
        [p[0], p[1], p[2] - delta]
    }
}

/// The `s`-th cell around the edge from `p` along `ax` (see `quad_cell`).
fn quad_cell_exec(p: [usize; 3], ax: usize, s: usize) -> (r: [usize; 3])
    requires
        ax < 3,
        s < 4,
        p[((ax + 1) % 3) as int] >= 1,
        p[((ax + 2) % 3) as int] >= 1,
    ensures
        pt(r) == quad_cell(pt(p), ax as int, s as int),
{
    let u = (ax + 1) % 3;
    let v = (ax + 2) % 3;
    let du: usize = if s == 0 || s == 3 {
        1
    } else {
        0
    };
    let dv: usize = if s == 0 || s == 1 {
        1
    } else {
        0
    };
    let a = step_down(p, u, du);
    assert(a[v as int] == p[v as int]);
    step_down(a, v, dv)
}

/// The vertex of the `s`-th cell around the edge from `p` along `ax`, or
/// `None` where that cell carries none.
fn quad_vertex_exec(
    sf: &SignField,
    map: &HashMap<usize, u32>,
    p: [usize; 3],
    ax: usize,
    s: usize,
) -> (r: Option<u32>)
    requires
        sf.wf(),
        vertex_map(sf, map@),
        sf.has_node(pt(p)),
        ax < 3,
        s < 4,
        coord(pt(p), (ax + 1) % 3) != sf.lo_at((ax + 1) % 3),
        coord(pt(p), (ax + 2) % 3) != sf.lo_at((ax + 2) % 3),
    ensures
        r is Some <==> sf.is_surface(quad_cell(pt(p), ax as int, s as int)),
        r matches Some(v) ==> v == sf.quad_vertex(pt(p), ax as int, s as int),
{
    let c = quad_cell_exec(p, ax, s);
    let ghost cp = pt(c);
    proof {
        reveal(vertex_map);
    }
    assert(sf.has_node(cp));
    let key = local_index(sf, c[0], c[1], c[2]);
    assert(sf.local(cp) == key);
    lookup_vertex(map, key)
}

/// Appends the triangles of the quad around the edge from `p` along `ax`.
#[verifier::spinoff_prover]
#[verifier::rlimit(40)]
fn push_edge_tris(
    sf: &SignField,
    map: &HashMap<usize, u32>,
    p: [usize; 3],
    ax: usize,
    tris: &mut Vec<[u32; 3]>,
)
    requires
        sf.wf(),
        vertex_map(sf, map@),
        sf.has_node(pt(p)),
        ax < 3,
    ensures
        final(tris)@.map_values(|t: [u32; 3]| tri_of(t)) == old(tris)@.map_values(
            |t: [u32; 3]| tri_of(t),
        ) + sf.edge_tris(pt(p), ax as int),
{
    reveal(SignField::edge_tris);
    let ghost pp = pt(p);
    let hi = [sf.lo[0] + sf.dims[0], sf.lo[1] + sf.dims[1], sf.lo[2] + sf.dims[2]];
    assert(hi[ax as int] == sf.hi_at(ax as int));
    assert(sf.lo[ax as int] == sf.lo_at(ax as int));
    if p[ax] + 1 >= hi[ax] {
        assert(tris@.map_values(|t: [u32; 3]| tri_of(t)) + sf.edge_tris(pp, ax as int) =~= tris@.map_values(|t: [u32; 3]| tri_of(t)));
        return ;
    }
    let q = step_up(p, ax);
    assert(sf.has_node(pt(q)));
    let ip = inside_bit(sf, p[0], p[1], p[2]);
    let iq = inside_bit(sf, q[0], q[1], q[2]);
    if ip == iq {
        assert(tris@.map_values(|t: [u32; 3]| tri_of(t)) + sf.edge_tris(pp, ax as int) =~= tris@.map_values(|t: [u32; 3]| tri_of(t)));
        return ;
    }
    let u = (ax + 1) % 3;
    let v = (ax + 2) % 3;
    assert(sf.lo[u as int] == sf.lo_at(u as int));
    assert(sf.lo[v as int] == sf.lo_at(v as int));
    if p[u] == sf.lo[u] || p[v] == sf.lo[v] {
        assert(tris@.map_values(|t: [u32; 3]| tri_of(t)) + sf.edge_tris(pp, ax as int) =~= tris@.map_values(|t: [u32; 3]| tri_of(t)));
        return ;
    }
    let v0 = quad_vertex_exec(sf, map, p, ax, 0);
    let v1 = quad_vertex_exec(sf, map, p, ax, 1);
    let v2 = quad_vertex_exec(sf, map, p, ax, 2);
    let v3 = quad_vertex_exec(sf, map, p, ax, 3);
    match (v0, v1, v2, v3) {
        (Some(a), Some(b), Some(c), Some(d)) => {
            let l = local_index(sf, p[0], p[1], p[2]);
            let (a, b, c, d) = match sf.signs[l] {
                NodeSign::NonNegative => (d, c, b, a),
                _ => (a, b, c, d),
            };
            let ghost before = tris@.map_values(|t: [u32; 3]| tri_of(t));
            tris.push([a, b, c]);
            tris.push([a, c, d]);
            assert(tris@.map_values(|t: [u32; 3]| tri_of(t)) =~= before + sf.edge_tris(pp, ax as int));
        },
        _ => {
            assert(tris@.map_values(|t: [u32; 3]| tri_of(t)) + sf.edge_tris(pp, ax as int) =~= tris@.map_values(|t: [u32; 3]| tri_of(t)));
        },
    }
}


/// Pass 2: the triangles of every grid edge, node by node in storage order.
#[verifier::spinoff_prover]
fn face_pass(sf: &SignField, map: &HashMap<usize, u32>) -> (tris: Vec<[u32; 3]>)
    requires
        sf.wf(),
        vertex_map(sf, map@),
    ensures
        tris@.map_values(|t: [u32; 3]| tri_of(t)) == sf.faces(),
{
    let mut tris: Vec<[u32; 3]> = Vec::new();
    let ghost d0 = sf.dims[0] as int;
    let ghost d1 = sf.dims[1] as int;
    let ghost d2 = sf.dims[2] as int;
    let ghost mut t: int = 0;
    let hi0 = sf.lo[0] + sf.dims[0];
    let hi1 = sf.lo[1] + sf.dims[1];
    let hi2 = sf.lo[2] + sf.dims[2];
    let mut k = sf.lo[2];
    while k < hi2
        invariant
            sf.wf(),
            vertex_map(sf, map@),
            hi0 == sf.lo[0] + sf.dims[0],
            hi1 == sf.lo[1] + sf.dims[1],
            hi2 == sf.lo[2] + sf.dims[2],
            d0 == sf.dims[0],
            d1 == sf.dims[1],
            d2 == sf.dims[2],
            sf.lo[2] <= k <= hi2,
            t == d0 * d1 * (k - sf.lo[2]),
            tris@.map_values(|t: [u32; 3]| tri_of(t)) == sf.faces_prefix(t as nat),
        decreases hi2 - k,
    {
        let mut j = sf.lo[1];
        assert(t == d0 * ((j - sf.lo[1]) + d1 * (k - sf.lo[2]))) by (nonlinear_arith)
            requires
                t == d0 * d1 * (k - sf.lo[2]),
                j == sf.lo[1],
        ;
        while j < hi1
            invariant
                sf.wf(),
                vertex_map(sf, map@),
                hi0 == sf.lo[0] + sf.dims[0],
                hi1 == sf.lo[1] + sf.dims[1],
                hi2 == sf.lo[2] + sf.dims[2],
                d0 == sf.dims[0],
                d1 == sf.dims[1],
                d2 == sf.dims[2],
                sf.lo[2] <= k < hi2,
                sf.lo[1] <= j <= hi1,
                t == d0 * ((j - sf.lo[1]) + d1 * (k - sf.lo[2])),
                tris@.map_values(|t: [u32; 3]| tri_of(t)) == sf.faces_prefix(t as nat),
            decreases hi1 - j,
        {
            let mut i = sf.lo[0];
            while i < hi0
                invariant
                    sf.wf(),
                    vertex_map(sf, map@),
                    hi0 == sf.lo[0] + sf.dims[0],
                    hi1 == sf.lo[1] + sf.dims[1],
                    hi2 == sf.lo[2] + sf.dims[2],
                    d0 == sf.dims[0],
                    d1 == sf.dims[1],
                    d2 == sf.dims[2],
                    sf.lo[2] <= k < hi2,
                    sf.lo[1] <= j < hi1,
                    sf.lo[0] <= i <= hi0,
                    t == (i - sf.lo[0]) + d0 * ((j - sf.lo[1]) + d1 * (k - sf.lo[2])),
                    tris@.map_values(|t: [u32; 3]| tri_of(t)) == sf.faces_prefix(t as nat),
                decreases hi0 - i,
            {
                let p = [i, j, k];
                proof {
                    lemma_unflatten_flat_index(d0, d1, i - sf.lo[0], j - sf.lo[1], k - sf.lo[2]);
                    assert(sf.node_at(t) == pt(p));
                }
                let ghost before = tris@.map_values(|t: [u32; 3]| tri_of(t));
                push_edge_tris(sf, map, p, 0, &mut tris);
                push_edge_tris(sf, map, p, 1, &mut tris);
                push_edge_tris(sf, map, p, 2, &mut tris);
                proof {
                    assert(sf.faces_prefix((t + 1) as nat) == before + sf.node_tris(pt(p)));
                    assert(tris@.map_values(|t: [u32; 3]| tri_of(t)) =~= sf.faces_prefix(
                        (t + 1) as nat,
                    ));
                }
                i = i + 1;
                proof {
                    t = t + 1;
                }
            }
            proof {
                assert(t == d0 * ((j + 1 - sf.lo[1]) + d1 * (k - sf.lo[2]))) by (nonlinear_arith)
                    requires
                        t == (i - sf.lo[0]) + d0 * ((j - sf.lo[1]) + d1 * (k - sf.lo[2])),
                        i - sf.lo[0] == d0,
                ;
            }
            j = j + 1;
        }
        proof {
            assert(t == d0 * d1 * (k + 1 - sf.lo[2])) by (nonlinear_arith)
                requires
                    t == d0 * ((j - sf.lo[1]) + d1 * (k - sf.lo[2])),
                    j - sf.lo[1] == d1,
            ;
        }
        k = k + 1;
    }
    proof {
        assert(t == node_total(sf.dims)) by (nonlinear_arith)
            requires
                t == d0 * d1 * (k - sf.lo[2]),
                k - sf.lo[2] == d2,
                d0 == sf.dims[0],
                d1 == sf.dims[1],
                d2 == sf.dims[2],
        ;
    }
    tris
}

/// The connectivity of a contoured surface: the cells that carry a vertex,
/// in vertex order, and the triangles as triples of vertex indices.
pub struct Topology {
    pub cells: Vec<[usize; 3]>,
    pub tris: Vec<[u32; 3]>,
}

/// Contours the zero level of a field given by its signs: one vertex per
/// surface cell in scan order, and two triangles per grid edge that changes
/// sign and has a vertex in each of its four cells (edges on the low border
/// of the box are skipped), wound from inside to outside. Vertex indices are
/// cut to 32 bits, so beyond 2^32 surface cells they wrap around.
pub fn contour_topology(sf: &SignField) -> (r: Topology)
    requires
        sf.wf(),
    ensures
        r.cells@.map_values(|a: [usize; 3]| pt(a)) == sf.surface_cells(),
        r.tris@.map_values(|t: [u32; 3]| tri_of(t)) == sf.faces(),
        forall|x: int|
            0 <= x < r.tris@.len() ==> {
                &&& (#[trigger] r.tris@[x])[0] < r.cells@.len()
                &&& r.tris@[x][1] < r.cells@.len()
                &&& r.tris@[x][2] < r.cells@.len()
            },
{
    let (cells, map) = surface_pass(sf);
    let tris = face_pass(sf, &map);
    proof {
        lemma_faces_in_range(sf);
        assert forall|x: int| 0 <= x < tris@.len() implies {
            &&& (#[trigger] tris@[x])[0] < cells@.len()
            &&& tris@[x][1] < cells@.len()
            &&& tris@[x][2] < cells@.len()
        } by {
            assert(tri_of(tris@[x]) == sf.faces()[x]);
            assert(cells@.len() == sf.surface_cells().len());
        }
    }
    Topology { cells, tris }
}

/// Exec view of a node's coordinates.
fn local_index(sf: &SignField, x: usize, y: usize, z: usize) -> (r: usize)
    requires
        sf.wf(),
        sf.has_node((x as int, y as int, z as int)),
    ensures
        r == sf.local((x as int, y as int, z as int)),
        r < sf.signs.len(),
{
    proof {
        lemma_local_bound(sf, (x as int, y as int, z as int));
    }
    let i = x - sf.lo[0];
    let j = y - sf.lo[1];
    let k = z - sf.lo[2];
    proof {
        let n0 = sf.dims[0] as int;
        let n1 = sf.dims[1] as int;
        assert(0 <= n1 * k) by (nonlinear_arith)
            requires
                0 <= n1,
                0 <= k,
        ;
        assert(0 <= n0 * (j + n1 * k)) by (nonlinear_arith)
            requires
                0 <= n0,
                0 <= j + n1 * k,
        ;
    }
    i + sf.dims[0] * (j + sf.dims[1] * k)
}

/// 1 if the node is inside, else 0.
fn inside_bit(sf: &SignField, x: usize, y: usize, z: usize) -> (r: u8)
    requires
        sf.wf(),
        sf.has_node((x as int, y as int, z as int)),
    ensures
        r == sf.inside_bit((x as int, y as int, z as int)),
{
    let l = local_index(sf, x, y, z);
    match sf.signs[l] {
        NodeSign::Negative => 1,
        _ => 0,
    }
}

/// Whether the zero level passes through the cell with lowest node (i, j, k).
fn cell_is_surface(sf: &SignField, i: usize, j: usize, k: usize) -> (r: bool)
    requires
        sf.wf(),
        sf.has_cell((i as int, j as int, k as int)),
    ensures
        r == sf.is_surface((i as int, j as int, k as int)),
{
    let c = Ghost((i as int, j as int, k as int));
    assert(corner(c@, 0) == (i as int, j as int, k as int));
    assert(corner(c@, 1) == (i + 1, j as int, k as int));
    assert(corner(c@, 2) == (i as int, j + 1, k as int));
    assert(corner(c@, 3) == (i + 1, j + 1, k as int));
    assert(corner(c@, 4) == (i as int, j as int, k + 1));
    assert(corner(c@, 5) == (i + 1, j as int, k + 1));
    assert(corner(c@, 6) == (i as int, j + 1, k + 1));
    assert(corner(c@, 7) == (i + 1, j + 1, k + 1));
    let n = inside_bit(sf, i, j, k) + inside_bit(sf, i + 1, j, k) + inside_bit(sf, i, j + 1, k)
        + inside_bit(sf, i + 1, j + 1, k) + inside_bit(sf, i, j, k + 1) + inside_bit(
        sf,
        i + 1,
        j,
        k + 1,
    ) + inside_bit(sf, i, j + 1, k + 1) + inside_bit(sf, i + 1, j + 1, k + 1);
    n != 0 && n != 8
}

/// Corners `c0` and `c1` (0..8) of cell `c` are the ends of one of its
/// edges, `c1` being `c0` moved one step up along an axis.
pub open spec fn is_cell_edge(c: Pt, c0: int, c1: int) -> bool {
    &&& 0 <= c0 < 8
    &&& 0 <= c1 < 8
    &&& {
        ||| step(corner(c, c0), 0, 1) == corner(c, c1)
        ||| step(corner(c, c0), 1, 1) == corner(c, c1)
        ||| step(corner(c, c0), 2, 1) == corner(c, c1)
    }
}

/// `p` comes before `q` by first corner, then by second corner.
pub open spec fn pair_before(p: (usize, usize), q: (usize, usize)) -> bool {
    p.0 < q.0 || (p.0 == q.0 && p.1 < q.1)
}

spec fn edge_pair(k: int) -> (usize, usize) {
    (cell_edge(k).0 as usize, cell_edge(k).1 as usize)
}

/// The twelve edges, each in the direction of `is_cell_edge`, listed in
/// increasing order.
proof fn lemma_edge_pairs(c: Pt)
    ensures
        forall|k: int| 0 <= k < 12 ==> is_cell_edge(c, cell_edge(k).0, cell_edge(k).1),
        forall|k: int| 0 <= k < 12 ==> #[trigger] edge_pair(k) == (cell_edge(k).0 as usize, cell_edge(k).1 as usize)
            && 0 <= cell_edge(k).0 < 8 && 0 <= cell_edge(k).1 < 8,
        forall|j: int, k: int| 0 <= j < k < 12 ==> pair_before(#[trigger] edge_pair(j), #[trigger] edge_pair(k)),
{
    assert forall|k: int| 0 <= k < 12 implies is_cell_edge(c, cell_edge(k).0, cell_edge(k).1) by {
        assert(k == 0 || k == 1 || k == 2 || k == 3 || k == 4 || k == 5 || k == 6 || k == 7 || k == 8
            || k == 9 || k == 10 || k == 11);
    }
}

/// Every edge of a cell, in the direction of `is_cell_edge`, is one of the
/// twelve of `cell_edge`.
proof fn lemma_edge_number(c: Pt, c0: int, c1: int) -> (k: int)
    requires
        is_cell_edge(c, c0, c1),
    ensures
        0 <= k < 12,
        cell_edge(k) == (c0, c1),
{
    assert(c0 == 0 || c0 == 1 || c0 == 2 || c0 == 3 || c0 == 4 || c0 == 5 || c0 == 6 || c0 == 7);
    assert(c1 == 0 || c1 == 1 || c1 == 2 || c1 == 3 || c1 == 4 || c1 == 5 || c1 == 6 || c1 == 7);
    if c0 == 0 && c1 == 1 { 0 }
    else if c0 == 0 && c1 == 2 { 1 }
    else if c0 == 0 && c1 == 4 { 2 }
    else if c0 == 1 && c1 == 3 { 3 }
    else if c0 == 1 && c1 == 5 { 4 }
    else if c0 == 2 && c1 == 3 { 5 }
    else if c0 == 2 && c1 == 6 { 6 }
    else if c0 == 3 && c1 == 7 { 7 }
    else if c0 == 4 && c1 == 5 { 8 }
    else if c0 == 4 && c1 == 6 { 9 }
    else if c0 == 5 && c1 == 7 { 10 }
    else {
        assert(c0 == 6 && c1 == 7);
        11
    }
}

proof fn lemma_crossings_prefix(sf: &SignField, c: Pt, e: nat)
    requires
        e <= 12,
    ensures
        ({
            let cr = sf.crossings_prefix(c, e);
            &&& forall|x: int|
                0 <= x < cr.len() ==> is_cell_edge(c, cr[x].0 as int, cr[x].1 as int)
                    && sf.inside(corner(c, cr[x].0 as int)) != sf.inside(corner(c, cr[x].1 as int))
                    && (e < 12 ==> pair_before(cr[x], edge_pair(e as int)))
            &&& forall|x: int, y: int| 0 <= x < y < cr.len() ==> pair_before(cr[x], cr[y])
            &&& forall|k: int|
                0 <= k < 12 ==> (cr.contains(#[trigger] edge_pair(k)) <==> (k < e && sf.inside(
                    corner(c, cell_edge(k).0),
                ) != sf.inside(corner(c, cell_edge(k).1))))
        }),
    decreases e,
{
    lemma_edge_pairs(c);
    if e > 0 {
        lemma_crossings_prefix(sf, c, (e - 1) as nat);
        let prev = sf.crossings_prefix(c, (e - 1) as nat);
        let cr = sf.crossings_prefix(c, e);
        let k0 = e - 1;
        let (c0, c1) = cell_edge(k0);
        assert(edge_pair(k0) == (c0 as usize, c1 as usize));
        if e < 12 {
            assert(pair_before(edge_pair(k0), edge_pair(e as int)));
        }
        if sf.inside(corner(c, c0)) != sf.inside(corner(c, c1)) {
            assert(cr == prev.push(edge_pair(k0)));
            assert forall|k: int| 0 <= k < 12 implies (cr.contains(#[trigger] edge_pair(k)) <==> (k
                < e && sf.inside(corner(c, cell_edge(k).0)) != sf.inside(
                corner(c, cell_edge(k).1),
            ))) by {
                if k == k0 {
                    assert(cr[prev.len() as int] == edge_pair(k));
                } else if cr.contains(edge_pair(k)) {
                    let x = choose|x: int| 0 <= x < cr.len() && cr[x] == edge_pair(k);
                    if x < prev.len() {
                        assert(prev[x] == cr[x]);
                        assert(prev.contains(edge_pair(k)));
                    }
                } else if k < k0 && prev.contains(edge_pair(k)) {
                    let x = choose|x: int| 0 <= x < prev.len() && prev[x] == edge_pair(k);
                    assert(cr[x] == prev[x]);
                }
            }
        } else {
            assert(cr == prev);
            assert forall|k: int| 0 <= k < 12 implies (cr.contains(#[trigger] edge_pair(k)) <==> (k
                < e && sf.inside(corner(c, cell_edge(k).0)) != sf.inside(
                corner(c, cell_edge(k).1),
            ))) by {
                if k == k0 && cr.contains(edge_pair(k)) {
                    let x = choose|x: int| 0 <= x < cr.len() && cr[x] == edge_pair(k);
                    assert(pair_before(cr[x], edge_pair(k0)));
                }
            }
        }
    }
}

/// What a cell's crossings are: each reported pair is an edge of the cell
/// (its second corner one step up from its first) whose two ends differ in
/// being inside; every edge whose ends differ is reported; and the pairs come
/// in increasing order of first corner, then second corner, each once.
pub proof fn lemma_crossings(sf: &SignField, c: Pt)
    ensures
        forall|x: int|
            0 <= x < sf.crossings(c).len() ==> is_cell_edge(
                c,
                #[trigger] sf.crossings(c)[x].0 as int,
                sf.crossings(c)[x].1 as int,
            ) && sf.inside(corner(c, sf.crossings(c)[x].0 as int)) != sf.inside(
                corner(c, sf.crossings(c)[x].1 as int),
            ),
        forall|c0: int, c1: int|
            #[trigger] is_cell_edge(c, c0, c1) ==> (sf.crossings(c).contains((c0 as usize, c1 as usize))
                <==> sf.inside(corner(c, c0)) != sf.inside(corner(c, c1))),
        forall|x: int, y: int|
            0 <= x < y < sf.crossings(c).len() ==> pair_before(
                #[trigger] sf.crossings(c)[x],
                #[trigger] sf.crossings(c)[y],
            ),
{
    lemma_crossings_prefix(sf, c, 12);
    lemma_edge_pairs(c);
    assert forall|c0: int, c1: int| #[trigger] is_cell_edge(c, c0, c1) implies (sf.crossings(
        c,
    ).contains((c0 as usize, c1 as usize)) <==> sf.inside(corner(c, c0)) != sf.inside(
        corner(c, c1),
    )) by {
        let k = lemma_edge_number(c, c0, c1);
        assert(edge_pair(k) == (c0 as usize, c1 as usize));
    }
}

/// The corner pairs of the edges of a cell along which the field changes
/// between inside and not inside, in the fixed edge order of `cell_edge`.
pub fn cell_crossings(sf: &SignField, cell: [usize; 3]) -> (r: Vec<(usize, usize)>)
    requires
        sf.wf(),
        sf.has_cell(pt(cell)),
    ensures
        r@ == sf.crossings(pt(cell)),
        forall|x: int|
            0 <= x < r@.len() ==> is_cell_edge(pt(cell), #[trigger] r@[x].0 as int, r@[x].1 as int)
                && sf.inside(corner(pt(cell), r@[x].0 as int)) != sf.inside(
                corner(pt(cell), r@[x].1 as int),
            ),
        forall|c0: int, c1: int|
            #[trigger] is_cell_edge(pt(cell), c0, c1) ==> (r@.contains((c0 as usize, c1 as usize))
                <==> sf.inside(corner(pt(cell), c0)) != sf.inside(corner(pt(cell), c1))),
        forall|x: int, y: int|
            0 <= x < y < r@.len() ==> pair_before(#[trigger] r@[x], #[trigger] r@[y]),
{
    proof {
        lemma_crossings(sf, pt(cell));
    }
    let mut out: Vec<(usize, usize)> = Vec::new();
    let mut e: usize = 0;
    while e < 12
        invariant
            sf.wf(),
            sf.has_cell(pt(cell)),
            e <= 12,
            out@ == sf.crossings_prefix(pt(cell), e as nat),
        decreases 12 - e,
    {
        let (c0, c1) = edge_corners(e);
        let a = inside_bit(sf, cell[0] + c0 % 2, cell[1] + (c0 / 2) % 2, cell[2] + c0 / 4);
        let b = inside_bit(sf, cell[0] + c1 % 2, cell[1] + (c1 / 2) % 2, cell[2] + c1 / 4);
        if a != b {
            out.push((c0, c1));
        }
        e = e + 1;
    }
    out
}

/// Exec form of `cell_edge`.
fn edge_corners(e: usize) -> (r: (usize, usize))
    requires
        e < 12,
    ensures
        r.0 as int == cell_edge(e as int).0,
        r.1 as int == cell_edge(e as int).1,
        r.0 < 8,
        r.1 < 8,
{
    match e {
        0 => (0, 1),
        1 => (0, 2),
        2 => (0, 4),
        3 => (1, 3),
        4 => (1, 5),
        5 => (2, 3),
        6 => (2, 6),
        7 => (3, 7),
        8 => (4, 5),
        9 => (4, 6),
        10 => (5, 7),
        _ => (6, 7),
    }
}

} // verus!
