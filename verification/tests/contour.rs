use softjaw_core::dc::{cell_crossings, contour_topology, NodeSign, SignField};
use std::collections::HashMap;

/// A box of nodes `lo .. lo + dims` whose signs come from `inside`.
fn field(lo: [usize; 3], dims: [usize; 3], inside: &dyn Fn(usize, usize, usize) -> bool) -> SignField {
    let mut signs = Vec::new();
    for k in 0..dims[2] {
        for j in 0..dims[1] {
            for i in 0..dims[0] {
                signs.push(if inside(lo[0] + i, lo[1] + j, lo[2] + k) {
                    NodeSign::Negative
                } else {
                    NodeSign::NonNegative
                });
            }
        }
    }
    SignField { lo, dims, signs }
}

/// Directed triangle sides and how often each occurs.
fn sides(tris: &[[u32; 3]]) -> HashMap<(u32, u32), i32> {
    let mut e = HashMap::new();
    for t in tris {
        for s in 0..3 {
            *e.entry((t[s], t[(s + 1) % 3])).or_insert(0) += 1;
        }
    }
    e
}

fn assert_balanced(tris: &[[u32; 3]]) {
    let e = sides(tris);
    for (&(a, b), &n) in &e {
        assert_eq!(e.get(&(b, a)).copied().unwrap_or(0), n, "side {a}->{b}");
    }
}

#[test]
fn single_inside_node_gives_eight_cells_and_twelve_triangles() {
    let sf = field([0, 0, 0], [3, 3, 3], &|i, j, k| (i, j, k) == (1, 1, 1));
    let t = contour_topology(&sf);
    assert_eq!(
        t.cells,
        vec![
            [0, 0, 0],
            [1, 0, 0],
            [0, 1, 0],
            [1, 1, 0],
            [0, 0, 1],
            [1, 0, 1],
            [0, 1, 1],
            [1, 1, 1]
        ]
    );
    assert_eq!(
        t.tris,
        vec![
            [2, 3, 1],
            [2, 1, 0],
            [1, 5, 4],
            [1, 4, 0],
            [4, 6, 2],
            [4, 2, 0],
            [1, 3, 7],
            [1, 7, 5],
            [2, 6, 7],
            [2, 7, 3],
            [4, 5, 7],
            [4, 7, 6]
        ]
    );
}

#[test]
fn sealed_box_surface_is_closed() {
    let sf = field([0, 0, 0], [3, 3, 3], &|i, j, k| (i, j, k) == (1, 1, 1));
    let t = contour_topology(&sf);
    assert_balanced(&t.tris);
    // Here every side is matched by exactly one reverse side.
    for (_, n) in sides(&t.tris) {
        assert_eq!(n, 1);
    }
}

#[test]
fn ambiguous_face_stays_balanced() {
    // Two inside nodes on a diagonal of one face: four quads meet along one
    // line, two each way.
    let sf = field([0, 0, 0], [4, 4, 3], &|i, j, k| k == 1 && ((i, j) == (1, 1) || (i, j) == (2, 2)));
    let t = contour_topology(&sf);
    assert!(!t.tris.is_empty());
    assert_balanced(&t.tris);
}

#[test]
fn larger_blob_is_closed_and_indices_in_range() {
    let sf = field([2, 5, 1], [7, 6, 8], &|i, j, k| {
        let (x, y, z) = (i as i64 - 5, j as i64 - 8, k as i64 - 5);
        x * x + y * y + 2 * z * z <= 3 || (x == 2 && y == -1 && z == 1)
    });
    let t = contour_topology(&sf);
    assert_balanced(&t.tris);
    for tri in &t.tris {
        for &v in tri {
            assert!((v as usize) < t.cells.len());
        }
    }
    assert_eq!(t.tris.len() % 2, 0);
}

#[test]
fn outside_only_field_has_no_surface() {
    let sf = field([0, 0, 0], [4, 4, 4], &|_, _, _| false);
    let t = contour_topology(&sf);
    assert!(t.cells.is_empty());
    assert!(t.tris.is_empty());
}

#[test]
fn empty_and_flat_boxes_have_no_surface() {
    let t = contour_topology(&SignField { lo: [3, 3, 3], dims: [0, 5, 5], signs: vec![] });
    assert!(t.cells.is_empty() && t.tris.is_empty());
    let sf = field([0, 0, 0], [5, 1, 5], &|i, _, _| i < 2);
    let t = contour_topology(&sf);
    assert!(t.cells.is_empty() && t.tris.is_empty());
}

#[test]
fn inside_border_leaves_edges_out() {
    // Inside at the low corner of the box: the edges there are on the border
    // and have no quads, so the surface is open.
    let sf = field([0, 0, 0], [3, 3, 3], &|i, j, k| (i, j, k) == (0, 0, 0));
    let t = contour_topology(&sf);
    assert_eq!(t.cells, vec![[0, 0, 0]]);
    assert!(t.tris.is_empty());
}

#[test]
fn unordered_node_counts_as_not_inside() {
    let mut sf = field([0, 0, 0], [3, 3, 3], &|i, j, k| (i, j, k) == (1, 1, 1));
    let plain = contour_topology(&sf);
    // The node at (2, 1, 1) becomes not a number: same cells, same edges.
    sf.signs[2 + 3 * (1 + 3 * 1)] = NodeSign::Unordered;
    let t = contour_topology(&sf);
    assert_eq!(t.cells, plain.cells);
    assert_eq!(t.tris, plain.tris);
    // An unordered start node keeps the quad unreversed.
    sf.signs[0 + 3 * (1 + 3 * 1)] = NodeSign::Unordered;
    let t2 = contour_topology(&sf);
    assert_eq!(t2.tris[4], [0, 2, 6]);
    assert_eq!(t2.tris[5], [0, 6, 4]);
}

#[test]
fn crossings_of_a_corner_cell() {
    let sf = field([0, 0, 0], [3, 3, 3], &|i, j, k| (i, j, k) == (1, 1, 1));
    assert_eq!(cell_crossings(&sf, [0, 0, 0]), vec![(3, 7), (5, 7), (6, 7)]);
    assert_eq!(cell_crossings(&sf, [1, 1, 1]), vec![(0, 1), (0, 2), (0, 4)]);
    let all_out = field([0, 0, 0], [2, 2, 2], &|_, _, _| false);
    assert!(cell_crossings(&all_out, [0, 0, 0]).is_empty());
    let one = field([0, 0, 0], [2, 2, 2], &|i, j, k| (i, j, k) == (1, 0, 0));
    assert_eq!(cell_crossings(&one, [0, 0, 0]), vec![(0, 1), (1, 3), (1, 5)]);
}

#[test]
fn quads_face_away_from_the_inside_node() {
    // One inside node at (2, 2, 2): every quad's winding normal points away
    // from it.
    let sf = field([0, 0, 0], [5, 5, 5], &|i, j, k| (i, j, k) == (2, 2, 2));
    let t = contour_topology(&sf);
    assert_eq!(t.tris.len(), 12);
    let cell = |v: u32| -> [i64; 3] {
        let c = t.cells[v as usize];
        [c[0] as i64, c[1] as i64, c[2] as i64]
    };
    for q in t.tris.chunks(2) {
        let (k0, k1, k2, k3) = (cell(q[0][0]), cell(q[0][1]), cell(q[0][2]), cell(q[1][2]));
        let d1 = [k1[0] - k0[0], k1[1] - k0[1], k1[2] - k0[2]];
        let d2 = [k2[0] - k1[0], k2[1] - k1[1], k2[2] - k1[2]];
        let n = [
            d1[1] * d2[2] - d1[2] * d2[1],
            d1[2] * d2[0] - d1[0] * d2[2],
            d1[0] * d2[1] - d1[1] * d2[0],
        ];
        // Eight times the quad's centre, seen from eight times the node.
        let mut away = [0i64; 3];
        for d in 0..3 {
            away[d] = 2 * (k0[d] + k1[d] + k2[d] + k3[d]) + 4 - 8 * 2;
        }
        let dot = n[0] * away[0] + n[1] * away[1] + n[2] * away[2];
        assert!(dot > 0, "quad {:?} winds inward", q);
        assert_eq!(n[0].abs() + n[1].abs() + n[2].abs(), 1);
    }
}

#[test]
fn complemented_field_keeps_cells_and_reverses_sides() {
    let inside = |i: usize, j: usize, k: usize| (1..4).contains(&i) && j == 2 && (1..3).contains(&k);
    let a = contour_topology(&field([0, 0, 0], [5, 5, 5], &inside));
    let b = contour_topology(&field([0, 0, 0], [5, 5, 5], &|i, j, k| !inside(i, j, k)));
    assert_eq!(a.cells, b.cells);
    assert_eq!(a.tris.len(), b.tris.len());
    for (p, q) in a.tris.chunks(2).zip(b.tris.chunks(2)) {
        // The same quad, wound the other way.
        let qa = [p[0][0], p[0][1], p[0][2], p[1][2]];
        let qb = [q[0][0], q[0][1], q[0][2], q[1][2]];
        assert_eq!(qb, [qa[3], qa[2], qa[1], qa[0]]);
    }
}

#[test]
fn box_of_inside_nodes_gives_a_manifold() {
    // An axis-aligned block of inside nodes has no ambiguous face: every
    // directed side occurs once, and so does its reverse.
    let sf = field([1, 0, 2], [8, 7, 6], &|i, j, k| (3..7).contains(&i) && (2..5).contains(&j) && (3..6).contains(&k));
    let t = contour_topology(&sf);
    let e = sides(&t.tris);
    assert!(!e.is_empty());
    for (&(a, b), &n) in &e {
        assert_eq!(n, 1);
        assert_eq!(e.get(&(b, a)).copied(), Some(1));
    }
}

/// A box of nodes whose signs are those of the values `f` takes there.
fn field_of_values(lo: [usize; 3], dims: [usize; 3], f: &dyn Fn(f32, f32, f32) -> f32) -> SignField {
    let mut signs = Vec::new();
    for k in 0..dims[2] {
        for j in 0..dims[1] {
            for i in 0..dims[0] {
                let v = f((lo[0] + i) as f32, (lo[1] + j) as f32, (lo[2] + k) as f32);
                signs.push(if v < 0.0 {
                    NodeSign::Negative
                } else if v >= 0.0 {
                    NodeSign::NonNegative
                } else {
                    NodeSign::Unordered
                });
            }
        }
    }
    SignField { lo, dims, signs }
}

#[test]
fn same_inside_nodes_give_the_same_mesh() {
    let d1 = |x: f32, y: f32, z: f32| (x - 3.0).powi(2) + (y - 3.0).powi(2) + (z - 2.5).powi(2) - 4.0;
    let d2 = |x: f32, y: f32, z: f32| 7.0 * d1(x, y, z) + if d1(x, y, z) < 0.0 { -1.0 } else { 2.0 };
    let a = contour_topology(&field_of_values([0, 0, 0], [7, 7, 6], &d1));
    let b = contour_topology(&field_of_values([0, 0, 0], [7, 7, 6], &d2));
    assert!(!a.tris.is_empty());
    assert_eq!(a.cells, b.cells);
    assert_eq!(a.tris, b.tris);
}

#[test]
fn unordered_value_changes_only_the_winding() {
    let inside = |x: f32, y: f32, z: f32| (x, y, z) == (2.0, 1.0, 1.0);
    let one = |x: f32, y: f32, z: f32| if inside(x, y, z) { -1.0 } else { 1.0 };
    let nan_at_neighbour =
        |x: f32, y: f32, z: f32| if (x, y, z) == (1.0, 1.0, 1.0) { f32::NAN } else { one(x, y, z) };
    let a = contour_topology(&field_of_values([0, 0, 0], [4, 4, 4], &one));
    let b = contour_topology(&field_of_values([0, 0, 0], [4, 4, 4], &nan_at_neighbour));
    assert_eq!(a.cells, b.cells);
    assert_eq!(a.tris.len(), b.tris.len());
    assert_ne!(a.tris, b.tris);
}
