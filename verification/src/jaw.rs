//! The pipeline's decisions that need no floating point: which input is
//! refused and why, the grid size limit, and the slab of the grid that is
//! contoured for one jaw.

use vstd::prelude::*;
use crate::grid::node_total;

verus! {

/// Stop before the browser runs out of memory (4 bytes per node).
pub const MAX_NODES: usize = 60_000_000;

/// Why jaws cannot be made from the given part and parameters.
#[derive(Clone, Copy, PartialEq, Eq, Debug)]
pub enum JawError {
    /// The part has no triangles.
    NoTriangles,
    /// The grid spacing is not greater than 0.
    BadResolution,
    /// The clearance or the gap is negative.
    NegativeOffset,
    /// A jaw dimension is not greater than 0.
    BadJawSize,
    /// The grid would have more than `MAX_NODES` nodes (`nodes`, or
    /// `usize::MAX` where the count does not fit a `usize`).
    GridTooLarge { dims: [usize; 3], nodes: usize },
}

/// The checks on the part and the parameters, in the order in which they are
/// made. The three flags are the outcomes of the comparisons on the
/// parameters: the grid spacing is greater than 0; neither the clearance nor
/// the gap is negative; width, height and thickness are greater than 0.
pub fn check_inputs(
    pos_len: usize,
    idx_len: usize,
    voxel_positive: bool,
    offsets_non_negative: bool,
    size_positive: bool,
) -> (r: Result<(), JawError>)
    ensures
        r == (if idx_len < 3 || pos_len < 9 {
            Err(JawError::NoTriangles)
        } else if !voxel_positive {
            Err(JawError::BadResolution)
        } else if !offsets_non_negative {
            Err(JawError::NegativeOffset)
        } else if !size_positive {
            Err(JawError::BadJawSize)
        } else {
            Ok(())
        }),
{
    if idx_len < 3 || pos_len < 9 {
        return Err(JawError::NoTriangles);
    }
    if !voxel_positive {
        return Err(JawError::BadResolution);
    }
    if !offsets_non_negative {
        return Err(JawError::NegativeOffset);
    }
    if !size_positive {
        return Err(JawError::BadJawSize);
    }
    Ok(())
}

/// The node count of a grid with `n` nodes per axis, refused above
/// `MAX_NODES`. A count too large for a `usize` is refused too, and is
/// reported as `usize::MAX`.
pub fn check_grid(n: [usize; 3]) -> (r: Result<usize, JawError>)
    ensures
        node_total(n) <= MAX_NODES ==> r == Ok::<usize, JawError>(node_total(n) as usize),
        MAX_NODES < node_total(n) <= usize::MAX ==> r == Err::<usize, JawError>(
            JawError::GridTooLarge { dims: n, nodes: node_total(n) as usize },
        ),
        node_total(n) > usize::MAX ==> r == Err::<usize, JawError>(
            JawError::GridTooLarge { dims: n, nodes: usize::MAX },
        ),
{
    if n[0] == 0 || n[1] == 0 || n[2] == 0 {
        assert(node_total(n) == 0) by (nonlinear_arith)
            requires
                n[0] == 0 || n[1] == 0 || n[2] == 0,
                node_total(n) == n[0] * n[1] * n[2],
        ;
        return Ok(0);
    }
    assert(n[0] * n[1] <= node_total(n)) by (nonlinear_arith)
        requires
            n[2] >= 1,
            n[0] * n[1] >= 0,
            node_total(n) == n[0] * n[1] * n[2],
    ;
    match n[0].checked_mul(n[1]) {
        None => Err(JawError::GridTooLarge { dims: n, nodes: usize::MAX }),
        Some(p) => match p.checked_mul(n[2]) {
            None => Err(JawError::GridTooLarge { dims: n, nodes: usize::MAX }),
            Some(nodes) => {
                if nodes > MAX_NODES {
                    Err(JawError::GridTooLarge { dims: n, nodes })
                } else {
                    Ok(nodes)
                }
            },
        },
    }
}

/// The node box contoured for one jaw: all of x and z, and along y the
/// span of nodes around the jaw, or every node where that span is empty.
/// The box runs from the first bound up to, not including, the second.
pub fn slab_bounds(n: [usize; 3], span: Option<(usize, usize)>) -> (r: ([usize; 3], [usize; 3]))
    requires
        n[1] >= 1,
        span matches Some((a, b)) ==> b < usize::MAX,
    ensures
        r.0[0] == 0 && r.0[2] == 0,
        r.1[0] == n[0] && r.1[2] == n[2],
        span matches Some((a, b)) ==> r.0[1] == a && r.1[1] == b + 1,
        span is None ==> r.0[1] == 0 && r.1[1] == n[1],
{
    let (j0, j1) = match span {
        Some(s) => s,
        None => (0, n[1] - 1),
    };
    ([0, j0, 0], [n[0], j1 + 1, n[2]])
}

} // verus!
