# softjaw-core

Turns a part mesh into a pair of machinable vise soft jaws: signed distance
grid, grown by the clearance, swept up so the part lifts out, subtracted from
the jaw boxes, contoured into a closed mesh and written as binary STL.

## Layout

- `src/` — the library, verified with Verus:
  - `grid.rs`: node counts and the storage layout (x fastest, then y, then z);
    the clamped node span used for bounding boxes.
  - `dc.rs`: the combinatorial half of dual contouring — which cells carry a
    vertex, and the two triangles of every grid edge that changes sign,
    wound from inside to outside.
  - `surface.rs`: properties of that mesh — indices in range, one vertex per
    surface cell, a closed surface when the box border is outside, outward
    winding, and reversed winding for the complemented field.
  - `manifold.rs`: where no cell face is ambiguous, every directed side of
    that closed surface occurs exactly once.
  - `stl.rs`: binary STL framing and what a reader gets back from it.
  - `jaw.rs`: the order of the input checks, the grid size limit, the slab
    contoured for each jaw.
  - `output.rs`: the result handed to the browser.
- `app/` — the floating-point geometry (distance field, sweep, vertex
  placement, normals) and the browser bindings, built on the library.
- `tests/` — tests of the library.
