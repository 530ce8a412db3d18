//! What the browser receives: the two jaws as binary STL, their triangle
//! counts and the grid size.

use vstd::prelude::*;
use vstd::string::StringSliceAdditionalSpecFns;
use crate::grid::node_total;
use crate::jaw::{check_grid, JawError, MAX_NODES};
use crate::stl::{
    binary_stl, binary_stl_bytes, header_tag, le_value, lemma_binary_stl_reads_back,
};

verus! {

/// The bytes of `jaw A`, the name written into the +Y jaw's header.
pub open spec fn name_a() -> Seq<u8> {
    seq![106u8, 97u8, 119u8, 32u8, 65u8]
}

/// The bytes of `jaw B`, the name written into the -Y jaw's header.
pub open spec fn name_b() -> Seq<u8> {
    seq![106u8, 97u8, 119u8, 32u8, 66u8]
}

/// For a grid within the node limit: its counts cut to 32 bits multiply to
/// at most the limit, and where no axis is empty each count is itself within
/// the limit (so cutting it to 32 bits keeps it).
proof fn lemma_dims_fit(dims: [usize; 3])
    requires
        node_total(dims) <= MAX_NODES,
    ensures
        (dims[0] as u32) * (dims[1] as u32) * (dims[2] as u32) <= MAX_NODES,
        dims[0] >= 1 && dims[1] >= 1 && dims[2] >= 1 ==> dims[0] <= MAX_NODES && dims[1]
            <= MAX_NODES && dims[2] <= MAX_NODES,
{
    let (a, b, c) = (dims[0] as int, dims[1] as int, dims[2] as int);
    if a >= 1 && b >= 1 && c >= 1 {
        assert(a <= a * b * c && b <= a * b * c && c <= a * b * c) by (nonlinear_arith)
            requires
                a >= 1,
                b >= 1,
                c >= 1,
        ;
        assert(dims[0] as u32 == a && dims[1] as u32 == b && dims[2] as u32 == c);
    } else {
        assert(a == 0 || b == 0 || c == 0);
        assert((dims[0] as u32) * (dims[1] as u32) * (dims[2] as u32) == 0) by (nonlinear_arith)
            requires
                dims[0] as u32 == 0 || dims[1] as u32 == 0 || dims[2] as u32 == 0,
        ;
    }
}

/// A file as the browser receives it for a jaw called `name` with `n`
/// facets: 84 + 50n bytes, the header starting with `softjaw ` and the
/// name, and the count field holding `count`.
pub open spec fn delivered_stl(file: Seq<u8>, name: Seq<u8>, n: int, count: u32) -> bool {
    &&& file.len() == 84 + 50 * n
    &&& file.subrange(0, 8 + name.len() as int) == header_tag() + name
    &&& le_value(file.subrange(80, 84)) == count
}

/// The finished jaws.
pub struct JawOutput {
    a: Vec<u8>,
    b: Vec<u8>,
    tris_a: u32,
    tris_b: u32,
    grid: Vec<u32>,
}

impl JawOutput {
    /// Binary STL of the +Y jaw.
    pub closed spec fn stl_a(&self) -> Seq<u8> {
        self.a@
    }

    /// Binary STL of the -Y jaw.
    pub closed spec fn stl_b(&self) -> Seq<u8> {
        self.b@
    }

    /// Triangle count of the +Y jaw.
    pub closed spec fn count_a(&self) -> u32 {
        self.tris_a
    }

    /// Triangle count of the -Y jaw.
    pub closed spec fn count_b(&self) -> u32 {
        self.tris_b
    }

    /// Grid size used, [nx, ny, nz].
    pub closed spec fn dims(&self) -> Seq<u32> {
        self.grid@
    }

    /// Collects the results; counts and sizes are cut to 32 bits.
    pub fn new(a: Vec<u8>, b: Vec<u8>, tris_a: usize, tris_b: usize, dims: [usize; 3]) -> (r:
        JawOutput)
        ensures
            r.stl_a() == a@,
            r.stl_b() == b@,
            r.count_a() == tris_a as u32,
            r.count_b() == tris_b as u32,
            r.dims() == seq![dims[0] as u32, dims[1] as u32, dims[2] as u32],
    {
        #[verifier::truncate]
        let ta = tris_a as u32;
        #[verifier::truncate]
        let tb = tris_b as u32;
        #[verifier::truncate]
        let g0 = dims[0] as u32;
        #[verifier::truncate]
        let g1 = dims[1] as u32;
        #[verifier::truncate]
        let g2 = dims[2] as u32;
        let mut grid: Vec<u32> = Vec::new();
        grid.push(g0);
        grid.push(g1);
        grid.push(g2);
        assert(grid@ =~= seq![dims[0] as u32, dims[1] as u32, dims[2] as u32]);
        JawOutput { a, b, tris_a: ta, tris_b: tb, grid }
    }

    /// Writes both jaws as binary STL, named `jaw A` and `jaw B`, from their
    /// facets (twelve words each, see `binary_stl_bytes`), and records their
    /// triangle counts and the grid size. A grid over `MAX_NODES` nodes is
    /// refused as `check_grid` refuses it, so what reaches the browser always
    /// describes a grid within the limit.
    pub fn from_facets(facets_a: &Vec<[u32; 12]>, facets_b: &Vec<[u32; 12]>, dims: [usize; 3]) -> (r:
        Result<JawOutput, JawError>)
        ensures
            r is Err <==> node_total(dims) > MAX_NODES,
            r matches Err(e) ==> e == (JawError::GridTooLarge {
                dims: dims,
                nodes: if node_total(dims) <= usize::MAX {
                    node_total(dims) as usize
                } else {
                    usize::MAX
                },
            }),
            r matches Ok(o) ==> {
                &&& o.stl_a() == binary_stl(name_a(), facets_a@)
                &&& o.stl_b() == binary_stl(name_b(), facets_b@)
                &&& o.count_a() == facets_a.len() as u32
                &&& o.count_b() == facets_b.len() as u32
                &&& o.dims() == seq![dims[0] as u32, dims[1] as u32, dims[2] as u32]
                &&& delivered_stl(o.stl_a(), name_a(), facets_a.len() as int, o.count_a())
                &&& delivered_stl(o.stl_b(), name_b(), facets_b.len() as int, o.count_b())
                &&& o.dims()[0] * o.dims()[1] * o.dims()[2] <= MAX_NODES
                &&& dims[0] >= 1 && dims[1] >= 1 && dims[2] >= 1 ==> (o.dims()[0] == dims[0]
                    && o.dims()[1] == dims[1] && o.dims()[2] == dims[2])
            },
    {
        if let Err(e) = check_grid(dims) {
            return Err(e);
        }
        let a = binary_stl_bytes("jaw A", facets_a);
        let b = binary_stl_bytes("jaw B", facets_b);
        proof {
            reveal_strlit("jaw A");
            reveal_strlit("jaw B");
            vstd::string::is_ascii_spec_bytes("jaw A");
            vstd::string::is_ascii_spec_bytes("jaw B");
            assert("jaw A".spec_bytes() =~= name_a());
            assert("jaw B".spec_bytes() =~= name_b());
        }
        let o = JawOutput::new(a, b, facets_a.len(), facets_b.len(), dims);
        proof {
            lemma_dims_fit(dims);
            lemma_binary_stl_reads_back(name_a(), facets_a@);
            lemma_binary_stl_reads_back(name_b(), facets_b@);
            assert(o.stl_a().subrange(0, 13) =~= header_tag() + name_a());
            assert(o.stl_b().subrange(0, 13) =~= header_tag() + name_b());
        }
        Ok(o)
    }

    /// Binary STL for the +Y jaw.
    pub fn jaw_a(&self) -> (r: Vec<u8>)
        ensures
            r@ == self.stl_a(),
    {
        let r = self.a.clone();
        assert(r@ =~= self.a@);
        r
    }

    /// Binary STL for the -Y jaw.
    pub fn jaw_b(&self) -> (r: Vec<u8>)
        ensures
            r@ == self.stl_b(),
    {
        let r = self.b.clone();
        assert(r@ =~= self.b@);
        r
    }

    /// Triangle count of the +Y jaw.
    pub fn tris_a(&self) -> (r: u32)
        ensures
            r == self.count_a(),
    {
        self.tris_a
    }

    /// Triangle count of the -Y jaw.
    pub fn tris_b(&self) -> (r: u32)
        ensures
            r == self.count_b(),
    {
        self.tris_b
    }

    /// Grid size used, [nx, ny, nz].
    pub fn grid(&self) -> (r: Vec<u32>)
        ensures
            r@ == self.dims(),
    {
        let r = self.grid.clone();
        assert(r@ =~= self.grid@);
        r
    }
}

} // verus!
