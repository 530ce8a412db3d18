//! Binary STL framing: an 80-byte header, the facet count, then 50 bytes per
//! facet (normal and three corners as twelve little-endian 32-bit words, and
//! a zero attribute word). The words are the bit patterns of the `f32`
//! coordinates, which the caller supplies.

use vstd::prelude::*;
use vstd::string::StringSliceAdditionalSpecFns;

verus! {

/// The four little-endian bytes of `x`.
pub open spec fn le_bytes(x: u32) -> Seq<u8> {
    seq![
        (x % 256) as u8,
        ((x / 256) % 256) as u8,
        ((x / 65536) % 256) as u8,
        (x / 16777216) as u8,
    ]
}

/// The number that four little-endian bytes stand for.
pub open spec fn le_value(b: Seq<u8>) -> int {
    b[0] + 256 * b[1] + 65536 * b[2] + 16777216 * b[3]
}

/// The bytes `softjaw ` that start every header.
pub open spec fn header_tag() -> Seq<u8> {
    seq![115u8, 111u8, 102u8, 116u8, 106u8, 97u8, 119u8, 32u8]
}

/// The 80-byte header: `softjaw `, then the name, cut at 80 bytes and padded
/// with zeros.
pub open spec fn stl_header(name: Seq<u8>) -> Seq<u8> {
    let tag = header_tag() + name;
    Seq::new(80, |i: int| if i < tag.len() { tag[i] } else { 0u8 })
}

/// The words in order, each as four little-endian bytes.
pub open spec fn words_bytes(ws: Seq<u32>) -> Seq<u8>
    decreases ws.len(),
{
    if ws.len() == 0 {
        Seq::empty()
    } else {
        words_bytes(ws.drop_last()) + le_bytes(ws.last())
    }
}

/// One facet record: twelve words, then a zero attribute word.
pub open spec fn facet_bytes(f: [u32; 12]) -> Seq<u8> {
    words_bytes(f@) + seq![0u8, 0u8]
}

/// The facet records in order.
pub open spec fn facets_bytes(fs: Seq<[u32; 12]>) -> Seq<u8>
    decreases fs.len(),
{
    if fs.len() == 0 {
        Seq::empty()
    } else {
        facets_bytes(fs.drop_last()) + facet_bytes(fs.last())
    }
}

/// A whole binary STL file. The count field holds the facet count cut to
/// 32 bits.
pub open spec fn binary_stl(name: Seq<u8>, fs: Seq<[u32; 12]>) -> Seq<u8> {
    stl_header(name) + le_bytes(fs.len() as u32) + facets_bytes(fs)
}

/// Reading four bytes back gives the word that was written.
pub proof fn lemma_le_round_trip(x: u32)
    ensures
        le_bytes(x).len() == 4,
        le_value(le_bytes(x)) == x,
{
    let b0 = x % 256;
    let b1 = (x / 256) % 256;
    let b2 = (x / 65536) % 256;
    let b3 = x / 16777216;
    assert(x == b0 + 256 * b1 + 65536 * b2 + 16777216 * b3 && b3 < 256) by (nonlinear_arith)
        requires
            0 <= x < 0x1_0000_0000,
            b0 == x % 256,
            b1 == (x / 256) % 256,
            b2 == (x / 65536) % 256,
            b3 == x / 16777216,
    ;
}

proof fn lemma_words_bytes(ws: Seq<u32>)
    ensures
        words_bytes(ws).len() == 4 * ws.len(),
        forall|w: int|
            0 <= w < ws.len() ==> #[trigger] words_bytes(ws).subrange(4 * w, 4 * w + 4)
                == le_bytes(ws[w]),
    decreases ws.len(),
{
    if ws.len() > 0 {
        let init = ws.drop_last();
        lemma_words_bytes(init);
        let all = words_bytes(ws);
        assert(all == words_bytes(init) + le_bytes(ws.last()));
        assert forall|w: int| 0 <= w < ws.len() implies #[trigger] all.subrange(4 * w, 4 * w + 4)
            == le_bytes(ws[w]) by {
            if w < init.len() {
                assert(all.subrange(4 * w, 4 * w + 4) =~= words_bytes(init).subrange(
                    4 * w,
                    4 * w + 4,
                ));
                assert(init[w] == ws[w]);
            } else {
                assert(all.subrange(4 * w, 4 * w + 4) =~= le_bytes(ws.last()));
            }
        }
    }
}

proof fn lemma_facets_bytes(fs: Seq<[u32; 12]>)
    ensures
        facets_bytes(fs).len() == 50 * fs.len(),
        forall|x: int|
            0 <= x < fs.len() ==> #[trigger] facets_bytes(fs).subrange(50 * x, 50 * x + 50)
                == facet_bytes(fs[x]),
    decreases fs.len(),
{
    if fs.len() > 0 {
        let init = fs.drop_last();
        lemma_facets_bytes(init);
        lemma_words_bytes(fs.last()@);
        let all = facets_bytes(fs);
        assert forall|x: int| 0 <= x < fs.len() implies #[trigger] all.subrange(50 * x, 50 * x + 50)
            == facet_bytes(fs[x]) by {
            if x < init.len() {
                assert(all.subrange(50 * x, 50 * x + 50) =~= facets_bytes(init).subrange(
                    50 * x,
                    50 * x + 50,
                ));
                assert(init[x] == fs[x]);
            } else {
                assert(all.subrange(50 * x, 50 * x + 50) =~= facet_bytes(fs.last()));
            }
        }
    }
}

/// What a reader of the file finds: 84 + 50 bytes per facet; the header;
/// the facet count (cut to 32 bits) at bytes 80..84; word `w` of facet `x`
/// at bytes 84 + 50x + 4w; and a zero attribute word closing each facet.
pub proof fn lemma_binary_stl_reads_back(name: Seq<u8>, fs: Seq<[u32; 12]>)
    ensures
        binary_stl(name, fs).len() == 84 + 50 * fs.len(),
        binary_stl(name, fs).subrange(0, 80) == stl_header(name),
        le_value(binary_stl(name, fs).subrange(80, 84)) == fs.len() as u32,
        forall|x: int, w: int|
            0 <= x < fs.len() && 0 <= w < 12 ==> le_value(
                #[trigger] binary_stl(name, fs).subrange(84 + 50 * x + 4 * w, 88 + 50 * x + 4 * w),
            ) == fs[x][w],
        forall|x: int|
            0 <= x < fs.len() ==> #[trigger] binary_stl(name, fs)[84 + 50 * x + 48] == 0
                && binary_stl(name, fs)[84 + 50 * x + 49] == 0,
{
    let all = binary_stl(name, fs);
    let count = le_bytes(fs.len() as u32);
    lemma_le_round_trip(fs.len() as u32);
    lemma_facets_bytes(fs);
    let body = facets_bytes(fs);
    assert(stl_header(name).len() == 80);
    assert(all.subrange(0, 80) =~= stl_header(name));
    assert(all.subrange(80, 84) =~= count);
    assert forall|x: int, w: int| 0 <= x < fs.len() && 0 <= w < 12 implies le_value(
        #[trigger] all.subrange(84 + 50 * x + 4 * w, 88 + 50 * x + 4 * w),
    ) == fs[x][w] by {
        let f = fs[x];
        lemma_words_bytes(f@);
        let rec = body.subrange(50 * x, 50 * x + 50);
        assert(rec == facet_bytes(f));
        let words = words_bytes(f@);
        let a = 84 + 50 * x + 4 * w;
        let lhs = all.subrange(a, a + 4);
        let rhs = words.subrange(4 * w, 4 * w + 4);
        assert forall|i: int| 0 <= i < 4 implies #[trigger] lhs[i] == rhs[i] by {
            assert(lhs[i] == all[a + i]);
            assert(all[a + i] == body[50 * x + 4 * w + i]);
            assert(body[50 * x + 4 * w + i] == rec[4 * w + i]);
            assert(rec[4 * w + i] == words[4 * w + i]);
        }
        assert(lhs =~= rhs);
        assert(88 + 50 * x + 4 * w == a + 4);
        lemma_le_round_trip(f[w]);
    }
    assert forall|x: int| 0 <= x < fs.len() implies #[trigger] all[84 + 50 * x + 48] == 0
        && all[84 + 50 * x + 49] == 0 by {
        let f = fs[x];
        lemma_words_bytes(f@);
        let rec = body.subrange(50 * x, 50 * x + 50);
        assert(rec == facet_bytes(f));
        assert(all[84 + 50 * x + 48] == rec[48]);
        assert(all[84 + 50 * x + 49] == rec[49]);
    }
}

/// Appends the little-endian bytes of `x`.
fn push_le(out: &mut Vec<u8>, x: u32)
    ensures
        final(out)@ == old(out)@ + le_bytes(x),
{
    out.push((x % 256) as u8);
    out.push(((x / 256) % 256) as u8);
    out.push(((x / 65536) % 256) as u8);
    out.push((x / 16777216) as u8);
    assert(out@ =~= old(out)@ + le_bytes(x));
}

/// The 80-byte header for a mesh called `name`.
pub fn stl_header_bytes(name: &str) -> (r: Vec<u8>)
    ensures
        r@ == stl_header(name.spec_bytes()),
{
    let tag: [u8; 8] = [115, 111, 102, 116, 106, 97, 119, 32];
    assert(tag@ == header_tag());
    let nb = name.as_bytes();
    let ghost full = header_tag() + name.spec_bytes();
    let mut out: Vec<u8> = Vec::new();
    let mut i: usize = 0;
    while i < 80
        invariant
            i <= 80,
            tag@ == header_tag(),
            nb@ == name.spec_bytes(),
            full == header_tag() + name.spec_bytes(),
            out@.len() == i,
            forall|x: int|
                0 <= x < i ==> out@[x] == (if x < full.len() {
                    full[x]
                } else {
                    0u8
                }),
        decreases 80 - i,
    {
        let b = if i < 8 {
            tag[i]
        } else if i - 8 < nb.len() {
            nb[i - 8]
        } else {
            0
        };
        out.push(b);
        i = i + 1;
    }
    assert(out@ =~= stl_header(name.spec_bytes()));
    out
}

/// A binary STL file for the mesh called `name` whose facets are given as
/// twelve words each: the bit patterns of the normal's and the three
/// corners' x, y and z.
pub fn binary_stl_bytes(name: &str, facets: &Vec<[u32; 12]>) -> (r: Vec<u8>)
    ensures
        r@ == binary_stl(name.spec_bytes(), facets@),
{
    let mut out = stl_header_bytes(name);
    #[verifier::truncate]
    let count = facets.len() as u32;
    push_le(&mut out, count);
    let ghost head = out@;
    let mut x: usize = 0;
    while x < facets.len()
        invariant
            x <= facets.len(),
            head == stl_header(name.spec_bytes()) + le_bytes(facets@.len() as u32),
            out@ == head + facets_bytes(facets@.take(x as int)),
        decreases facets.len() - x,
    {
        let f = facets[x];
        let ghost before = out@;
        let mut w: usize = 0;
        while w < 12
            invariant
                w <= 12,
                f == facets@[x as int],
                out@ == before + words_bytes(f@.take(w as int)),
            decreases 12 - w,
        {
            push_le(&mut out, f[w]);
            assert(f@.take(w + 1).drop_last() =~= f@.take(w as int));
            w = w + 1;
        }
        out.push(0);
        out.push(0);
        assert(f@.take(12) =~= f@);
        assert(facets@.take(x + 1).drop_last() =~= facets@.take(x as int));
        assert(out@ =~= head + facets_bytes(facets@.take(x + 1)));
        x = x + 1;
    }
    assert(facets@.take(facets.len() as int) =~= facets@);
    out
}

} // verus!
