use softjaw_core::jaw::{check_grid, check_inputs, slab_bounds, JawError, MAX_NODES};
use softjaw_core::output::JawOutput;
use softjaw_core::stl::{binary_stl_bytes, stl_header_bytes};

#[test]
fn header_is_tag_and_name_padded() {
    let h = stl_header_bytes("jaw A");
    assert_eq!(h.len(), 80);
    assert_eq!(&h[..13], b"softjaw jaw A");
    assert!(h[13..].iter().all(|&b| b == 0));
    let long = "x".repeat(100);
    let h = stl_header_bytes(&long);
    assert_eq!(h.len(), 80);
    assert_eq!(&h[..8], b"softjaw ");
    assert!(h[8..].iter().all(|&b| b == b'x'));
}

#[test]
fn stl_layout_and_words() {
    let f1: [u32; 12] = [
        0.0f32.to_bits(),
        0.0f32.to_bits(),
        1.0f32.to_bits(),
        1.5f32.to_bits(),
        (-2.0f32).to_bits(),
        0.25f32.to_bits(),
        0x01020304,
        0xA0B0C0D0,
        0,
        u32::MAX,
        7,
        8,
    ];
    let f2 = [9u32; 12];
    let out = binary_stl_bytes("jaw B", &vec![f1, f2]);
    assert_eq!(out.len(), 84 + 2 * 50);
    assert_eq!(&out[..13], b"softjaw jaw B");
    assert_eq!(&out[80..84], &[2, 0, 0, 0]);
    for (x, f) in [f1, f2].iter().enumerate() {
        for w in 0..12 {
            let at = 84 + 50 * x + 4 * w;
            assert_eq!(&out[at..at + 4], &f[w].to_le_bytes());
        }
        assert_eq!(&out[84 + 50 * x + 48..84 + 50 * x + 50], &[0, 0]);
    }
    assert_eq!(&out[84 + 24..84 + 28], &[4, 3, 2, 1]);
    assert_eq!(&out[84 + 8..84 + 12], &1.0f32.to_le_bytes());
    let empty = binary_stl_bytes("", &vec![]);
    assert_eq!(empty.len(), 84);
    assert_eq!(&empty[..8], b"softjaw ");
    assert_eq!(&empty[80..], &[0, 0, 0, 0]);
}

#[test]
fn checks_come_in_order() {
    assert_eq!(check_inputs(9, 3, true, true, true), Ok(()));
    assert_eq!(check_inputs(8, 3, false, false, false), Err(JawError::NoTriangles));
    assert_eq!(check_inputs(9, 2, true, true, true), Err(JawError::NoTriangles));
    assert_eq!(check_inputs(9, 3, false, false, false), Err(JawError::BadResolution));
    assert_eq!(check_inputs(9, 3, true, false, false), Err(JawError::NegativeOffset));
    assert_eq!(check_inputs(9, 3, true, true, false), Err(JawError::BadJawSize));
}

#[test]
fn grid_limit() {
    assert_eq!(check_grid([100, 100, 100]), Ok(1_000_000));
    assert_eq!(check_grid([MAX_NODES, 1, 1]), Ok(MAX_NODES));
    assert_eq!(
        check_grid([MAX_NODES + 1, 1, 1]),
        Err(JawError::GridTooLarge { dims: [MAX_NODES + 1, 1, 1], nodes: MAX_NODES + 1 })
    );
    // About the grid of the default jaws at a 0.01 mm spacing around a 10 mm
    // part: far over the limit, and past a 32-bit `usize`.
    let n = [15245usize, 5135, 3815];
    let exact = 15245u64 * 5135 * 3815;
    let reported = if usize::BITS > 32 { exact as usize } else { usize::MAX };
    assert_eq!(check_grid(n), Err(JawError::GridTooLarge { dims: n, nodes: reported }));
}

#[test]
fn slab_uses_span_or_whole_axis() {
    assert_eq!(slab_bounds([10, 20, 30], Some((4, 9))), ([0, 4, 0], [10, 10, 30]));
    assert_eq!(slab_bounds([10, 20, 30], None), ([0, 0, 0], [10, 20, 30]));
}

#[test]
fn output_keeps_what_it_was_given() {
    let o = JawOutput::new(vec![1, 2, 3], vec![4], 12, 34, [5, 6, 7]);
    assert_eq!(o.jaw_a(), vec![1, 2, 3]);
    assert_eq!(o.jaw_b(), vec![4]);
    assert_eq!(o.tris_a(), 12);
    assert_eq!(o.tris_b(), 34);
    assert_eq!(o.grid(), vec![5, 6, 7]);
}

#[test]
fn output_counts_are_cut_to_32_bits() {
    let big = (u32::MAX as u64 + 6) as usize;
    let o = JawOutput::new(vec![], vec![], big, 1, [big, 2, 3]);
    if usize::BITS > 32 {
        assert_eq!(o.tris_a(), 5);
        assert_eq!(o.grid(), vec![5, 2, 3]);
    }
    assert_eq!(o.tris_b(), 1);
}

#[test]
fn output_from_facets_names_and_counts_the_jaws() {
    let fa = vec![[1u32; 12], [2u32; 12], [3u32; 12]];
    let fb = vec![[0xA1B2C3D4u32; 12]];
    let o = JawOutput::from_facets(&fa, &fb, [40, 50, 60]).unwrap();
    let a = o.jaw_a();
    let b = o.jaw_b();
    assert_eq!(a, binary_stl_bytes("jaw A", &fa));
    assert_eq!(b, binary_stl_bytes("jaw B", &fb));
    assert_eq!(a.len(), 84 + 50 * 3);
    assert_eq!(b.len(), 84 + 50);
    assert_eq!(&a[..13], b"softjaw jaw A");
    assert_eq!(&b[..13], b"softjaw jaw B");
    assert_eq!(o.tris_a(), 3);
    assert_eq!(o.tris_b(), 1);
    assert_eq!(u32::from_le_bytes([a[80], a[81], a[82], a[83]]), o.tris_a());
    assert_eq!(u32::from_le_bytes([b[80], b[81], b[82], b[83]]), o.tris_b());
    assert_eq!(&b[84..88], &[0xD4, 0xC3, 0xB2, 0xA1]);
    assert_eq!(o.grid(), vec![40, 50, 60]);
    let g = o.grid();
    assert!(g[0] as usize * g[1] as usize * g[2] as usize <= MAX_NODES);
}

#[test]
fn output_from_no_facets() {
    let o = JawOutput::from_facets(&vec![], &vec![], [1, 1, 1]).unwrap();
    assert_eq!(o.jaw_a().len(), 84);
    assert_eq!(&o.jaw_a()[80..84], &[0, 0, 0, 0]);
    assert_eq!(&o.jaw_b()[..13], b"softjaw jaw B");
    assert_eq!(o.tris_a(), 0);
    assert_eq!(o.tris_b(), 0);
    assert_eq!(o.grid(), vec![1, 1, 1]);
}

#[test]
fn grid_count_past_usize_is_too_large() {
    let n = [usize::MAX, 2, 1];
    assert_eq!(check_grid(n), Err(JawError::GridTooLarge { dims: n, nodes: usize::MAX }));
    let n = [usize::MAX / 2 + 1, 1, 2];
    assert_eq!(check_grid(n), Err(JawError::GridTooLarge { dims: n, nodes: usize::MAX }));
    assert_eq!(check_grid([usize::MAX, usize::MAX, 0]), Ok(0));
    assert_eq!(check_grid([0, usize::MAX, usize::MAX]), Ok(0));
}

#[test]
fn output_from_facets_refuses_a_grid_over_the_limit() {
    let f = vec![[0u32; 12]];
    let n = [MAX_NODES + 1, 1, 1];
    assert_eq!(
        JawOutput::from_facets(&f, &f, n).err(),
        Some(JawError::GridTooLarge { dims: n, nodes: MAX_NODES + 1 })
    );
    let n = [usize::MAX, 3, 1];
    assert_eq!(
        JawOutput::from_facets(&f, &f, n).err(),
        Some(JawError::GridTooLarge { dims: n, nodes: usize::MAX })
    );
    assert!(JawOutput::from_facets(&f, &f, [MAX_NODES, 1, 1]).is_ok());
}
