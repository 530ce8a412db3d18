use softjaw_core::grid::{index_span, GridShape};

#[test]
fn index_is_x_fastest_then_y_then_z() {
    let g = GridShape { n: [4, 3, 5] };
    assert_eq!(g.idx(0, 0, 0), 0);
    assert_eq!(g.idx(1, 0, 0), 1);
    assert_eq!(g.idx(0, 1, 0), 4);
    assert_eq!(g.idx(0, 0, 1), 12);
    assert_eq!(g.idx(3, 2, 4), 59);
    let mut seen = vec![false; 60];
    for k in 0..5 {
        for j in 0..3 {
            for i in 0..4 {
                let t = g.idx(i, j, k);
                assert!(!seen[t]);
                seen[t] = true;
            }
        }
    }
    assert!(seen.iter().all(|&s| s));
}

#[test]
fn node_count_and_overflow() {
    assert_eq!(GridShape { n: [4, 3, 5] }.node_count(), Some(60));
    assert_eq!(GridShape { n: [0, 3, 5] }.node_count(), Some(0));
    assert_eq!(GridShape { n: [usize::MAX, 2, 1] }.node_count(), None);
    assert_eq!(GridShape { n: [usize::MAX, 2, 0] }.node_count(), None);
    assert_eq!(GridShape { n: [usize::MAX, 1, 1] }.node_count(), Some(usize::MAX));
}

#[test]
fn span_clamps_below_and_rejects_empty() {
    assert_eq!(index_span(2, 7), Some((2, 7)));
    assert_eq!(index_span(-3, 7), Some((0, 7)));
    assert_eq!(index_span(5, 5), Some((5, 5)));
    assert_eq!(index_span(6, 5), None);
    assert_eq!(index_span(-3, -1), None);
    assert_eq!(index_span(i64::MIN, 0), Some((0, 0)));
}
