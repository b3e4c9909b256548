use zensr::model::{
    check_weight_count, compact_weight_floats, span48_weight_floats, weight_segments, Arch,
    ModelSpace, WeightCountError, SPAN_FC,
};
use zensr::spanf::{tensor_dims, CAT_CH, FC, NEAR_CH, S2, TENSOR_LAYOUT, TOTAL_FLOATS};

#[test]
fn model_space_defaults_to_rgb() {
    assert_eq!(ModelSpace::default(), ModelSpace::Rgb);
    assert_ne!(ModelSpace::Ycbcr, ModelSpace::Rgb);
}

#[test]
fn halo_counts_chained_convs() {
    assert_eq!(Arch::Compact { nf: 24, nc: 8 }.halo(), 10);
    assert_eq!(Arch::Compact { nf: 64, nc: 16 }.halo(), 18);
    assert_eq!(Arch::Span48.halo(), 21);
}

#[test]
fn compact_float_count() {
    // nf=24, nc=8, x2: 24*27+48 + 8*(24*24*9+48) + 24*12*9+12
    let expect = (3 * 24 * 9 + 48) + 8 * (24 * 24 * 9 + 48) + (24 * 12 * 9 + 12);
    assert_eq!(compact_weight_floats(24, 8, 2), Some(expect));
    assert_eq!(compact_weight_floats(0, 0, 0), Some(0));
    assert_eq!(compact_weight_floats(usize::MAX, 1, 1), None);
    assert_eq!(compact_weight_floats(1, 1, usize::MAX), None);
    // a huge nf with no middle convs still has to fit 3*nf*9
    assert_eq!(compact_weight_floats(1 << 62, 0, 1), None);
}

#[test]
fn span48_float_count() {
    let fc = 48usize;
    let s2 = 16usize;
    let expect = (3 * fc * 9 + fc) + 18 * (fc * fc * 9 + fc) + (fc * fc * 9 + fc)
        + (4 * fc * fc + fc) + (fc * 3 * s2 * 9 + 3 * s2);
    assert_eq!(span48_weight_floats(4), Some(expect));
    assert_eq!(span48_weight_floats(usize::MAX), None);
    assert_eq!(SPAN_FC, 48);
}

#[test]
fn weight_count_errors() {
    let a = Arch::Compact { nf: 24, nc: 8 };
    let n = compact_weight_floats(24, 8, 2).unwrap();
    assert_eq!(check_weight_count(&a, 2, n), Ok(n));
    assert_eq!(
        check_weight_count(&a, 2, n - 1),
        Err(WeightCountError::Mismatch { expected: n, got: n - 1 })
    );
    assert_eq!(
        check_weight_count(&Arch::Span48, usize::MAX, 7),
        Err(WeightCountError::Overflow)
    );
}

#[test]
fn segments_cover_the_file() {
    let a = Arch::Compact { nf: 24, nc: 2 };
    let segs = weight_segments(&a, 3);
    assert_eq!(
        segs,
        vec![648, 24, 24, 5184, 24, 24, 5184, 24, 24, 24 * 27 * 9, 27]
    );
    assert_eq!(segs.iter().sum::<usize>(), compact_weight_floats(24, 2, 3).unwrap());
    let s = weight_segments(&Arch::Span48, 4);
    assert_eq!(s.len(), 2 + 36 + 6);
    assert_eq!(s.iter().sum::<usize>(), span48_weight_floats(4).unwrap());
    assert_eq!(s[s.len() - 1], 48);
    assert_eq!(s[s.len() - 2], 48 * 48 * 9);
}

#[test]
fn spanf_layout_totals() {
    let dims = tensor_dims();
    let total: usize = dims.iter().map(|(w, b)| w + b).sum();
    assert_eq!(total, TOTAL_FLOATS);
    assert_eq!(dims[17], (NEAR_CH * FC * 9, NEAR_CH));
    assert_eq!(&dims[..17], &TENSOR_LAYOUT[..]);
    assert_eq!(NEAR_CH, 3 * S2);
    assert_eq!(CAT_CH, NEAR_CH + 2 * FC);
    assert_eq!(dims[0], (NEAR_CH * 9, 0));
    assert_eq!(dims[16], (CAT_CH * FC, FC));
}
