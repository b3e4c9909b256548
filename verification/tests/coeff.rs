use zensr::coeff::{edge_sample, CoeffOrder, CoeffView};
use zensr::zigzag::{NATURAL_TO_ZIGZAG, ZIGZAG_TO_NATURAL};

#[test]
fn zigzag_tables_are_inverse() {
    for k in 0..64 {
        assert_eq!(NATURAL_TO_ZIGZAG[ZIGZAG_TO_NATURAL[k]], k);
        assert_eq!(ZIGZAG_TO_NATURAL[NATURAL_TO_ZIGZAG[k]], k);
    }
}

#[test]
fn covers_checks_grid_and_length() {
    let coeffs = vec![0i16; 4 * 3 * 64];
    let q = [1u16; 64];
    let cv = CoeffView { coeffs: &coeffs, blocks_wide: 4, blocks_high: 3, order: CoeffOrder::Natural, quant: &q };
    assert!(cv.covers(32, 24));
    assert!(cv.covers(25, 17));
    assert!(!cv.covers(33, 24));
    assert!(!cv.covers(32, 25));
    let short = vec![0i16; 4 * 3 * 64 - 1];
    let cv2 = CoeffView { coeffs: &short, blocks_wide: 4, blocks_high: 3, order: CoeffOrder::Natural, quant: &q };
    assert!(!cv2.covers(8, 8));
    let huge = CoeffView { coeffs: &coeffs, blocks_wide: usize::MAX, blocks_high: 2, order: CoeffOrder::Zigzag, quant: &q };
    assert!(!huge.covers(8, 8));
}

#[test]
fn dequantized_block_in_natural_order() {
    // two blocks; block 1 holds k+1 at slot k
    let mut coeffs = vec![0i16; 2 * 64];
    for k in 0..64 {
        coeffs[64 + k] = (k as i16) + 1;
    }
    let mut q = [0u16; 64];
    for n in 0..64 {
        q[n] = (n as u16) + 2;
    }
    let nat = CoeffView { coeffs: &coeffs, blocks_wide: 2, blocks_high: 1, order: CoeffOrder::Natural, quant: &q };
    let d = nat.dequantized_block(1, 0);
    for n in 0..64 {
        assert_eq!(d[n], (n as i32 + 1) * (n as i32 + 2));
    }
    let zz = CoeffView { coeffs: &coeffs, blocks_wide: 2, blocks_high: 1, order: CoeffOrder::Zigzag, quant: &q };
    let d = zz.dequantized_block(1, 0);
    for k in 0..64 {
        let n = ZIGZAG_TO_NATURAL[k];
        assert_eq!(d[n], (k as i32 + 1) * (n as i32 + 2));
    }
    assert_eq!(zz.dequantized_block(0, 0), [0i32; 64]);
}

#[test]
fn dequantized_extremes_fit() {
    let coeffs = vec![i16::MIN; 64];
    let q = [u16::MAX; 64];
    let cv = CoeffView { coeffs: &coeffs, blocks_wide: 1, blocks_high: 1, order: CoeffOrder::Zigzag, quant: &q };
    assert_eq!(cv.dequantized_block(0, 0)[5], -32768 * 65535);
}

#[test]
fn edge_sample_replicates_borders() {
    // 10x9 plane, block (1,1) at in-block (7,7) reads (15,15) -> clamped (9,8)
    assert_eq!(edge_sample(10, 9, 1, 1, 7, 7), 8 * 10 + 9);
    assert_eq!(edge_sample(10, 9, 0, 0, 3, 2), 2 * 10 + 3);
    assert_eq!(edge_sample(1, 1, 5, 5, 0, 0), 0);
}
