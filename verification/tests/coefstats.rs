use zensr::codec::{component_window_stats, decode_jpeg_coefficients, ComponentCoeffs, JpegCoeffs};
use zensr::coefstats::{block_ac_counts, coeff_totals, count_clustered, zero_ac_blocks};
use zensr::image::synth;
use zensr::window::{centered_window, window_stats, BINS};
use zensr::zigzag::ZIGZAG_TO_NATURAL;

#[test]
fn totals_split_by_frequency() {
    let mut c = vec![0i16; 128];
    c[0] = 100; // DC, ignored
    c[1] = -3;
    c[40] = 2;
    c[64 + 63] = 5;
    let t = coeff_totals(&c, 2);
    assert_eq!(t.nonzero_ac, 3);
    assert_eq!(t.zero_ac_coefs, 2 * 63 - 3);
    assert_eq!(t.abs_ac, 10);
    assert_eq!(t.lf_energy, 9);
    assert_eq!(t.hf_energy, 4 + 25);
    // only the first block
    let t1 = coeff_totals(&c, 1);
    assert_eq!((t1.nonzero_ac, t1.hf_energy), (2, 4));
    assert_eq!(coeff_totals(&c, 0).zero_ac_coefs, 0);
}

#[test]
fn extreme_coefficients_do_not_overflow() {
    let c = vec![i16::MIN; 64];
    let t = coeff_totals(&c, 1);
    assert_eq!(t.abs_ac, 63 * 32768);
    assert_eq!(t.hf_energy, 32 * 32768u128 * 32768);
}

#[test]
fn ac_counts_per_block() {
    let mut c = vec![0i16; 3 * 64];
    c[0] = 9;
    c[64 + 5] = 1;
    c[64 + 6] = -1;
    c[128 + 63] = 2;
    let counts = block_ac_counts(&c, 3);
    assert_eq!(counts, vec![0, 2, 1]);
    assert_eq!(zero_ac_blocks(&counts), 1);
    assert_eq!(zero_ac_blocks(&[]), 0);
}

#[test]
fn clustering_counts_touching_blocks() {
    // 3 wide: row0 = T F T, row1 = T F F
    let g = [true, false, true, true, false, false];
    assert_eq!(count_clustered(&g, 3), 2);
    // isolated blocks do not count
    assert_eq!(count_clustered(&[true, false, true, false], 2), 2);
    assert_eq!(count_clustered(&[true, false, false, true], 2), 0);
    // zero width is taken as one column
    assert_eq!(count_clustered(&[true, true, false], 0), 2);
    // a partial last row: its flagged block is found through its left neighbour
    assert_eq!(count_clustered(&[false, false, true, true, true], 3), 2);
    assert_eq!(count_clustered(&[true, false, false, true, true], 3), 3);
}

#[test]
fn window_is_centred_and_bounded() {
    let w = centered_window(10, 3, 4);
    assert_eq!((w.bw, w.bh, w.bx0, w.by0, w.stride), (4, 3, 3, 0, 10));
    let w = centered_window(2, 100, 32);
    assert_eq!((w.bw, w.bh, w.bx0, w.by0), (2, 32, 0, 34));
}

#[test]
fn window_histograms_and_regions() {
    // 3x1 grid, window of 1 block: the middle one
    let mut c = vec![0i16; 3 * 64];
    c[64] = 42; // DC of the window block
    c[64 + 1] = -2; // band 1, magnitude 2, region 0
    c[64 + 20] = 40; // band 20, magnitude 40 (beyond the bins), region 1
    c[64 + 30] = 1; // region 2
    c[1] = 7; // outside the window
    let q = [3u16; 64];
    let w = centered_window(3, 1, 1);
    let st = window_stats(&c, 1, &w, &q, 20);
    assert_eq!(st.dc, vec![42]);
    assert_eq!(st.hist.len(), 20 * BINS);
    assert_eq!(st.hist[0 * BINS + 2], 1);
    assert_eq!(st.hist[0 * BINS + 0], 0);
    assert_eq!(st.hist[19 * BINS + 0], 0);
    assert_eq!(st.hist[5 * BINS + 0], 1);
    assert_eq!(st.ntot, [9, 18, 36]);
    assert_eq!(st.nz, [1, 1, 1]);
    assert_eq!(st.energy, [36, 14400, 9]);
}

#[test]
fn energy_uses_natural_order_table() {
    let mut c = vec![0i16; 64];
    c[2] = 1; // zigzag 2 is natural 8
    let mut q = [1u16; 64];
    q[ZIGZAG_TO_NATURAL[2]] = 10;
    let st = window_stats(&c, 1, &centered_window(1, 1, 1), &q, 6);
    assert_eq!(st.energy[0], 100);
}

#[test]
fn coefficients_of_an_encoded_jpeg() {
    let img = synth(48);
    let px: &[rgb::Rgb<u8>] = bytemuck::cast_slice(&img.px);
    let jpg = zenjpeg::encoder::EncoderConfig::ycbcr(85.0, zenjpeg::encoder::ChromaSubsampling::Quarter)
        .encode(px, 48, 48)
        .expect("encode");
    let jc = decode_jpeg_coefficients(&jpg).expect("coefficients");
    assert_eq!((jc.width, jc.height), (48, 48));
    assert_eq!(jc.components.len(), 3);
    let luma = &jc.components[0];
    assert_eq!(luma.coeffs.len(), luma.blocks_wide * luma.blocks_high * 64);
    let st = component_window_stats(&jc, 0, 32, 20).expect("luma table");
    assert_eq!(st.dc.len(), luma.blocks_wide.min(32) * luma.blocks_high.min(32));
    assert!(component_window_stats(&jc, 7, 32, 20).is_none());
    assert!(decode_jpeg_coefficients(b"nope").is_none());
}

#[test]
fn component_without_table_is_skipped() {
    let jc = JpegCoeffs {
        width: 8,
        height: 8,
        components: vec![ComponentCoeffs { coeffs: vec![0; 64], blocks_wide: 1, blocks_high: 1, quant_table_idx: 1 }],
        quant_tables: vec![Some([1; 64]), None],
    };
    assert!(component_window_stats(&jc, 0, 32, 6).is_none());
    let bad = JpegCoeffs {
        width: 8,
        height: 8,
        components: vec![ComponentCoeffs { coeffs: vec![0; 10], blocks_wide: 1, blocks_high: 1, quant_table_idx: 0 }],
        quant_tables: vec![Some([1; 64])],
    };
    assert!(component_window_stats(&bad, 0, 32, 6).is_none());
}

#[test]
fn window_stats_ignore_everything_outside_the_window() {
    // the same 2x2-block window centred in a 2x2 grid and in a 6x4 grid whose
    // other blocks hold unrelated values
    let window_block = |b: usize| -> Vec<i16> { (0..64).map(|k| ((b * 7 + k * 3) % 11) as i16 - 5).collect() };
    let mut small = Vec::new();
    for b in 0..4 {
        small.extend(window_block(b));
    }
    let mut big = vec![9i16; 6 * 4 * 64];
    for by in 0..2 {
        for bx in 0..2 {
            let g = (1 + by) * 6 + (2 + bx);
            big[g * 64..g * 64 + 64].copy_from_slice(&window_block(by * 2 + bx));
        }
    }
    let q = [4u16; 64];
    let a = window_stats(&small, 2, &centered_window(2, 2, 2), &q, 20);
    let b = window_stats(&big, 4, &centered_window(6, 4, 2), &q, 20);
    assert_eq!(a.hist, b.hist);
    assert_eq!(a.dc, b.dc);
    assert_eq!((a.ntot, a.nz, a.energy), (b.ntot, b.nz, b.energy));
}
