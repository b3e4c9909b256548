use zensr::jpeg::{dqt_luma, is_jpeg, parse_header, super_dqt};
use zensr::zigzag::ZIGZAG_TO_NATURAL;

/// SOI, APP0, one DQT (given header byte, zigzag values 1..=64), SOF and SOS.
fn sample_jpeg(dqt_head: u8, sof: u8) -> Vec<u8> {
    let mut b = vec![0xFF, 0xD8];
    b.extend_from_slice(&[0xFF, 0xE0, 0x00, 0x10]);
    b.extend_from_slice(&[0u8; 14]);
    b.extend_from_slice(&[0xFF, 0xDB, 0x00, 67, dqt_head]);
    for k in 0..64u8 {
        b.push(k + 1);
    }
    b.extend_from_slice(&[0xFF, sof, 0x00, 17, 8, 0x00, 16, 0x00, 32, 3]);
    b.extend_from_slice(&[1, 0x22, 0, 2, 0x11, 1, 3, 0x11, 1]);
    b.extend_from_slice(&[0xFF, 0xDA, 0x00, 0x08, 1, 1, 0, 0, 63, 0]);
    b.extend_from_slice(&[0x12, 0x34, 0xFF, 0xD9]);
    b
}

fn natural_1_to_64() -> [u16; 64] {
    let mut t = [0u16; 64];
    for k in 0..64 {
        t[ZIGZAG_TO_NATURAL[k]] = k as u16 + 1;
    }
    t
}

#[test]
fn is_jpeg_checks_magic() {
    assert!(is_jpeg(&[0xFF, 0xD8, 0xFF, 0xE0]));
    assert!(!is_jpeg(&[0xFF, 0xD8, 0xFF]));
    assert!(!is_jpeg(&[0x89, b'P', b'N', b'G']));
}

#[test]
fn parse_header_reads_tables_and_frame() {
    let h = parse_header(&sample_jpeg(0x00, 0xC0)).expect("jpeg");
    assert_eq!(h.tables.len(), 1);
    assert_eq!(h.tables[0].0, 0);
    assert_eq!(h.tables[0].1, 0);
    assert_eq!(h.tables[0].2, natural_1_to_64());
    assert_eq!((h.width, h.height, h.ncomp), (32, 16, 3));
    assert_eq!(h.samp, vec![(2, 2), (1, 1), (1, 1)]);
    assert!(!h.progressive);
    assert!(h.saw_sos);
    assert_eq!(h.app_markers, vec![0]);
}

#[test]
fn parse_header_progressive_and_truncated() {
    let h = parse_header(&sample_jpeg(0x01, 0xC2)).expect("jpeg");
    assert!(h.progressive);
    assert_eq!(h.tables[0].0, 1);
    let full = sample_jpeg(0x00, 0xC0);
    // cut inside the SOF segment: the table is kept, the frame is not read
    let cut = &full[..2 + 4 + 14 + 4 + 1 + 64 + 6];
    let h = parse_header(cut).expect("jpeg");
    assert_eq!(h.tables.len(), 1);
    assert_eq!((h.width, h.height, h.ncomp), (0, 0, 0));
    assert!(!h.saw_sos);
    assert!(parse_header(&[0xFF, 0xD8, 0xFF]).is_none());
    assert!(parse_header(b"GIF89a").is_none());
}

#[test]
fn luma_table_lookups() {
    let j = sample_jpeg(0x00, 0xC0);
    assert_eq!(dqt_luma(&j), Some(natural_1_to_64()));
    assert_eq!(super_dqt(&j), Some(natural_1_to_64()));
    // destination 1 only: no luma table
    let j1 = sample_jpeg(0x01, 0xC0);
    assert_eq!(dqt_luma(&j1), None);
    assert_eq!(super_dqt(&j1), None);
    // 16-bit precision is skipped by both
    let j16 = sample_jpeg(0x10, 0xC0);
    assert_eq!(dqt_luma(&j16), None);
    assert_eq!(super_dqt(&j16), None);
}

#[test]
fn short_dqt_segment_gives_no_table() {
    // SOI, then a DQT segment whose length (2) leaves no room for its first byte
    let mut j = vec![0xFF, 0xD8, 0xFF, 0xDB, 0x00, 0x02];
    j.extend_from_slice(&[0xFF, 0xD9, 0x00, 0x00]);
    assert_eq!(dqt_luma(&j), None);
    assert_eq!(super_dqt(&j), None);
    let short = vec![0xFF, 0xD8, 0xFF, 0xDB, 0x00, 0x01, 0x00, 0x00];
    assert_eq!(dqt_luma(&short), None);
    assert_eq!(super_dqt(&short), None);
}
