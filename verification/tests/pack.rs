use zensr::pack::{pack_conv1x1, pack_conv3x3, pixel_shuffle4, pixel_shuffle4_strided, pixel_shuffle_s_strided};

#[test]
fn pack3x3_quad_major_order() {
    let (cin, cout) = (2usize, 8usize);
    let w: Vec<usize> = (0..cout * cin * 9).collect();
    let p = pack_conv3x3(&w, cin, cout);
    assert_eq!(p.len(), cout * cin * 9);
    let mut expect = Vec::new();
    for q in 0..cout / 4 {
        for ic in 0..cin {
            for ky in 0..3 {
                for ob in 0..4 {
                    let base = ((q * 4 + ob) * cin + ic) * 9 + ky * 3;
                    expect.extend_from_slice(&w[base..base + 3]);
                }
            }
        }
    }
    assert_eq!(p, expect);
    // first 12: output channels 0..4, input 0, row 0
    assert_eq!(&p[..6], &[0, 1, 2, 18, 19, 20]);
}

#[test]
fn pack3x3_drops_partial_quad() {
    let w: Vec<u8> = (0..6 * 9).map(|v| v as u8).collect();
    let p = pack_conv3x3(&w, 1, 6);
    assert_eq!(p.len(), 4 * 9);
    assert!(pack_conv3x3(&w, 1, 3).is_empty());
}

#[test]
fn pack1x1_quad_major_order() {
    let (cin, cout) = (3usize, 8usize);
    let w: Vec<u32> = (0..(cout * cin) as u32).collect();
    let p = pack_conv1x1(&w, cin, cout);
    let mut expect = Vec::new();
    for q in 0..cout / 4 {
        for wi in 0..cin {
            for ob in 0..4 {
                expect.push(w[(q * 4 + ob) * cin + wi]);
            }
        }
    }
    assert_eq!(p, expect);
}

fn shuffle_ref(inp: &[i32], cstride: usize, h: usize, wd: usize, s: usize) -> Vec<i32> {
    let plane = h * wd;
    let (oh, ow) = (h * s, wd * s);
    let mut out = vec![0i32; 3 * oh * ow];
    for c in 0..3 {
        for ry in 0..s {
            for rx in 0..s {
                let ip = &inp[(c * s * s + ry * s + rx) * cstride..][..plane];
                for y in 0..h {
                    let obase = c * oh * ow + (y * s + ry) * ow + rx;
                    for x in 0..wd {
                        out[obase + x * s] = ip[y * wd + x];
                    }
                }
            }
        }
    }
    out
}

#[test]
fn pixel_shuffle_matches_reference() {
    for (h, wd, s, extra) in [(2usize, 3usize, 2usize, 0usize), (3, 2, 3, 5), (1, 1, 1, 0), (2, 2, 4, 1)] {
        let cstride = h * wd + extra;
        let n = (3 * s * s - 1) * cstride + h * wd;
        let inp: Vec<i32> = (0..n as i32).collect();
        assert_eq!(pixel_shuffle_s_strided(&inp, cstride, h, wd, s), shuffle_ref(&inp, cstride, h, wd, s));
    }
    let inp: Vec<i32> = (0..48 * 6).collect();
    assert_eq!(pixel_shuffle4(&inp, 2, 3), shuffle_ref(&inp, 6, 2, 3, 4));
    let inp: Vec<i32> = (0..47 * 8 + 6).collect();
    assert_eq!(pixel_shuffle4_strided(&inp, 8, 2, 3), shuffle_ref(&inp, 8, 2, 3, 4));
}

#[test]
fn empty_shuffles_give_empty_planes() {
    let inp: Vec<u32> = (0..10).collect();
    assert!(pixel_shuffle4(&inp, 0, 5).is_empty());
    assert!(pixel_shuffle4_strided(&inp, 0, 3, 0).is_empty());
    assert!(pixel_shuffle_s_strided(&inp, 0, 2, 2, 0).is_empty());
}

#[test]
fn overlapping_planes_read_by_stride() {
    // stride 1 < plane size: plane k starts at k, so every output sample is
    // the input at its channel plus its position
    let inp: Vec<u32> = (0..100).collect();
    let out = pixel_shuffle_s_strided(&inp, 1, 2, 2, 1);
    assert_eq!(out, vec![0, 1, 2, 3, 1, 2, 3, 4, 2, 3, 4, 5]);
}
