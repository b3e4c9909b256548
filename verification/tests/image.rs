use zensr::image::{box_down2, center_crop, crop_at, diff_x8, diffmap, shift_crop, synth, Rgb8Img};

fn ramp(w: usize, h: usize) -> Rgb8Img {
    let mut px = Vec::with_capacity(3 * w * h);
    for y in 0..h {
        for x in 0..w {
            px.push((x % 256) as u8);
            px.push((y % 256) as u8);
            px.push(((x + y) % 256) as u8);
        }
    }
    Rgb8Img { px, w, h }
}

#[test]
fn center_crop_is_centred_multiple_of_four() {
    let img = ramp(103, 90);
    let c = center_crop(&img, 1000).expect("big enough");
    assert_eq!((c.w, c.h), (100, 88));
    assert_eq!(c.px.len(), 3 * 100 * 88);
    // x0 = (103-100)/2 = 1, y0 = (90-88)/2 = 1
    assert_eq!(&c.px[0..3], &[1, 1, 2]);
    let last = 3 * (100 * 88 - 1);
    assert_eq!(&c.px[last..last + 3], &[100, 88, 188]);
    let capped = center_crop(&img, 66).expect("cap 64");
    assert_eq!((capped.w, capped.h), (64, 64));
    assert!(center_crop(&img, 63).is_none());
    assert!(center_crop(&ramp(70, 60), 512).is_none());
}

#[test]
fn crop_at_cuts_at_edges() {
    let img = ramp(10, 8);
    let c = crop_at(&img, 7, 5, 4);
    assert_eq!((c.w, c.h), (3, 3));
    assert_eq!(&c.px[0..3], &[7, 5, 12]);
    let full = crop_at(&img, 0, 0, 100);
    assert_eq!(full.px, img.px);
    let empty = crop_at(&img, 10, 8, 4);
    assert_eq!((empty.w, empty.h, empty.px.len()), (0, 0, 0));
}

#[test]
fn shift_crop_drops_top_left() {
    let img = ramp(6, 5);
    let s = shift_crop(&img, 2);
    assert_eq!((s.w, s.h), (4, 3));
    assert_eq!(&s.px[0..3], &[2, 2, 4]);
    assert_eq!(shift_crop(&img, 0).px, img.px);
}

#[test]
fn box_down2_rounds_the_mean() {
    let img = Rgb8Img { px: vec![0, 0, 0, 1, 1, 255, 2, 2, 255, 3, 3, 255], w: 2, h: 2 };
    let d = box_down2(&img);
    assert_eq!((d.w, d.h), (1, 1));
    // (0+1+2+3+2)/4 = 2 ; (0+255*3+2)/4 = 191
    assert_eq!(d.px, vec![2, 2, 191]);
    let odd = box_down2(&ramp(5, 3));
    assert_eq!((odd.w, odd.h), (2, 1));
}

#[test]
fn diff_maps_amplify_and_saturate() {
    let a = Rgb8Img { px: vec![10, 200, 0], w: 1, h: 1 };
    let b = Rgb8Img { px: vec![12, 0, 0], w: 1, h: 1 };
    assert_eq!(diffmap(&a, &b).px, vec![16, 255, 0]);
    assert_eq!(diff_x8(&a, &b).px, vec![16, 255, 0]);
    assert_eq!(diff_x8(&b, &a).px, diff_x8(&a, &b).px);
    assert_eq!(diff_x8(&a, &a).px, vec![0, 0, 0]);
}

#[test]
fn synth_pattern_values() {
    let s = synth(4);
    assert_eq!((s.w, s.h, s.px.len()), (4, 4, 48));
    // pixel (x=3, y=2)
    let i = (2 * 4 + 3) * 3;
    assert_eq!(&s.px[i..i + 3], &[27, 28, 43]);
    assert_eq!(&s.px[0..3], &[0, 0, 0]);
}

#[test]
fn center_crop_of_a_crop_is_the_crop() {
    let img = synth(150);
    let once = center_crop(&img, 101).expect("crop");
    assert_eq!((once.w, once.h), (100, 100));
    let twice = center_crop(&once, 101).expect("crop again");
    assert_eq!((twice.w, twice.h), (once.w, once.h));
    assert_eq!(twice.px, once.px);
}
