use zensr::codec::{
    decode_any, decode_jpeg, decode_png, format_for_extension, pixelbuffer_to_rgb8, resize_rgb8,
    Format, PixelRows, ResizeFilter,
};
use zensr::image::{synth, Rgb8Img};
use zensr::jpeg::{dqt_luma, parse_header, super_dqt};

fn png_rgb8(img: &Rgb8Img) -> Vec<u8> {
    let px: &[rgb::Rgb<u8>] = bytemuck::cast_slice(&img.px);
    zenpng::encode_rgb8(
        imgref::ImgRef::new(px, img.w, img.h),
        None,
        &zenpng::EncodeConfig::default(),
        &enough::Unstoppable,
        &enough::Unstoppable,
    )
    .expect("png encode")
}

#[test]
fn png_round_trip_is_lossless() {
    let img = synth(17);
    let bytes = png_rgb8(&img);
    let back = decode_png(&bytes).expect("decodes");
    assert_eq!((back.w, back.h), (17, 17));
    assert_eq!(back.px, img.px);
}

#[test]
fn png_rgba_drops_alpha() {
    let px: Vec<rgb::Rgba<u8>> = (0..6u8).map(|i| rgb::Rgba { r: i, g: 10 + i, b: 20 + i, a: 99 }).collect();
    let bytes = zenpng::encode_rgba8(
        imgref::ImgRef::new(&px, 3, 2),
        None,
        &zenpng::EncodeConfig::default(),
        &enough::Unstoppable,
        &enough::Unstoppable,
    )
    .expect("png encode");
    let back = decode_png(&bytes).expect("decodes");
    assert_eq!((back.w, back.h), (3, 2));
    assert_eq!(&back.px[0..6], &[0, 10, 20, 1, 11, 21]);
}

#[test]
fn png_garbage_is_none() {
    assert!(decode_png(b"not a png at all").is_none());
    assert!(decode_png(&[]).is_none());
}

#[test]
fn rows_conversion_layouts() {
    // 16-bit RGB: little-endian samples, the high byte is kept
    let rows = PixelRows { width: 1, height: 1, bpp: 6, bpc: 2, data: vec![0x34, 0x12, 0x78, 0x56, 0xbc, 0x9a] };
    assert_eq!(pixelbuffer_to_rgb8(&rows).unwrap().px, vec![0x12, 0x56, 0x9a]);
    // gray + alpha, 8-bit: gray replicated
    let ga = PixelRows { width: 2, height: 1, bpp: 2, bpc: 1, data: vec![7, 255, 9, 0] };
    assert_eq!(pixelbuffer_to_rgb8(&ga).unwrap().px, vec![7, 7, 7, 9, 9, 9]);
    // RGBA 8-bit
    let rgba = PixelRows { width: 1, height: 1, bpp: 4, bpc: 1, data: vec![1, 2, 3, 4] };
    assert_eq!(pixelbuffer_to_rgb8(&rgba).unwrap().px, vec![1, 2, 3]);
    // five channels: not convertible
    let five = PixelRows { width: 1, height: 1, bpp: 5, bpc: 1, data: vec![0; 5] };
    assert!(pixelbuffer_to_rgb8(&five).is_none());
    // ... unless there is nothing to convert
    let empty = PixelRows { width: 0, height: 3, bpp: 5, bpc: 1, data: vec![] };
    let e = pixelbuffer_to_rgb8(&empty).unwrap();
    assert_eq!((e.w, e.h, e.px.len()), (0, 3, 0));
}

fn jpeg_of(img: &Rgb8Img, q: f32) -> Vec<u8> {
    let px: &[rgb::Rgb<u8>] = bytemuck::cast_slice(&img.px);
    zenjpeg::encoder::EncoderConfig::ycbcr(q, zenjpeg::encoder::ChromaSubsampling::Quarter)
        .encode(px, img.w as u32, img.h as u32)
        .expect("encode")
}

#[test]
fn jpeg_decodes_to_rgb8() {
    let img = synth(32);
    let jpg = jpeg_of(&img, 95.0);
    let back = decode_jpeg(&jpg).expect("decodes");
    assert_eq!((back.w, back.h, back.px.len()), (32, 32, 32 * 32 * 3));
    assert!(decode_jpeg(b"\xFF\xD8\xFF garbage").is_none());
}

#[test]
fn encoder_output_headers() {
    let jpg = jpeg_of(&synth(32), 80.0);
    let h = parse_header(&jpg).expect("jpeg");
    assert_eq!((h.width, h.height, h.ncomp), (32, 32, 3));
    assert_eq!(h.samp[0], (2, 2));
    assert!(h.saw_sos);
    let t = dqt_luma(&jpg).expect("luma table");
    assert_eq!(super_dqt(&jpg), Some(t));
    assert!(t.iter().all(|&v| v >= 1));
}

#[test]
fn decode_any_by_extension() {
    let img = synth(8);
    let png = png_rgb8(&img);
    assert_eq!(decode_any(&png, "png").map(|i| i.px), Some(img.px.clone()));
    assert_eq!(decode_any(&png, "PNG").map(|i| i.w), Some(8));
    assert!(decode_any(&png, "jpg").is_none());
    assert!(decode_any(&png, "gif").is_none());
    let jpg = jpeg_of(&img, 90.0);
    assert!(decode_any(&jpg, "JPeG").is_some());
    assert!(decode_any(&jpg, "jpg").is_some());
    assert!(matches!(format_for_extension("Png"), Some(Format::Png)));
    assert!(matches!(format_for_extension("jpeg"), Some(Format::Jpeg)));
    assert!(format_for_extension("jpe").is_none());
    assert!(format_for_extension("").is_none());
}

#[test]
fn resize_produces_requested_size() {
    let img = Rgb8Img { px: vec![100u8; 16 * 12 * 3], w: 16, h: 12 };
    let half = resize_rgb8(&img, 8, 6, ResizeFilter::CatmullRom);
    assert_eq!((half.w, half.h, half.px.len()), (8, 6, 8 * 6 * 3));
    assert!(half.px.iter().all(|&v| (99..=101).contains(&v)));
    let up = resize_rgb8(&half, 16, 12, ResizeFilter::Lanczos);
    assert_eq!(up.px.len(), 16 * 12 * 3);
    let m = resize_rgb8(&img, 5, 7, ResizeFilter::Mitchell);
    assert_eq!((m.w, m.h), (5, 7));
}
