use zensr::image::{synth, Rgb8Img};
use zensr::ppm::{encode_ppm, parse_ppm, PpmError};

#[test]
fn ppm_round_trip() {
    for n in [1usize, 5, 12] {
        let img = synth(n);
        let bytes = encode_ppm(&img);
        let back = parse_ppm(&bytes).expect("parses");
        assert_eq!((back.w, back.h), (img.w, img.h));
        assert_eq!(back.px, img.px);
    }
    let wide = Rgb8Img { px: vec![7; 3 * 123 * 2], w: 123, h: 2 };
    let bytes = encode_ppm(&wide);
    assert!(bytes.starts_with(b"P6\n123 2\n255\n"));
    assert_eq!(parse_ppm(&bytes).unwrap().px, wide.px);
}

#[test]
fn ppm_header_comments_and_whitespace() {
    let mut d = b"P6 # made by hand\n# second comment\n  2\t1\r\n255 ".to_vec();
    d.extend_from_slice(&[1, 2, 3, 4, 5, 6, 99]);
    let img = parse_ppm(&d).expect("parses");
    assert_eq!((img.w, img.h), (2, 1));
    assert_eq!(img.px, vec![1, 2, 3, 4, 5, 6]);
}

#[test]
fn ppm_errors() {
    assert_eq!(parse_ppm(b"P5\n1 1\n255\n\0").err(), Some(PpmError::NotP6));
    assert_eq!(parse_ppm(b"P").err(), Some(PpmError::Truncated));
    assert_eq!(parse_ppm(b"P6\n1 1\n65535\n\0\0\0\0\0\0").err(), Some(PpmError::MaxVal(65535)));
    assert_eq!(parse_ppm(b"P6\n2 2\n255\n\0\0\0").err(), Some(PpmError::Truncated));
    assert_eq!(parse_ppm(b"P6\n2 2").err(), Some(PpmError::Truncated));
    assert_eq!(parse_ppm(b"P6\n99999999999999999999999 1\n255\n").err(), Some(PpmError::Overflow));
    assert_eq!(parse_ppm(b"P6 #never ends").err(), Some(PpmError::Truncated));
}
