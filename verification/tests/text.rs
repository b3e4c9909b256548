use zensr::text::{field, gt_src_of, is_white_space, meta_field, pinned_stem};

#[test]
fn pinned_stem_strips_extension_and_pristine_mark() {
    assert_eq!(pinned_stem("photo.jpg"), "photo");
    assert_eq!(pinned_stem("photo__pristine2x.png"), "photo");
    assert_eq!(pinned_stem("a.b.c"), "a.b");
    assert_eq!(pinned_stem("noext"), "noext");
    assert_eq!(pinned_stem("x__pristine"), "x");
    assert_eq!(pinned_stem(".hidden"), "");
    assert_eq!(pinned_stem("im__pris.png"), "im__pris");
    assert_eq!(pinned_stem("ü__pristine3x.jpg"), "ü");
}

#[test]
fn gt_src_of_is_case_insensitive_png() {
    assert_eq!(gt_src_of("a.png"), "png");
    assert_eq!(gt_src_of("A.PNG"), "png");
    assert_eq!(gt_src_of("b.Png"), "png");
    assert_eq!(gt_src_of("c.jpg"), "jpg");
    assert_eq!(gt_src_of("png"), "jpg");
    assert_eq!(gt_src_of("d.png.jpg"), "jpg");
}

#[test]
fn field_reads_strings_and_bare_values() {
    let line = r#"{"name": "foo", "q": 85 , "ok":true}"#;
    assert_eq!(field(line, "name"), Some("foo"));
    assert_eq!(field(line, "q"), Some("85"));
    assert_eq!(field(line, "ok"), Some("true"));
    assert_eq!(field(line, "missing"), None);
    assert_eq!(field(r#"{"s": "open"#, "s"), None);
    assert_eq!(field(r#"{"e":}"#, "e"), Some(""));
}

#[test]
fn meta_field_takes_identifier_run() {
    let meta = r#"{"arch": "compact", "nf": 24, "space":"ycbcr_full"}"#;
    assert_eq!(meta_field(meta, "arch").as_deref(), Some("compact"));
    assert_eq!(meta_field(meta, "nf").as_deref(), Some("24"));
    assert_eq!(meta_field(meta, "space").as_deref(), Some("ycbcr_full"));
    assert_eq!(meta_field(meta, "scale"), None);
}

#[test]
fn white_space_matches_std() {
    for c in [' ', '\t', '\n', '\r', '\u{0b}', '\u{0c}', '\u{85}', '\u{a0}', '\u{2003}', '\u{3000}', 'a', '_', '0', '\u{200b}'] {
        assert_eq!(is_white_space(c), c.is_whitespace(), "{c:?}");
    }
}

#[test]
fn pristine_replacement_of_a_dotted_stem_matches() {
    assert_eq!(pinned_stem("a.b.jpg"), "a.b");
    assert_eq!(pinned_stem("a.b__pristine3x.png"), "a.b");
    assert_eq!(pinned_stem("shot.v2__pristine2x.png"), pinned_stem("shot.v2.jpeg"));
}
