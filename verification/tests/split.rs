use zensr::split::{
    parse_holdout, parse_holdout_line, parse_pin_line, parse_pinned, parse_subcorpora,
    parse_subcorpus_line, split_lines,
};

fn pairs(v: &[(&str, &str)]) -> Vec<(String, String)> {
    v.iter().map(|(a, b)| (a.to_string(), b.to_string())).collect()
}

#[test]
fn lines_match_std() {
    for t in ["", "a", "a\n", "a\nb", "a\r\nb\r\n", "\n\n", "x\r", "x\ry\n", " \n\t"] {
        let mine: Vec<&str> = split_lines(t);
        let std: Vec<&str> = t.lines().collect();
        assert_eq!(mine, std, "{t:?}");
    }
}

#[test]
fn pinned_list_keeps_dir_and_stem() {
    let text = "# header\nphotos\tIMG_1.jpg\n\n   \nphotos\tIMG_2__pristine2x.png\textra\nnotab\ndocs\tscan.tif\n";
    assert_eq!(
        parse_pinned(text),
        pairs(&[("photos", "IMG_1"), ("photos", "IMG_2"), ("docs", "scan")])
    );
    assert_eq!(parse_pin_line("a\tb.c"), Some(("a".to_string(), "b".to_string())));
    assert_eq!(parse_pin_line(" #x\ty"), Some((" #x".to_string(), "y".to_string())));
    assert_eq!(parse_pin_line("#x\ty"), None);
    assert_eq!(parse_pinned(""), vec![]);
}

#[test]
fn holdout_skips_train_and_takes_last_component() {
    let text = "  1000-photos/a/b/IMG_9.jpg\tvalidate  \r\n1000-photos/x.png\ttrain\n2000-people/p.png\ttest\n# c\nnoslash.png\ttest\n";
    assert_eq!(
        parse_holdout(text),
        pairs(&[("1000-photos", "IMG_9"), ("2000-people", "p")])
    );
    assert_eq!(parse_holdout_line("c/f__pristine4x.jpg\ttest"), Some(("c".to_string(), "f".to_string())));
    assert_eq!(parse_holdout_line("c/f.jpg\ttrain"), None);
    assert_eq!(parse_holdout_line("c/f.jpg\ttrains"), Some(("c".to_string(), "f".to_string())));
    assert_eq!(parse_holdout_line("   "), None);
    assert_eq!(parse_holdout_line("c/f.jpg"), None);
}

#[test]
fn subcorpora_are_trimmed() {
    let text = "# label\tdir\n photos \t 1000-lilith-photos-general \nscreen\t8000-lilith-mobile-screenshots\n\nbad line\n";
    assert_eq!(
        parse_subcorpora(text),
        pairs(&[("photos", "1000-lilith-photos-general"), ("screen", "8000-lilith-mobile-screenshots")])
    );
    assert_eq!(parse_subcorpus_line("a\tb\tc"), Some(("a".to_string(), "b".to_string())));
    assert_eq!(parse_subcorpus_line("\t"), None);
    assert_eq!(parse_subcorpus_line("a \t b"), Some(("a".to_string(), "b".to_string())));
    assert_eq!(parse_subcorpus_line("x\t"), Some(("x".to_string(), String::new())));
}
