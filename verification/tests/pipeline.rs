use limae::pipeline::check_lines;

#[test]
fn check_line_edges_match_splitlines() {
    for (text, expected) in [
        ("", vec![]),
        ("\n", vec![""]),
        ("\r\n", vec![""]),
        ("\r\n\r", vec!["", ""]),
        ("中\n\n", vec!["中", ""]),
        ("中\u{2028}", vec!["中"]),
        ("中\r\n文", vec!["中", "文"]),
    ] {
        assert_eq!(check_lines(text), expected, "{text:?}");
    }
}

#[test]
fn every_python_line_boundary_splits_and_the_others_do_not() {
    assert_eq!(
        check_lines("a\u{b}b\u{c}c\u{1c}d\u{1d}e\u{1e}f\u{85}g\u{2029}h"),
        vec!["a", "b", "c", "d", "e", "f", "g", "h"]
    );
    assert_eq!(check_lines("a\tb\u{1f}c\u{a0}d"), vec!["a\tb\u{1f}c\u{a0}d"]);
}
