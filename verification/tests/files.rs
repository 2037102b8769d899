use limae::files::{FileError, FileText};
use std::path::PathBuf;

#[test]
fn crlf_and_bare_cr_are_read_as_lf() -> Result<(), &'static str> {
    let text = FileText::from_bytes(PathBuf::from("a.md"), "一\r\n二\r三\n\r\n".as_bytes())
        .map_err(|_| "valid UTF-8 must read")?;
    assert_eq!(text.as_str(), "一\n二\n三\n\n");
    assert_eq!(text.path(), &PathBuf::from("a.md"));
    assert_eq!(
        limae::files::io::universal_newlines("\r\r\n\n\r"),
        "\n\n\n\n"
    );
    Ok(())
}

#[test]
fn bytes_that_are_not_utf8_are_refused_with_their_path() {
    match FileText::from_bytes(PathBuf::from("b.md"), &[0x66, 0xff, 0x66]) {
        Err(FileError::Utf8 { path, .. }) => assert_eq!(path, PathBuf::from("b.md")),
        _ => panic!("invalid UTF-8 must be refused"),
    }
}

use limae::files::ignore_file::{rule, IgnoreError, IgnorePatterns, Verdict};

fn patterns(text: &str) -> IgnorePatterns {
    IgnorePatterns::parse(&PathBuf::from("/r"), &PathBuf::from("/r/.limae-ignore"), text)
        .unwrap_or_else(|_| panic!("the patterns must compile"))
}

#[test]
fn ignore_patterns_match_files_and_directories_below_the_root() {
    let patterns = patterns("*.md\r\n!keep.md\ndocs/\n");
    assert!(patterns.ignores(&PathBuf::from("/r/a.md")));
    assert!(!patterns.ignores(&PathBuf::from("/r/keep.md")));
    assert!(patterns.ignores(&PathBuf::from("/r/docs/x.txt")));
    assert!(!patterns.ignores(&PathBuf::from("/r/src/x.txt")));
}

#[test]
fn braces_are_literal_and_a_class_left_open_skips_its_line() {
    let patterns = patterns("a{b}.txt\n[abc\n");
    assert!(patterns.ignores(&PathBuf::from("/r/a{b}.txt")));
    assert!(!patterns.ignores(&PathBuf::from("/r/ab.txt")));
    assert!(!patterns.ignores(&PathBuf::from("/r/[abc")));
}

#[test]
fn a_bare_negation_is_refused_with_its_line_number() {
    match IgnorePatterns::parse(&PathBuf::from("/r"), &PathBuf::from("/r/.limae-ignore"), "a\n\u{2028}! \n") {
        Err(IgnoreError::Pattern { path, line, .. }) => {
            assert_eq!(path, PathBuf::from("/r/.limae-ignore"));
            assert_eq!(line, 3);
        }
        _ => panic!("a bare negation must be refused"),
    }
}

#[test]
fn a_file_match_decides_and_otherwise_the_last_directory_pattern_wins() {
    let lines = vec!["docs/".to_string(), "!docs/keep/".to_string()];
    assert!(rule(&Verdict::Ignore("x".to_string()), &[], &lines));
    assert!(!rule(&Verdict::Whitelist("x".to_string()), &[Verdict::Ignore("docs/".to_string())], &lines));
    // The nearer directory is re-included, but the pattern that ignores the
    // farther one comes earlier in the file, so the re-inclusion wins.
    let parents = [
        Verdict::Whitelist("!docs/keep/".to_string()),
        Verdict::Ignore("docs/".to_string()),
    ];
    assert!(!rule(&Verdict::Nothing, &parents, &lines));
    let parents = [Verdict::Ignore("docs/".to_string()), Verdict::Nothing];
    assert!(rule(&Verdict::Nothing, &parents, &lines));
    // A verdict whose pattern is not among the kept lines weighs nothing.
    assert!(!rule(&Verdict::Nothing, &[Verdict::Ignore("other".to_string())], &lines));
}

#[test]
fn a_relabelled_failure_names_the_new_path_and_keeps_its_kind() {
    let error = match FileText::from_bytes(PathBuf::from("b.md"), &[0xff]) {
        Err(error) => error,
        Ok(_) => panic!("invalid UTF-8 must be refused"),
    };
    match limae::files::io::relabel_file_error(error, PathBuf::from("c.md")) {
        FileError::Utf8 { path, .. } => assert_eq!(path, PathBuf::from("c.md")),
        _ => panic!("the kind of failure must not change"),
    }
}

#[test]
fn inputs_stay_as_spelled_and_in_order_unless_ignored_under_the_root() {
    let patterns = patterns("*.md\n!keep.md\n");
    let inputs = [
        PathBuf::from("a.md"),
        PathBuf::from("./keep.md"),
        PathBuf::from("../elsewhere/b.md"),
        PathBuf::from("keep.md"),
    ];
    let resolved = [
        PathBuf::from("/r/a.md"),
        PathBuf::from("/r/keep.md"),
        PathBuf::from("/elsewhere/b.md"),
        PathBuf::from("/r/keep.md"),
    ];
    assert_eq!(
        patterns.kept(&inputs, &resolved, &PathBuf::from("/r")),
        vec![PathBuf::from("./keep.md"), PathBuf::from("../elsewhere/b.md"), PathBuf::from("keep.md")]
    );
}
