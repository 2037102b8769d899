use limae::config::{ConfigError, ConfigOrigin, Severity};
use limae::directives::rule_masks;
use limae::files::io::FileError;
use limae::report::{report, require_files, severity_name, Reported, RunFailure, FINDINGS, SUCCESS, USAGE};

fn finding(path: &str, line: usize, severity: Severity, name: &str, snippet: &str) -> Reported {
    Reported {
        path: path.to_owned(),
        line,
        severity,
        name: name.to_owned(),
        snippet: snippet.to_owned(),
    }
}

#[test]
fn a_clean_run_counts_its_files() {
    assert_eq!(report(3, &[]), ("OK: 3 file(s) clean\n".to_owned(), SUCCESS));
    assert_eq!(report(0, &[]), ("OK: 0 file(s) clean\n".to_owned(), SUCCESS));
}

#[test]
fn each_finding_has_its_line_and_the_count_closes_the_report() {
    let findings = [
        finding("docs/a.md", 12, Severity::Error, "zh-typography-1", "中文English"),
        finding("b.md", 3, Severity::Warning, "zh-word-2", "的的"),
    ];
    let (text, code) = report(2, &findings);
    assert_eq!(
        text,
        "docs/a.md:12: error: [zh-typography-1] …中文English…\n\
         b.md:3: warning: [zh-word-2] …的的…\n\
         \n1 error(s), 1 warning(s). --fix auto-fixes most.\n"
    );
    assert_eq!(code, FINDINGS);
}

#[test]
fn warnings_alone_do_not_fail_the_run() {
    let findings = [finding("a.md", 1, Severity::Warning, "zh-tell-1", "x")];
    let (text, code) = report(1, &findings);
    assert_eq!(
        text,
        "a.md:1: warning: [zh-tell-1] …x…\n\n0 error(s), 1 warning(s). --fix auto-fixes most.\n"
    );
    assert_eq!(code, SUCCESS);
}

#[test]
fn severities_are_named_in_lower_case() {
    assert_eq!(severity_name(Severity::Error), "error");
    assert_eq!(severity_name(Severity::Warning), "warning");
}

#[test]
fn what_the_user_must_mend_ends_with_the_usage_code() {
    let config = RunFailure::Config(ConfigError::ConflictingRule { origin: ConfigOrigin::CommandLine });
    assert_eq!(config.exit_code(), USAGE);
    assert_eq!(config.label(), "config error");
    assert_eq!(RunFailure::NoFiles.exit_code(), USAGE);
    assert_eq!(RunFailure::NoFiles.label(), "error");
    let Err(source) = rule_masks(&["<!-- limae-disable fake -->"], &[false]) else {
        panic!("an unknown id must fail");
    };
    let directive = RunFailure::File(FileError::Directive { path: "a.md".into(), source });
    assert_eq!(directive.exit_code(), USAGE);
    assert_eq!(directive.label(), "directive error");
}

#[test]
fn what_fails_at_work_ends_with_the_findings_code() {
    for failure in [RunFailure::Git, RunFailure::Walk, RunFailure::Init, RunFailure::Output] {
        assert_eq!(failure.exit_code(), FINDINGS);
        assert_eq!(failure.label(), "error");
    }
    let read = RunFailure::File(FileError::Read {
        path: "a.md".into(),
        source: std::io::Error::new(std::io::ErrorKind::NotFound, "gone"),
    });
    assert_eq!(read.exit_code(), FINDINGS);
    assert_eq!(read.label(), "error");
}

#[test]
fn a_run_with_no_file_selected_stops_on_the_usage_code() {
    assert!(require_files(3).is_ok());
    let Err(failure) = require_files(0) else {
        panic!("no file selected must stop the run");
    };
    assert!(matches!(failure, RunFailure::NoFiles));
    assert_eq!(failure.exit_code(), USAGE);
}
