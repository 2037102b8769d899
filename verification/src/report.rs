//! What one run of the checker prints on its standard output, and the exit
//! code it ends with.
use vstd::prelude::*;

use crate::config::{ConfigError, Severity};
use crate::files::ignore_file::IgnoreError;
use crate::files::io::FileError;
use crate::text::{decimal, push_decimal, push_str};

verus! {

/// The exit code of a run that found nothing at error severity.
pub const SUCCESS: u8 = 0;

/// The exit code of a run with an error finding, or one that failed at work.
pub const FINDINGS: u8 = 1;

/// The exit code of a run that was asked for something it cannot do.
pub const USAGE: u8 = 2;

/// One finding, as the report lists it.
#[derive(Debug, Clone)]
pub struct Reported {
    /// The file, as the user named it.
    pub path: String,
    /// The line of the finding, counted from one.
    pub line: usize,
    /// The severity that the configuration gives its rule.
    pub severity: Severity,
    /// The rule's name.
    pub name: String,
    /// The text around the finding.
    pub snippet: String,
}

/// The word that names a severity in the report.
pub open spec fn severity_word(severity: Severity) -> Seq<char> {
    match severity {
        Severity::Error => "error"@,
        Severity::Warning => "warning"@,
    }
}

/// The word that names `severity` in the report.
pub fn severity_name(severity: Severity) -> (r: &'static str)
    ensures
        r@ == severity_word(severity),
{
    match severity {
        Severity::Error => "error",
        Severity::Warning => "warning",
    }
}

/// `path:line: severity: [name] …snippet…`
pub open spec fn finding_text(finding: Reported) -> Seq<char> {
    finding.path@ + ":"@ + decimal(finding.line as nat) + ": "@ + severity_word(finding.severity)
        + ": ["@ + finding.name@ + "] …"@ + finding.snippet@ + "…"@
}

/// Each finding on a line of its own, in order.
pub open spec fn finding_lines(findings: Seq<Reported>) -> Seq<char>
    decreases findings.len(),
{
    if findings.len() == 0 {
        Seq::empty()
    } else {
        finding_lines(findings.drop_last()) + finding_text(findings.last()) + "\n"@
    }
}

/// How many of `findings` are at error severity.
pub open spec fn errors(findings: Seq<Reported>) -> nat
    decreases findings.len(),
{
    if findings.len() == 0 {
        0
    } else {
        errors(findings.drop_last()) + if findings.last().severity == Severity::Error {
            1nat
        } else {
            0nat
        }
    }
}

/// The closing count of a report with findings, after an empty line.
pub open spec fn summary_line(errors: nat, warnings: nat) -> Seq<char> {
    "\n"@ + decimal(errors) + " error(s), "@ + decimal(warnings)
        + " warning(s). --fix auto-fixes most.\n"@
}

/// The whole report of a run that checked `checked` files and found nothing.
pub open spec fn ok_line(checked: nat) -> Seq<char> {
    "OK: "@ + decimal(checked) + " file(s) clean\n"@
}

/// The exit code of a run that ended with `findings`.
pub open spec fn findings_code(findings: Seq<Reported>) -> u8 {
    if errors(findings) == 0 {
        SUCCESS
    } else {
        FINDINGS
    }
}

proof fn errors_at_most_len(findings: Seq<Reported>)
    ensures
        errors(findings) <= findings.len(),
    decreases findings.len(),
{
    if findings.len() > 0 {
        errors_at_most_len(findings.drop_last());
    }
}

/// The report of a run that checked `checked` files, and its exit code.
///
/// With no finding it is one line that counts the clean files. Otherwise each
/// finding has its line, in order, and an empty line and the count of errors
/// and warnings close it; the run fails only where a finding is at error
/// severity.
pub fn report(checked: usize, findings: &[Reported]) -> (r: (String, u8))
    ensures
        findings@.len() == 0 ==> r.0@ == ok_line(checked as nat) && r.1 == SUCCESS,
        findings@.len() > 0 ==> r.0@ == finding_lines(findings@) + summary_line(
            errors(findings@),
            (findings@.len() - errors(findings@)) as nat,
        ) && r.1 == findings_code(findings@),
{
    let mut out = String::new();
    if findings.len() == 0 {
        push_str(&mut out, "OK: ");
        push_decimal(&mut out, checked as u64);
        push_str(&mut out, " file(s) clean\n");
        return (out, SUCCESS);
    }
    let mut count: usize = 0;
    let mut i: usize = 0;
    while i < findings.len()
        invariant
            i <= findings@.len(),
            out@ == finding_lines(findings@.take(i as int)),
            count == errors(findings@.take(i as int)),
            count <= i,
        decreases findings@.len() - i,
    {
        let finding = &findings[i];
        push_str(&mut out, finding.path.as_str());
        push_str(&mut out, ":");
        push_decimal(&mut out, finding.line as u64);
        push_str(&mut out, ": ");
        push_str(&mut out, severity_name(finding.severity));
        push_str(&mut out, ": [");
        push_str(&mut out, finding.name.as_str());
        push_str(&mut out, "] …");
        push_str(&mut out, finding.snippet.as_str());
        push_str(&mut out, "…");
        push_str(&mut out, "\n");
        if finding.severity == Severity::Error {
            count = count + 1;
        }
        proof {
            let next = findings@.take(i + 1);
            assert(next.drop_last() =~= findings@.take(i as int));
            assert(next.last() == findings@[i as int]);
        }
        i = i + 1;
    }
    assert(findings@.take(findings@.len() as int) =~= findings@);
    proof {
        errors_at_most_len(findings@);
    }
    push_str(&mut out, "\n");
    push_decimal(&mut out, count as u64);
    push_str(&mut out, " error(s), ");
    push_decimal(&mut out, (findings.len() - count) as u64);
    push_str(&mut out, " warning(s). --fix auto-fixes most.\n");
    let code = if count == 0 {
        SUCCESS
    } else {
        FINDINGS
    };
    (out, code)
}

/// Why a run stopped before it could report.
#[derive(Debug)]
pub enum RunFailure {
    /// No file was named, and `--all` was not given.
    NoFiles,
    /// The configuration breaks the rules.
    Config(ConfigError),
    /// Git would not list the tracked files.
    Git,
    /// The file tree would not be walked in full for `--all`.
    Walk,
    /// The ignore file would not build.
    Ignore(IgnoreError),
    /// The typography pipeline would not start.
    Init,
    /// A file would not read, decode, or write, or holds a bad directive.
    File(FileError),
    /// The report would not write.
    Output,
}

/// Whether the failure is the user's to mend: no files, a configuration error
/// or an inline directive that names no rule.
pub open spec fn usage_kind(failure: RunFailure) -> bool {
    match failure {
        RunFailure::NoFiles => true,
        RunFailure::Config(_) => true,
        RunFailure::File(FileError::Directive { .. }) => true,
        _ => false,
    }
}

/// The word before the message of a failure.
pub open spec fn failure_label(failure: RunFailure) -> Seq<char> {
    match failure {
        RunFailure::Config(_) => "config error"@,
        RunFailure::File(FileError::Directive { .. }) => "directive error"@,
        _ => "error"@,
    }
}

impl RunFailure {
    /// The exit code of a run that stopped on this failure.
    pub fn exit_code(&self) -> (r: u8)
        ensures
            r == (if usage_kind(*self) {
                USAGE
            } else {
                FINDINGS
            }),
    {
        match self {
            RunFailure::NoFiles => USAGE,
            RunFailure::Config(_) => USAGE,
            RunFailure::File(FileError::Directive { .. }) => USAGE,
            _ => FINDINGS,
        }
    }

    /// The word that the message of this failure is printed after.
    pub fn label(&self) -> (r: &'static str)
        ensures
            r@ == failure_label(*self),
    {
        match self {
            RunFailure::Config(_) => "config error",
            RunFailure::File(FileError::Directive { .. }) => "directive error",
            _ => "error",
        }
    }
}

/// A run goes on only with at least one file selected: none, and it stops
/// on [`RunFailure::NoFiles`].
pub fn require_files(selected: usize) -> (r: Result<(), RunFailure>)
    ensures
        (r is Ok) == (selected > 0),
        r matches Err(failure) ==> failure is NoFiles,
{
    if selected == 0 {
        Err(RunFailure::NoFiles)
    } else {
        Ok(())
    }
}

} // verus!
