//! What the typography check reports, and the line view it reports it in.
//!
//! Lines follow Python `splitlines()`: LF, CR, CRLF, VT, FF, U+001C–U+001E,
//! U+0085 and U+2028–U+2029. CRLF is one boundary; a terminal separator adds
//! no empty check line. TAB, U+001F and NBSP are not line separators.

use vstd::prelude::*;
use vstd::string::StrSliceExecFns;

use crate::config::RuleId;
use crate::text::{chars_of, line_ranges, splitlines};

verus! {

/// One typography violation in the original document, before any fixes.
#[derive(Debug, PartialEq, Eq)]
pub struct TypographyFinding<'text> {
    /// One-based line number in the checker's Python `splitlines()` view.
    pub line: usize,
    /// The rule that found it.
    pub rule: RuleId,
    /// The rule's name.
    pub name: &'static str,
    /// UTF-8 byte range within that check line, excluding its line separator.
    /// Zero-width ranges denote insertion boundaries, not scalar columns.
    pub range: std::ops::Range<usize>,
    /// Original source with up to 12 Unicode scalars on either side of the match.
    pub snippet: &'text str,
}

/// The lines a text is checked in, each without its separator.
pub fn check_lines(text: &str) -> (r: Vec<&str>)
    ensures
        r@.len() == splitlines(text@).len(),
        forall|k: int| 0 <= k < r@.len() ==> (#[trigger] r@[k])@ == splitlines(text@)[k],
{
    let chars = chars_of(text);
    let ranges = line_ranges(&chars);
    let mut lines: Vec<&str> = Vec::new();
    let mut k: usize = 0;
    while k < ranges.len()
        invariant
            chars@ == text@,
            k <= ranges@.len(),
            lines@.len() == k,
            crate::text::ranges_view(chars@, ranges@) == splitlines(chars@),
            forall|x: int| 0 <= x < ranges@.len() ==> (#[trigger] ranges@[x]).0 <= ranges@[x].1 <= chars@.len(),
            forall|m: int| 0 <= m < k ==> (#[trigger] lines@[m])@ == splitlines(text@)[m],
        decreases ranges@.len() - k,
    {
        let (from, to) = ranges[k];
        let line = text.substring_char(from, to);
        proof {
            assert(crate::text::ranges_view(chars@, ranges@)[k as int] == chars@.subrange(from as int, to as int));
        }
        lines.push(line);
        k = k + 1;
    }
    lines
}

} // verus!
