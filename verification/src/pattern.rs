//! Regular expressions from the `regex` crate, each kept with the text it was
//! compiled from, so that what a search finds can be named by that text and
//! the haystack alone.

use vstd::prelude::*;

use crate::text::{byte_offset, lemma_byte_offset_unique};

verus! {

#[verifier::external_type_specification]
#[verifier::external_body]
pub struct ExRegex(regex::Regex);

#[verifier::external_type_specification]
#[verifier::external_body]
pub struct ExRegexError(regex::Error);

/// Whether `regex::Regex::new` compiles a pattern: it refuses one that is
/// invalid or that would exceed its default size limit.
pub uninterp spec fn regex_compiles(pattern: Seq<char>) -> bool;

/// What `regex::Regex::is_match` answers: whether the pattern matches
/// anywhere in the haystack.
pub uninterp spec fn regex_is_match(pattern: Seq<char>, haystack: Seq<char>) -> bool;

/// The byte ranges of the matches that `regex::Regex::find_iter` yields, in
/// order.
pub uninterp spec fn regex_find_iter(pattern: Seq<char>, haystack: Seq<char>) -> Seq<(int, int)>;

/// The byte range of the match that `regex::Regex::find_at` returns when the
/// search starts at byte `start`.
pub uninterp spec fn regex_find_at(pattern: Seq<char>, haystack: Seq<char>, start: int) -> Option<(int, int)>;

/// How many bytes a text takes in UTF-8.
pub open spec fn byte_count(s: Seq<char>) -> int {
    vstd::utf8::encode_utf8(s).len() as int
}

/// Whether a byte offset is where a character of the text starts, or its end.
pub open spec fn char_boundary(s: Seq<char>, b: int) -> bool {
    exists|k: int| 0 <= k <= s.len() && #[trigger] byte_offset(s, k) == b
}

/// The character position where byte `b` of a line falls, when a character
/// starts there (or the line ends there).
pub open spec fn char_at_byte(line: Seq<char>, b: int) -> int {
    choose|k: int| 0 <= k <= line.len() && #[trigger] byte_offset(line, k) == b
}

/// The character position where byte `b` of a text falls.
pub(crate) fn position_of(s: &[char], offsets: &Vec<usize>, b: usize) -> (k: usize)
    requires
        offsets@.len() == s@.len() + 1,
        forall|m: int| 0 <= m <= s@.len() ==> #[trigger] offsets@[m] == byte_offset(s@, m),
        char_boundary(s@, b as int),
    ensures
        k <= s@.len(),
        byte_offset(s@, k as int) == b,
        k == char_at_byte(s@, b as int),
{
    let mut k: usize = 0;
    while k < s.len() && offsets[k] != b
        invariant
            k <= s@.len(),
            offsets@.len() == s@.len() + 1,
            forall|m: int| 0 <= m <= s@.len() ==> #[trigger] offsets@[m] == byte_offset(s@, m),
            forall|m: int| 0 <= m < k ==> byte_offset(s@, m) != b,
        decreases s@.len() - k,
    {
        k = k + 1;
    }
    proof {
        let w = choose|m: int| 0 <= m <= s@.len() && #[trigger] byte_offset(s@, m) == b;
        if byte_offset(s@, k as int) != b {
            assert(k == s@.len());
            assert(w < k);
        }
        lemma_byte_offset_unique(s@, w, k as int);
    }
    k
}

/// A match as the `regex` crate documents every match: a range of the
/// haystack, start before end, both ends on character boundaries.
pub open spec fn well_placed(haystack: Seq<char>, m: (int, int)) -> bool {
    &&& 0 <= m.0 <= m.1 <= byte_count(haystack)
    &&& char_boundary(haystack, m.0)
    &&& char_boundary(haystack, m.1)
}

/// Byte ranges as pairs of integers.
pub open spec fn ranges_of(found: Seq<(usize, usize)>) -> Seq<(int, int)> {
    found.map_values(|m: (usize, usize)| (m.0 as int, m.1 as int))
}

/// A compiled regular expression with the pattern it was compiled from.
///
/// The fields are private and only [`Pattern::new`] fills them, so the
/// expression is always the one its pattern compiles to.
pub struct Pattern {
    source: String,
    regex: regex::Regex,
}

impl View for Pattern {
    type V = Seq<char>;

    closed spec fn view(&self) -> Seq<char> {
        self.source@
    }
}

impl Pattern {
    /// Compile a pattern with `regex::Regex::new`.
    ///
    /// Trusted: that it succeeds exactly on the patterns [`regex_compiles`]
    /// holds of, which is a function of the pattern alone (the size limit is
    /// the crate's default).
    #[verifier::external_body]
    pub(crate) fn new(source: &str) -> (r: Result<Pattern, regex::Error>)
        ensures
            r is Ok <==> regex_compiles(source@),
            r matches Ok(p) ==> p@ == source@,
    {
        match regex::Regex::new(source) {
            Ok(regex) => Ok(Pattern { source: source.to_string(), regex }),
            Err(error) => Err(error),
        }
    }

    /// `regex::Regex::is_match`: whether the pattern matches anywhere in the
    /// haystack.
    #[verifier::external_body]
    pub(crate) fn is_match(&self, haystack: &str) -> (r: bool)
        ensures
            r == regex_is_match(self@, haystack@),
    {
        self.regex.is_match(haystack)
    }

    /// `regex::Regex::find_iter`, each match taken as its byte range.
    ///
    /// Trusted beyond the name: what the crate documents of every match
    /// (a range of the haystack on character boundaries) and of the iterator
    /// (successive matches that do not overlap).
    #[verifier::external_body]
    pub(crate) fn find_iter(&self, haystack: &str) -> (r: Vec<(usize, usize)>)
        ensures
            ranges_of(r@) == regex_find_iter(self@, haystack@),
            forall|k: int| 0 <= k < r@.len() ==> well_placed(haystack@, #[trigger] ranges_of(r@)[k]),
            forall|k: int| 0 < k < r@.len() ==> ranges_of(r@)[k - 1].1 <= #[trigger] ranges_of(r@)[k].0,
    {
        self.regex.find_iter(haystack).map(|m| (m.start(), m.end())).collect()
    }

    /// `regex::Regex::find_at`, the match taken as its byte range.
    ///
    /// Trusted beyond the name: the match lies in the searched part of the
    /// haystack, from `start` on, on character boundaries. The call panics on
    /// a start past the end, which `requires` leaves out.
    #[verifier::external_body]
    pub(crate) fn find_at(&self, haystack: &str, start: usize) -> (r: Option<(usize, usize)>)
        requires
            start <= byte_count(haystack@),
        ensures
            r matches Some(m) ==> regex_find_at(self@, haystack@, start as int) == Some((m.0 as int, m.1 as int)),
            r is None ==> regex_find_at(self@, haystack@, start as int) is None,
            r matches Some(m) ==> start <= m.0 && well_placed(haystack@, (m.0 as int, m.1 as int)),
    {
        self.regex.find_at(haystack, start).map(|m| (m.start(), m.end()))
    }
}

} // verus!
