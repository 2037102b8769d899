//! Markdown exemptions from the rules, as line-local UTF-8 byte ranges.
//!
//! A line is either verbatim (a fence marker or fenced content) or prose with
//! exempt spans: inline code interiors, kana quotations, link destinations and
//! URLs. A rule's match on a line is exempt when it touches one of them
//! ([`LineProtection::is_exempt`]).
//!
//! [`Markdown::protect`] reads the lines the way the rules segment them:
//! fences first, then blank lines and block starts closing paragraphs, and a
//! code span pairing its backticks across the lines of one paragraph. The
//! lines are the caller's view of the text; nothing here splits or
//! normalizes them.

use vstd::prelude::*;

use crate::pattern::{
    byte_count, char_at_byte, position_of, well_placed, Pattern, ranges_of, regex_compiles, regex_find_at, regex_find_iter,
    regex_is_match,
};
use crate::text::{
    all_whitespace, byte_offset, byte_offsets, chars_of, has_at, is_python_whitespace, lemma_byte_offset_unique,
    push_char, push_str, skip_whitespace, starts_with, trim_start,
};

verus! {

/// Exemptions for one input line, keeping code interiors separate for fixes.
#[derive(Debug, PartialEq, Eq)]
pub enum LineProtection {
    /// A fence marker or fenced content; preserve the whole line.
    Verbatim,
    /// Sorted, disjoint byte ranges in each collection, excluding delimiters.
    Inline {
        /// Inline code interiors, including zero-length ranges at line edges.
        code: Vec<std::ops::Range<usize>>,
        /// Non-code exempt interiors: kana quotations, destinations and URLs.
        prose: Vec<std::ops::Range<usize>>,
    },
}

/// A byte range as a pair of integers.
pub open spec fn span_of(range: std::ops::Range<usize>) -> (int, int) {
    (range.start as int, range.end as int)
}

/// Byte ranges as pairs of integers.
pub open spec fn spans_of(ranges: Seq<std::ops::Range<usize>>) -> Seq<(int, int)> {
    ranges.map_values(|range: std::ops::Range<usize>| span_of(range))
}

/// Whether a match touches an exempt span: a zero-width match at a position
/// inside it or at either end, a consuming match on any overlap.
pub open spec fn touches(span: (int, int), matched: (int, int)) -> bool {
    if matched.0 == matched.1 {
        span.0 <= matched.0 <= span.1
    } else {
        matched.0 < span.1 && matched.1 > span.0
    }
}

/// Whether a match on a line is exempt under its protection.
pub open spec fn exempt(protection: LineProtection, matched: (int, int)) -> bool {
    match protection {
        LineProtection::Verbatim => true,
        LineProtection::Inline { code, prose } => exists|span: (int, int)|
            (spans_of(code@).contains(span) || spans_of(prose@).contains(span)) && #[trigger] touches(span, matched),
    }
}

fn touches_any(spans: &Vec<std::ops::Range<usize>>, matched: &std::ops::Range<usize>) -> (r: bool)
    ensures
        r == exists|span: (int, int)| spans_of(spans@).contains(span) && #[trigger] touches(span, span_of(*matched)),
{
    let mut k: usize = 0;
    while k < spans.len()
        invariant
            k <= spans@.len(),
            forall|m: int| 0 <= m < k ==> !#[trigger] touches(span_of(spans@[m]), span_of(*matched)),
        decreases spans@.len() - k,
    {
        let span = &spans[k];
        let hit = if matched.start == matched.end {
            span.start <= matched.start && matched.start <= span.end
        } else {
            matched.start < span.end && matched.end > span.start
        };
        if hit {
            proof {
                let found = span_of(spans@[k as int]);
                assert(spans_of(spans@)[k as int] == found);
                assert(spans_of(spans@).contains(found));
                assert(touches(found, span_of(*matched)));
            }
            return true;
        }
        k = k + 1;
    }
    proof {
        assert forall|span: (int, int)| spans_of(spans@).contains(span) implies !#[trigger] touches(span, span_of(*matched)) by {
            let m = choose|m: int| 0 <= m < spans_of(spans@).len() && spans_of(spans@)[m] == span;
            assert(spans_of(spans@)[m] == span_of(spans@[m]));
        }
    }
    false
}

impl LineProtection {
    /// Test a line-local match: zero-width positions include both endpoints,
    /// while consuming matches are exempt on any overlap.
    #[must_use]
    pub fn is_exempt(&self, matched: std::ops::Range<usize>) -> (r: bool)
        ensures
            r == exempt(*self, span_of(matched)),
    {
        match self {
            LineProtection::Verbatim => true,
            LineProtection::Inline { code, prose } => {
                let in_code = touches_any(code, &matched);
                let in_prose = touches_any(prose, &matched);
                in_code || in_prose
            },
        }
    }
}

/// The first run after `i`, from `j` on, as long as run `i`.
pub open spec fn partner_from(runs: Seq<(int, int)>, i: int, j: int) -> Option<int>
    decreases runs.len() - j,
{
    if j >= runs.len() || j < 0 {
        None
    } else if runs[j].1 - runs[j].0 == runs[i].1 - runs[i].0 {
        Some(j)
    } else {
        partner_from(runs, i, j + 1)
    }
}

/// Backtick runs paired into code spans, from run `i` on: each run closes
/// with the next run of the same length, and a run with no such partner is
/// ordinary text. The interiors between paired runs, and whether any run was
/// left without a partner.
pub open spec fn pairing(runs: Seq<(int, int)>, i: int) -> (Seq<(int, int)>, bool)
    decreases runs.len() - i,
{
    if i >= runs.len() || i < 0 {
        (Seq::empty(), false)
    } else {
        match partner_from(runs, i, i + 1) {
            Some(j) => if i < j < runs.len() {
                let (rest, unpaired) = pairing(runs, j + 1);
                (seq![(runs[i].1, runs[j].0)] + rest, unpaired)
            } else {
                (Seq::empty(), false)
            },
            None => {
                let (rest, _) = pairing(runs, i + 1);
                (rest, true)
            },
        }
    }
}

proof fn lemma_partner_after(runs: Seq<(int, int)>, i: int, j: int)
    requires
        0 <= j,
    ensures
        partner_from(runs, i, j) matches Some(k) ==> j <= k < runs.len(),
    decreases runs.len() - j,
{
    if j < runs.len() && runs[j].1 - runs[j].0 != runs[i].1 - runs[i].0 {
        lemma_partner_after(runs, i, j + 1);
    }
}

/// Whether run `k` has no later run of the same length to pair with.
pub open spec fn without_later_partner(runs: Seq<(int, int)>, k: int) -> bool {
    forall|j: int| k < j < runs.len() ==> #[trigger] runs[j].1 - runs[j].0 != runs[k].1 - runs[k].0
}

proof fn lemma_partner_found(runs: Seq<(int, int)>, i: int, j: int)
    requires
        0 <= j,
    ensures
        partner_from(runs, i, j) matches Some(k) ==> j <= k < runs.len() && runs[k].1 - runs[k].0 == runs[i].1
            - runs[i].0,
        partner_from(runs, i, j) is None ==> forall|l: int|
            j <= l < runs.len() ==> #[trigger] runs[l].1 - runs[l].0 != runs[i].1 - runs[i].0,
    decreases runs.len() - j,
{
    if j < runs.len() && runs[j].1 - runs[j].0 != runs[i].1 - runs[i].0 {
        lemma_partner_found(runs, i, j + 1);
    }
}

proof fn lemma_unpaired_from(runs: Seq<(int, int)>, i: int)
    requires
        0 <= i,
    ensures
        pairing(runs, i).1 ==> exists|k: int| i <= k < runs.len() && #[trigger] without_later_partner(runs, k),
    decreases runs.len() - i,
{
    if i < runs.len() {
        lemma_partner_found(runs, i, i + 1);
        match partner_from(runs, i, i + 1) {
            Some(j) => {
                lemma_unpaired_from(runs, j + 1);
            },
            None => {
                assert(without_later_partner(runs, i));
            },
        }
    }
}

proof fn lemma_reaches_unpaired(runs: Seq<(int, int)>, i: int, k: int)
    requires
        0 <= i <= k < runs.len(),
        without_later_partner(runs, k),
        forall|a: int, b: int|
            0 <= a < k && k <= b < runs.len() ==> #[trigger] runs[a].1 - runs[a].0 != #[trigger] runs[b].1
                - runs[b].0,
    ensures
        pairing(runs, i).1,
    decreases k - i,
{
    lemma_partner_found(runs, i, i + 1);
    match partner_from(runs, i, i + 1) {
        Some(j) => {
            if i == k {
                assert(runs[j].1 - runs[j].0 != runs[k].1 - runs[k].0);
            } else if j >= k {
                assert(runs[i].1 - runs[i].0 != runs[j].1 - runs[j].0);
            } else {
                lemma_reaches_unpaired(runs, j + 1, k);
            }
        },
        None => {},
    }
}

/// When backtick runs are paired, a run is left without a partner only where
/// some run has no later run of the same length. And such a run does count:
/// when no run before it has the length of any run from it on, so that no
/// span opened before it can reach over it, the runs are reported unpaired,
/// wherever in the sequence it stands.
pub proof fn law_any_unpaired_run_is_reported(runs: Seq<(int, int)>, k: int)
    ensures
        pairing(runs, 0).1 ==> exists|l: int| #![trigger runs[l]] 0 <= l < runs.len() && forall|j: int|
            l < j < runs.len() ==> #[trigger] runs[j].1 - runs[j].0 != runs[l].1 - runs[l].0,
        0 <= k < runs.len() && (forall|j: int|
            k < j < runs.len() ==> #[trigger] runs[j].1 - runs[j].0 != runs[k].1 - runs[k].0) && (forall|a: int, b: int|
            0 <= a < k && k <= b < runs.len() ==> #[trigger] runs[a].1 - runs[a].0 != #[trigger] runs[b].1
                - runs[b].0) ==> pairing(runs, 0).1,
{
    lemma_unpaired_from(runs, 0);
    if pairing(runs, 0).1 {
        let l = choose|l: int| 0 <= l < runs.len() && #[trigger] without_later_partner(runs, l);
        assert(without_later_partner(runs, l));
        assert(runs[l] == runs[l]);
    }
    if 0 <= k < runs.len() && (forall|j: int|
        k < j < runs.len() ==> #[trigger] runs[j].1 - runs[j].0 != runs[k].1 - runs[k].0) && (forall|a: int, b: int|
        0 <= a < k && k <= b < runs.len() ==> #[trigger] runs[a].1 - runs[a].0 != #[trigger] runs[b].1
            - runs[b].0) {
        assert(without_later_partner(runs, k));
        lemma_reaches_unpaired(runs, 0, k);
    }
}

/// Pair backtick runs, given as `(start, end)` byte offsets in order, into
/// code spans.
pub fn pair(runs: &[(usize, usize)]) -> (r: (Vec<std::ops::Range<usize>>, bool))
    requires
        forall|k: int| 0 <= k < runs@.len() ==> (#[trigger] runs@[k]).0 <= runs@[k].1,
    ensures
        (spans_of(r.0@), r.1) == pairing(ranges_of(runs@), 0),
{
    let ghost v = ranges_of(runs@);
    let mut spans: Vec<std::ops::Range<usize>> = Vec::new();
    let mut unpaired = false;
    let mut i: usize = 0;
    proof {
        assert(spans_of(spans@) =~= Seq::<(int, int)>::empty());
        assert(pairing(v, 0) == (spans_of(spans@) + pairing(v, 0).0, unpaired || pairing(v, 0).1));
    }
    while i < runs.len()
        invariant
            v == ranges_of(runs@),
            forall|k: int| 0 <= k < runs@.len() ==> (#[trigger] runs@[k]).0 <= runs@[k].1,
            i <= runs@.len(),
            pairing(v, 0) == (spans_of(spans@) + pairing(v, i as int).0, unpaired || pairing(v, i as int).1),
        decreases runs@.len() - i,
    {
        let width = runs[i].1 - runs[i].0;
        let mut j = i + 1;
        proof {
            assert(partner_from(v, i as int, i + 1) == partner_from(v, i as int, j as int));
        }
        while j < runs.len() && runs[j].1 - runs[j].0 != width
            invariant
                v == ranges_of(runs@),
                forall|k: int| 0 <= k < runs@.len() ==> (#[trigger] runs@[k]).0 <= runs@[k].1,
                i < j <= runs@.len(),
                width == runs@[i as int].1 - runs@[i as int].0,
                partner_from(v, i as int, i + 1) == partner_from(v, i as int, j as int),
            decreases runs@.len() - j,
        {
            assert(v[j as int] == (runs@[j as int].0 as int, runs@[j as int].1 as int));
            j = j + 1;
        }
        let ghost before = spans@;
        if j < runs.len() {
            proof {
                assert(v[j as int] == (runs@[j as int].0 as int, runs@[j as int].1 as int));
                assert(v[i as int] == (runs@[i as int].0 as int, runs@[i as int].1 as int));
            }
            spans.push(runs[i].1..runs[j].0);
            proof {
                assert(spans_of(spans@) =~= spans_of(before).push((v[i as int].1, v[j as int].0)));
                assert(spans_of(spans@) + pairing(v, j + 1).0 =~= spans_of(before) + pairing(v, i as int).0);
            }
            i = j + 1;
        } else {
            unpaired = true;
            i = i + 1;
        }
    }
    proof {
        assert(spans_of(spans@) + pairing(v, i as int).0 =~= spans_of(spans@));
    }
    (spans, unpaired)
}

/// Whether two byte ranges overlap.
pub open spec fn overlaps(a: (int, int), b: (int, int)) -> bool {
    a.0 < b.1 && a.1 > b.0
}

/// Whether a candidate span is free to claim: not empty, and overlapping no
/// code interior and no span already claimed.
pub open spec fn claimable(candidate: (int, int), code: Seq<(int, int)>, prose: Seq<(int, int)>) -> bool {
    &&& candidate.0 < candidate.1
    &&& !(exists|k: int| 0 <= k < code.len() && #[trigger] overlaps(candidate, code[k]))
    &&& !(exists|k: int| 0 <= k < prose.len() && #[trigger] overlaps(candidate, prose[k]))
}

fn overlaps_any(candidate: &std::ops::Range<usize>, spans: &[std::ops::Range<usize>]) -> (r: bool)
    ensures
        r == exists|k: int| 0 <= k < spans@.len() && #[trigger] overlaps(span_of(*candidate), spans_of(spans@)[k]),
{
    let mut k: usize = 0;
    while k < spans.len()
        invariant
            k <= spans@.len(),
            forall|m: int| 0 <= m < k ==> !#[trigger] overlaps(span_of(*candidate), spans_of(spans@)[m]),
        decreases spans@.len() - k,
    {
        assert(spans_of(spans@)[k as int] == span_of(spans@[k as int]));
        if candidate.start < spans[k].end && candidate.end > spans[k].start {
            assert(overlaps(span_of(*candidate), spans_of(spans@)[k as int]));
            return true;
        }
        k = k + 1;
    }
    false
}

/// Claim a candidate span for prose when it is not empty and overlaps nothing
/// already exempt.
pub fn claim(candidate: std::ops::Range<usize>, code: &[std::ops::Range<usize>], prose: &mut Vec<std::ops::Range<usize>>)
    ensures
        spans_of(final(prose)@) == if claimable(span_of(candidate), spans_of(code@), spans_of(old(prose)@)) {
            spans_of(old(prose)@).push(span_of(candidate))
        } else {
            spans_of(old(prose)@)
        },
{
    let ghost before = prose@;
    let in_code = overlaps_any(&candidate, code);
    let in_prose = overlaps_any(&candidate, prose.as_slice());
    let taken = in_code || in_prose;
    assert(claimable(span_of(candidate), spans_of(code@), spans_of(before)) == (candidate.start < candidate.end && !taken));
    if candidate.start < candidate.end && !taken {
        prose.push(candidate);
        assert(spans_of(prose@) =~= spans_of(before).push(span_of(candidate)));
    }
}

/// Whether a character opens a quotation whose kana interior is exempt.
pub open spec fn opener(c: char) -> bool {
    c == '「' || c == '『' || c == '《'
}

/// The character that closes a quotation `c` opens.
pub open spec fn closer_of(c: char) -> char {
    if c == '「' {
        '」'
    } else if c == '『' {
        '』'
    } else {
        '》'
    }
}

/// Whether a byte offset lies inside a code interior.
pub open spec fn in_code(code: Seq<(int, int)>, b: int) -> bool {
    exists|k: int| 0 <= k < code.len() && #[trigger] code[k].0 <= b < code[k].1
}

/// Whether a character is hiragana or katakana.
pub open spec fn kana(c: char) -> bool {
    '\u{3040}' <= c <= '\u{30ff}'
}

/// Whether a text holds any kana.
pub open spec fn has_kana(s: Seq<char>) -> bool {
    exists|i: int| 0 <= i < s.len() && kana(#[trigger] s[i])
}

/// Where the quotation opened by `open` closes, scanning from character `k`
/// with `depth` quotations of the same kind open, characters inside code
/// interiors not counted.
pub open spec fn closing(s: Seq<char>, code: Seq<(int, int)>, open: char, k: int, depth: int) -> Option<int>
    decreases s.len() - k,
{
    if k >= s.len() || k < 0 {
        None
    } else if in_code(code, byte_offset(s, k)) {
        closing(s, code, open, k + 1, depth)
    } else if s[k] == open {
        closing(s, code, open, k + 1, depth + 1)
    } else if s[k] == closer_of(open) {
        if depth == 1 {
            Some(k)
        } else {
            closing(s, code, open, k + 1, depth - 1)
        }
    } else {
        closing(s, code, open, k + 1, depth)
    }
}

proof fn lemma_closing_after(s: Seq<char>, code: Seq<(int, int)>, open: char, k: int, depth: int)
    requires
        0 <= k,
    ensures
        closing(s, code, open, k, depth) matches Some(q) ==> k <= q < s.len(),
    decreases s.len() - k,
{
    if k < s.len() {
        lemma_closing_after(s, code, open, k + 1, depth);
        lemma_closing_after(s, code, open, k + 1, depth + 1);
        lemma_closing_after(s, code, open, k + 1, depth - 1);
    }
}

/// The kana quotations of a line from character `p` on, outside code
/// interiors, as byte ranges of their interiors; a quotation that does not
/// close is ordinary text.
pub open spec fn quotes_from(s: Seq<char>, code: Seq<(int, int)>, p: int) -> Seq<(int, int)>
    decreases s.len() - p,
{
    if p >= s.len() || p < 0 {
        Seq::empty()
    } else if in_code(code, byte_offset(s, p)) || !opener(s[p]) {
        quotes_from(s, code, p + 1)
    } else {
        match closing(s, code, s[p], p + 1, 1) {
            Some(q) => if p < q < s.len() {
                (if has_kana(s.subrange(p + 1, q)) {
                    seq![(byte_offset(s, p + 1), byte_offset(s, q))]
                } else {
                    Seq::empty()
                }) + quotes_from(s, code, q + 1)
            } else {
                Seq::empty()
            },
            None => quotes_from(s, code, p + 1),
        }
    }
}

fn in_code_at(code: &[std::ops::Range<usize>], b: usize) -> (r: bool)
    ensures
        r == in_code(spans_of(code@), b as int),
{
    let mut k: usize = 0;
    while k < code.len()
        invariant
            k <= code@.len(),
            forall|m: int| 0 <= m < k ==> !(#[trigger] spans_of(code@)[m].0 <= b < spans_of(code@)[m].1),
        decreases code@.len() - k,
    {
        assert(spans_of(code@)[k as int] == span_of(code@[k as int]));
        if code[k].start <= b && b < code[k].end {
            assert(spans_of(code@)[k as int].0 <= b < spans_of(code@)[k as int].1);
            return true;
        }
        k = k + 1;
    }
    false
}

fn has_kana_in(s: &[char], from: usize, to: usize) -> (r: bool)
    requires
        from <= to <= s@.len(),
    ensures
        r == has_kana(s@.subrange(from as int, to as int)),
{
    let mut i = from;
    while i < to
        invariant
            from <= i <= to <= s@.len(),
            forall|k: int| from <= k < i ==> !kana(#[trigger] s@[k]),
        decreases to - i,
    {
        if '\u{3040}' <= s[i] && s[i] <= '\u{30ff}' {
            assert(s@.subrange(from as int, to as int)[i - from] == s@[i as int]);
            return true;
        }
        i = i + 1;
    }
    proof {
        assert forall|k: int| 0 <= k < to - from implies !kana(#[trigger] s@.subrange(from as int, to as int)[k]) by {
            assert(s@.subrange(from as int, to as int)[k] == s@[from + k]);
        }
    }
    false
}

/// Where the quotation opened at character `p` closes, if it does.
fn closing_at(s: &[char], offsets: &Vec<usize>, code: &[std::ops::Range<usize>], p: usize) -> (r: Option<usize>)
    requires
        p < s@.len(),
        offsets@.len() == s@.len() + 1,
        forall|k: int| 0 <= k <= s@.len() ==> #[trigger] offsets@[k] == byte_offset(s@, k),
    ensures
        match r {
            Some(q) => closing(s@, spans_of(code@), s@[p as int], p + 1, 1) == Some(q as int),
            None => closing(s@, spans_of(code@), s@[p as int], p + 1, 1) is None,
        },
{
    let open = s[p];
    let close = if open == '「' {
        '」'
    } else if open == '『' {
        '』'
    } else {
        '》'
    };
    let mut depth: usize = 1;
    let mut k = p + 1;
    while k < s.len()
        invariant
            p < k <= s@.len(),
            open == s@[p as int],
            close == closer_of(open),
            1 <= depth <= k - p,
            offsets@.len() == s@.len() + 1,
            forall|m: int| 0 <= m <= s@.len() ==> #[trigger] offsets@[m] == byte_offset(s@, m),
            closing(s@, spans_of(code@), open, p + 1, 1) == closing(s@, spans_of(code@), open, k as int, depth as int),
        decreases s@.len() - k,
    {
        if in_code_at(code, offsets[k]) {
        } else if s[k] == open {
            depth = depth + 1;
        } else if s[k] == close {
            if depth == 1 {
                return Some(k);
            }
            depth = depth - 1;
        }
        k = k + 1;
    }
    None
}

/// The kana quotations of a line outside its code interiors, as byte ranges
/// of their interiors.
pub fn quote_spans(line: &str, code: &[std::ops::Range<usize>]) -> (r: Vec<std::ops::Range<usize>>)
    requires
        vstd::utf8::encode_utf8(line@).len() <= usize::MAX,
    ensures
        spans_of(r@) == quotes_from(line@, spans_of(code@), 0),
{
    let s = chars_of(line);
    let offsets = byte_offsets(&s);
    let ghost c = spans_of(code@);
    let mut spans: Vec<std::ops::Range<usize>> = Vec::new();
    let mut p: usize = 0;
    proof {
        assert(spans_of(spans@) + quotes_from(s@, c, 0) =~= quotes_from(s@, c, 0));
    }
    while p < s.len()
        invariant
            s@ == line@,
            c == spans_of(code@),
            p <= s@.len(),
            offsets@.len() == s@.len() + 1,
            forall|m: int| 0 <= m <= s@.len() ==> #[trigger] offsets@[m] == byte_offset(s@, m),
            quotes_from(s@, c, 0) == spans_of(spans@) + quotes_from(s@, c, p as int),
        decreases s@.len() - p,
    {
        let at_code = in_code_at(code, offsets[p]);
        let c0 = s[p];
        if at_code || !(c0 == '「' || c0 == '『' || c0 == '《') {
            p = p + 1;
        } else {
            match closing_at(&s, &offsets, code, p) {
                Some(q) => {
                    proof {
                        lemma_closing_after(s@, c, s@[p as int], p + 1, 1);
                    }
                    let ghost before = spans@;
                    if has_kana_in(&s, p + 1, q) {
                        spans.push(offsets[p + 1]..offsets[q]);
                        proof {
                            assert(spans_of(spans@) =~= spans_of(before).push((byte_offset(s@, p + 1), byte_offset(s@, q as int))));
                        }
                    }
                    proof {
                        assert(quotes_from(s@, c, 0) =~= spans_of(spans@) + quotes_from(s@, c, q + 1));
                    }
                    p = q + 1;
                },
                None => {
                    p = p + 1;
                },
            }
        }
    }
    proof {
        assert(spans_of(spans@) + quotes_from(s@, c, p as int) =~= spans_of(spans@));
    }
    spans
}

/// A line that is a block of its own: an ATX heading, a table row or a
/// thematic break.
pub const SINGLE_LINE_BLOCK: &'static str = r"^ {0,3}(?:#{1,6}(?:[\s\x1c-\x1f]|$)|\||(?:[-*_][\s\x1c-\x1f]*){3,}$)";

/// A line that starts a block: one of [`SINGLE_LINE_BLOCK`], a list item or a
/// block quote.
pub const BLOCK_START: &'static str = r"^ {0,3}(?:#{1,6}(?:[\s\x1c-\x1f]|$)|\||(?:[-*_][\s\x1c-\x1f]*){3,}$|[-*+][\s\x1c-\x1f]|\d{1,9}[.)][\s\x1c-\x1f]|>)";

/// A block quote line.
pub const QUOTE_LINE: &'static str = r"^ {0,3}>";

/// A run of backticks.
pub const BACKTICKS: &'static str = "`+";

/// A link destination, brackets and parentheses included.
pub const DESTINATION: &'static str = r"\]\([^)]*\)";

/// A bare URL.
pub const RAW_URL: &'static str = r"https?://[A-Za-z0-9\-._~:/?#\[\]@!$&'()*+,;=%]*";

/// The patterns a scanner searches with, as text.
pub struct Patterns {
    pub single_line_block: Seq<char>,
    pub block_start: Seq<char>,
    pub quote_line: Seq<char>,
    pub backticks: Seq<char>,
    pub destination: Seq<char>,
    pub raw_url: Seq<char>,
}

/// The patterns [`Markdown::new`] compiles.
pub open spec fn standard_patterns() -> Patterns {
    Patterns {
        single_line_block: SINGLE_LINE_BLOCK@,
        block_start: BLOCK_START@,
        quote_line: QUOTE_LINE@,
        backticks: BACKTICKS@,
        destination: DESTINATION@,
        raw_url: RAW_URL@,
    }
}

/// The first of the standard patterns that does not compile, in the order
/// [`Markdown::new`] compiles them.
pub open spec fn first_refused() -> Option<Seq<char>> {
    if !regex_compiles(SINGLE_LINE_BLOCK@) {
        Some(SINGLE_LINE_BLOCK@)
    } else if !regex_compiles(BLOCK_START@) {
        Some(BLOCK_START@)
    } else if !regex_compiles(QUOTE_LINE@) {
        Some(QUOTE_LINE@)
    } else if !regex_compiles(BACKTICKS@) {
        Some(BACKTICKS@)
    } else if !regex_compiles(DESTINATION@) {
        Some(DESTINATION@)
    } else if !regex_compiles(RAW_URL@) {
        Some(RAW_URL@)
    } else {
        None
    }
}

/// A pattern of the scanner that the `regex` crate refused.
#[derive(Debug, PartialEq, Eq)]
pub struct PatternError {
    /// The pattern, as text.
    pub pattern: String,
}

/// Reusable scanner for limae's simplified Markdown protection contract.
pub struct Markdown {
    single_line_block: Pattern,
    block_start: Pattern,
    quote_line: Pattern,
    backticks: Pattern,
    destination: Pattern,
    raw_url: Pattern,
}

impl View for Markdown {
    type V = Patterns;

    closed spec fn view(&self) -> Patterns {
        Patterns {
            single_line_block: self.single_line_block@,
            block_start: self.block_start@,
            quote_line: self.quote_line@,
            backticks: self.backticks@,
            destination: self.destination@,
            raw_url: self.raw_url@,
        }
    }
}

/// Compile one pattern, telling which one failed.
fn compiled(source: &str) -> (r: Result<Pattern, PatternError>)
    ensures
        r is Ok <==> regex_compiles(source@),
        r matches Ok(p) ==> p@ == source@,
        r matches Err(e) ==> e.pattern@ == source@,
{
    match Pattern::new(source) {
        Ok(pattern) => Ok(pattern),
        Err(_) => Err(PatternError { pattern: source.to_owned() }),
    }
}

impl Markdown {
    /// Compile the scanner's patterns once for reuse across documents.
    ///
    /// Fails with the first pattern that does not compile.
    pub fn new() -> (r: Result<Markdown, PatternError>)
        ensures
            match r {
                Ok(m) => first_refused() is None && m@ == standard_patterns(),
                Err(e) => first_refused() == Some(e.pattern@),
            },
    {
        let single_line_block = match compiled(SINGLE_LINE_BLOCK) {
            Ok(p) => p,
            Err(e) => return Err(e),
        };
        let block_start = match compiled(BLOCK_START) {
            Ok(p) => p,
            Err(e) => return Err(e),
        };
        let quote_line = match compiled(QUOTE_LINE) {
            Ok(p) => p,
            Err(e) => return Err(e),
        };
        let backticks = match compiled(BACKTICKS) {
            Ok(p) => p,
            Err(e) => return Err(e),
        };
        let destination = match compiled(DESTINATION) {
            Ok(p) => p,
            Err(e) => return Err(e),
        };
        let raw_url = match compiled(RAW_URL) {
            Ok(p) => p,
            Err(e) => return Err(e),
        };
        Ok(Markdown { single_line_block, block_start, quote_line, backticks, destination, raw_url })
    }
}

/// The lines of a text, each as its characters.
pub open spec fn texts(lines: Seq<&str>) -> Seq<Seq<char>> {
    lines.map_values(|line: &str| line@)
}

/// Whether a line opens or closes a fenced code block: after its leading
/// whitespace it starts with three backticks or three tildes.
pub open spec fn fence_marker(line: Seq<char>) -> bool {
    starts_with(trim_start(line), "```"@) || starts_with(trim_start(line), "~~~"@)
}

fn is_fence_marker(line: &str) -> (r: bool)
    ensures
        r == fence_marker(line@),
{
    let s = chars_of(line);
    let k = skip_whitespace(&s, 0);
    assert(s@.skip(0) =~= s@);
    has_at(&s, k, "```") || has_at(&s, k, "~~~")
}

fn is_blank(line: &str) -> (r: bool)
    ensures
        r == all_whitespace(line@),
{
    let s = chars_of(line);
    let mut i: usize = 0;
    while i < s.len()
        invariant
            s@ == line@,
            i <= s@.len(),
            forall|k: int| 0 <= k < i ==> crate::text::python_whitespace(#[trigger] s@[k]),
        decreases s@.len() - i,
    {
        if !is_python_whitespace(s[i]) {
            return false;
        }
        i = i + 1;
    }
    true
}

/// What the walk through a text's lines meets: a blank line outside any
/// fence, or a paragraph the walk has closed, as the range of its lines.
pub enum Piece {
    Blank(int),
    Paragraph(int, int),
}

/// What closing the paragraph of lines `start..end` hands on: that
/// paragraph, unless it is empty.
pub open spec fn closed(start: int, end: int) -> Seq<Piece> {
    if start < end {
        seq![Piece::Paragraph(start, end)]
    } else {
        Seq::empty()
    }
}

/// The walk through the lines from line `i` on, with the paragraph of lines
/// `start..end` open and `in_fence` telling whether a fence is open: the
/// pieces met, in order, and the paragraph the end of the lines leaves open.
///
/// A fence marker closes the paragraph and opens or closes a fence; lines in
/// a fence are skipped; a blank line closes the paragraph; any other line
/// closes the paragraph when it starts a block, unless it continues a block
/// quote, then joins (or opens) the paragraph, which it closes again when it
/// is a block of its own.
pub open spec fn walk(p: Patterns, lines: Seq<Seq<char>>, i: int, start: int, end: int, in_fence: bool) -> (Seq<Piece>, (int, int))
    decreases lines.len() - i,
{
    if i < 0 || i >= lines.len() {
        (Seq::empty(), (start, end))
    } else {
        let line = lines[i];
        if fence_marker(line) {
            let rest = walk(p, lines, i + 1, end, end, !in_fence);
            (closed(start, end) + rest.0, rest.1)
        } else if in_fence {
            walk(p, lines, i + 1, start, end, in_fence)
        } else if all_whitespace(line) {
            let rest = walk(p, lines, i + 1, end, end, false);
            (closed(start, end) + seq![Piece::Blank(i)] + rest.0, rest.1)
        } else {
            let continues_quote = start < end && regex_is_match(p.quote_line, line) && regex_is_match(
                p.quote_line,
                lines[end - 1],
            );
            let breaks = regex_is_match(p.block_start, line) && !continues_quote;
            let first = if breaks {
                closed(start, end)
            } else {
                Seq::empty()
            };
            let s1 = if breaks {
                end
            } else {
                start
            };
            let s2 = if s1 >= end {
                i
            } else {
                s1
            };
            if regex_is_match(p.single_line_block, line) {
                let rest = walk(p, lines, i + 1, i + 1, i + 1, false);
                (first + closed(s2, i + 1) + rest.0, rest.1)
            } else {
                let rest = walk(p, lines, i + 1, s2, i + 1, false);
                (first + rest.0, rest.1)
            }
        }
    }
}

/// The walk through all the lines of a text.
pub open spec fn segments(p: Patterns, lines: Seq<Seq<char>>) -> (Seq<Piece>, (int, int)) {
    walk(p, lines, 0, 0, 0, false)
}

/// One thing [`Markdown::paragraphs`] meets on its way through the lines.
enum Segment {
    /// A line of nothing but whitespace, outside any fence.
    Blank(usize),
    /// A run of lines the rules read as one paragraph, now closed.
    Paragraph(usize, usize),
}

spec fn piece_of(segment: Segment) -> Piece {
    match segment {
        Segment::Blank(i) => Piece::Blank(i as int),
        Segment::Paragraph(start, end) => Piece::Paragraph(start as int, end as int),
    }
}

spec fn pieces_of(segments: Seq<Segment>) -> Seq<Piece> {
    segments.map_values(|segment: Segment| piece_of(segment))
}

spec fn in_bounds(segment: Segment, n: int) -> bool {
    match segment {
        Segment::Blank(i) => i < n,
        Segment::Paragraph(start, end) => start <= end <= n,
    }
}

impl Markdown {
    /// Walk the lines the way the rules segment them: each blank line and
    /// each closed paragraph, in order, and the paragraph the end of the
    /// input left open (empty when the last line closed its own paragraph,
    /// or the text ends inside a fence).
    fn paragraphs(&self, lines: &[&str]) -> (r: (Vec<Segment>, usize, usize))
        ensures
            (pieces_of(r.0@), (r.1 as int, r.2 as int)) == segments(self@, texts(lines@)),
            r.1 <= r.2 <= lines@.len(),
            forall|k: int| 0 <= k < r.0@.len() ==> in_bounds(#[trigger] r.0@[k], lines@.len() as int),
    {
        let ghost p = self@;
        let ghost t = texts(lines@);
        let mut pieces: Vec<Segment> = Vec::new();
        let mut start: usize = 0;
        let mut end: usize = 0;
        let mut in_fence = false;
        let mut i: usize = 0;
        assert(pieces_of(pieces@) + walk(p, t, 0, 0, 0, false).0 =~= walk(p, t, 0, 0, 0, false).0);
        while i < lines.len()
            invariant
                p == self@,
                t == texts(lines@),
                t.len() == lines@.len(),
                start <= end <= i <= lines@.len(),
                forall|k: int| 0 <= k < pieces@.len() ==> in_bounds(#[trigger] pieces@[k], lines@.len() as int),
                segments(p, t) == (
                    pieces_of(pieces@) + walk(p, t, i as int, start as int, end as int, in_fence).0,
                    walk(p, t, i as int, start as int, end as int, in_fence).1,
                ),
            decreases lines@.len() - i,
        {
            let line = lines[i];
            assert(t[i as int] == line@);
            let ghost before = pieces@;
            let ghost (s0, e0, f0) = (start as int, end as int, in_fence);
            if is_fence_marker(line) {
                if start < end {
                    pieces.push(Segment::Paragraph(start, end));
                }
                start = end;
                in_fence = !in_fence;
                proof {
                    assert(pieces_of(pieces@) =~= pieces_of(before) + closed(s0, e0));
                    let rest = walk(p, t, i + 1, e0, e0, !f0);
                    assert(pieces_of(pieces@) + rest.0 =~= pieces_of(before) + (closed(s0, e0) + rest.0));
                }
            } else if in_fence {
            } else if is_blank(line) {
                if start < end {
                    pieces.push(Segment::Paragraph(start, end));
                }
                start = end;
                pieces.push(Segment::Blank(i));
                proof {
                    assert(pieces_of(pieces@) =~= pieces_of(before) + closed(s0, e0) + seq![Piece::Blank(i as int)]);
                    let rest = walk(p, t, i + 1, e0, e0, false);
                    assert(pieces_of(pieces@) + rest.0 =~= pieces_of(before) + (closed(s0, e0) + seq![Piece::Blank(i as int)] + rest.0));
                }
            } else {
                let continues_quote = start < end && self.quote_line.is_match(line) && self.quote_line.is_match(
                    lines[end - 1],
                );
                proof {
                    if s0 < e0 {
                        assert(t[e0 - 1] == lines@[e0 - 1]@);
                    }
                }
                let breaks = self.block_start.is_match(line) && !continues_quote;
                if breaks {
                    if start < end {
                        pieces.push(Segment::Paragraph(start, end));
                    }
                    start = end;
                }
                let ghost first = pieces@;
                proof {
                    assert(pieces_of(first) =~= pieces_of(before) + if breaks {
                        closed(s0, e0)
                    } else {
                        Seq::empty()
                    });
                }
                if start >= end {
                    start = i;
                }
                end = i + 1;
                if self.single_line_block.is_match(line) {
                    pieces.push(Segment::Paragraph(start, end));
                    proof {
                        assert(pieces_of(pieces@) =~= pieces_of(first) + closed(start as int, end as int));
                        let rest = walk(p, t, i + 1, i + 1, i + 1, false);
                        assert(pieces_of(pieces@) + rest.0 =~= pieces_of(before) + ((if breaks {
                            closed(s0, e0)
                        } else {
                            Seq::empty()
                        }) + closed(start as int, end as int) + rest.0));
                    }
                    start = end;
                } else {
                    proof {
                        let rest = walk(p, t, i + 1, start as int, end as int, false);
                        assert(pieces_of(pieces@) + rest.0 =~= pieces_of(before) + ((if breaks {
                            closed(s0, e0)
                        } else {
                            Seq::empty()
                        }) + rest.0));
                    }
                }
            }
            i = i + 1;
        }
        proof {
            assert(pieces_of(pieces@) + walk(p, t, i as int, start as int, end as int, in_fence).0 =~= pieces_of(pieces@));
        }
        (pieces, start, end)
    }
}

/// Lines joined with line feeds.
pub open spec fn join_lines(lines: Seq<Seq<char>>) -> Seq<char>
    decreases lines.len(),
{
    if lines.len() == 0 {
        Seq::empty()
    } else if lines.len() == 1 {
        lines[0]
    } else {
        join_lines(lines.drop_last()) + seq!['\n'] + lines.last()
    }
}

/// The lines `from..to` joined with line feeds.
fn joined(lines: &[&str], from: usize, to: usize) -> (r: String)
    requires
        from <= to <= lines@.len(),
    ensures
        r@ == join_lines(texts(lines@).subrange(from as int, to as int)),
{
    let ghost t = texts(lines@);
    let mut r = String::new();
    let mut k = from;
    assert(t.subrange(from as int, from as int) =~= Seq::<Seq<char>>::empty());
    while k < to
        invariant
            t == texts(lines@),
            from <= k <= to <= lines@.len(),
            r@ == join_lines(t.subrange(from as int, k as int)),
        decreases to - k,
    {
        let ghost before = r@;
        if k > from {
            push_char(&mut r, '\n');
        }
        push_str(&mut r, lines[k]);
        proof {
            let next = t.subrange(from as int, k + 1);
            assert(next.drop_last() =~= t.subrange(from as int, k as int));
            assert(next.last() == lines@[k as int]@);
            if k == from {
                assert(before =~= Seq::<char>::empty());
                assert(r@ =~= next[0]);
            } else {
                assert(r@ =~= join_lines(next.drop_last()) + seq!['\n'] + next.last());
            }
        }
        k = k + 1;
    }
    r
}

/// Whether the last paragraph of the lines may still be inside an inline
/// code span that a later line could close: the end of the lines left a
/// paragraph open, and one of its backtick runs has no partner.
pub open spec fn open_span(p: Patterns, lines: Seq<Seq<char>>) -> bool {
    let tail = segments(p, lines).1;
    tail.0 < tail.1 && pairing(regex_find_iter(p.backticks, join_lines(lines.subrange(tail.0, tail.1))), 0).1
}

impl Markdown {
    /// Return whether the text's last paragraph may still be inside an inline
    /// code span that a line arriving later could close.
    ///
    /// The last paragraph is the one only the end of the input ended: nothing
    /// in the text (no blank line, no block start, no fence) closed it, so a
    /// later line would continue it, and a span can cross line breaks within
    /// a paragraph. The answer is whether a backtick run in that paragraph is
    /// still without a partner. `false` inside a fenced code block, and after
    /// anything that closed the paragraph.
    pub fn unclosed_span(&self, lines: &[&str]) -> (r: bool)
        ensures
            r == open_span(self@, texts(lines@)),
    {
        let (_, start, end) = self.paragraphs(lines);
        if start >= end {
            return false;
        }
        let text = joined(lines, start, end);
        let runs = self.backticks.find_iter(text.as_str());
        proof {
            assert forall|k: int| 0 <= k < runs@.len() implies (#[trigger] runs@[k]).0 <= runs@[k].1 by {
                assert(crate::pattern::well_placed(text@, ranges_of(runs@)[k]));
            }
        }
        let (_, unpaired) = pair(&runs);
        unpaired
    }
}

/// The prose spans after claiming a candidate: the candidate joins them
/// when it is free to claim.
pub open spec fn claimed(candidate: (int, int), code: Seq<(int, int)>, prose: Seq<(int, int)>) -> Seq<(int, int)> {
    if claimable(candidate, code, prose) {
        prose.push(candidate)
    } else {
        prose
    }
}

/// Claiming the parts of quotation interior `q` that lie between the code
/// interiors it wholly contains, from code interior `k` on, the current part
/// starting at byte `start`.
pub open spec fn quote_parts(q: (int, int), code: Seq<(int, int)>, k: int, start: int, prose: Seq<(int, int)>) -> Seq<(int, int)>
    decreases code.len() - k,
{
    if k < 0 || k >= code.len() {
        claimed((start, q.1), code, prose)
    } else if start <= code[k].0 && code[k].1 <= q.1 {
        quote_parts(q, code, k + 1, code[k].1, claimed((start, code[k].0), code, prose))
    } else {
        quote_parts(q, code, k + 1, start, prose)
    }
}

/// Claiming the quotation interiors from quotation `j` on.
pub open spec fn quote_claims(quotes: Seq<(int, int)>, code: Seq<(int, int)>, j: int, prose: Seq<(int, int)>) -> Seq<(int, int)>
    decreases quotes.len() - j,
{
    if j < 0 || j >= quotes.len() {
        prose
    } else {
        quote_claims(quotes, code, j + 1, quote_parts(quotes[j], code, 0, quotes[j].0, prose))
    }
}

/// Claiming the link destinations from match `j` on, each without its
/// brackets and parentheses.
pub open spec fn destination_claims(found: Seq<(int, int)>, code: Seq<(int, int)>, j: int, prose: Seq<(int, int)>) -> Seq<(int, int)>
    decreases found.len() - j,
{
    if j < 0 || j >= found.len() {
        prose
    } else {
        destination_claims(found, code, j + 1, claimed((found[j].0 + 2, found[j].1 - 1), code, prose))
    }
}

/// Whether a character is an ASCII letter or digit.
pub open spec fn ascii_alnum(c: char) -> bool {
    ('0' <= c && c <= '9') || ('a' <= c && c <= 'z') || ('A' <= c && c <= 'Z')
}

/// Whether the character that ends at byte `b` of a line is an ASCII letter
/// or digit.
pub open spec fn alnum_before(line: Seq<char>, b: int) -> bool {
    exists|k: int| 0 < k <= line.len() && #[trigger] byte_offset(line, k) == b && ascii_alnum(line[k - 1])
}

/// Punctuation that ends a sentence around a URL rather than the URL.
pub open spec fn url_trailer(c: char) -> bool {
    c == ')' || c == ']' || c == '}' || c == '>' || c == ',' || c == '.' || c == ';' || c == ':' || c == '!'
        || c == '?'
}

/// The end of characters `from..to` of a line once trailing punctuation is
/// dropped.
pub open spec fn trail_end(line: Seq<char>, from: int, to: int) -> int
    decreases to - from,
{
    if to > from && url_trailer(line[to - 1]) {
        trail_end(line, from, to - 1)
    } else {
        to
    }
}

/// Claiming the bare URLs of a line, searching from byte `offset` on.
///
/// A URL right after an ASCII letter or digit is no URL: the search goes on
/// one byte after its start. Any other is claimed without its trailing
/// punctuation, and the search goes on after it; a match that would not
/// move the search on moves it by one byte.
pub open spec fn url_claims(pattern: Seq<char>, line: Seq<char>, code: Seq<(int, int)>, offset: int, prose: Seq<(int, int)>) -> Seq<(int, int)>
    decreases byte_count(line) + 1 - offset,
{
    if offset < 0 || offset > byte_count(line) {
        prose
    } else {
        match regex_find_at(pattern, line, offset) {
            None => prose,
            Some(m) => if m.0 < offset || m.1 < m.0 || m.1 > byte_count(line) {
                prose
            } else if alnum_before(line, m.0) {
                url_claims(pattern, line, code, m.0 + 1, prose)
            } else {
                let end = byte_offset(line, trail_end(line, char_at_byte(line, m.0), char_at_byte(line, m.1)));
                url_claims(
                    pattern,
                    line,
                    code,
                    if m.1 > offset {
                        m.1
                    } else {
                        offset + 1
                    },
                    claimed((m.0, end), code, prose),
                )
            },
        }
    }
}

/// The prose spans of a line with the given code interiors, in the order
/// they are claimed: kana quotations (split around the code they contain),
/// then link destinations, then bare URLs.
pub open spec fn prose_claims(p: Patterns, line: Seq<char>, code: Seq<(int, int)>) -> Seq<(int, int)> {
    let quoted = quote_claims(quotes_from(line, code, 0), code, 0, Seq::empty());
    let linked = destination_claims(regex_find_iter(p.destination, line), code, 0, quoted);
    url_claims(p.raw_url, line, code, 0, linked)
}

/// Whether a byte range comes no later than another: by start, then by end.
pub open spec fn span_before(a: (int, int), b: (int, int)) -> bool {
    a.0 < b.0 || (a.0 == b.0 && a.1 <= b.1)
}

/// The order byte ranges are sorted in.
pub open spec fn span_order() -> spec_fn((int, int), (int, int)) -> bool {
    |a: (int, int), b: (int, int)| span_before(a, b)
}

proof fn lemma_span_order_total()
    ensures
        vstd::relations::total_ordering(span_order()),
{
    assert(vstd::relations::reflexive(span_order()));
    assert(vstd::relations::antisymmetric(span_order()));
    assert(vstd::relations::transitive(span_order()));
    assert(vstd::relations::strongly_connected(span_order()));
}

/// Sort byte ranges by start, then by end.
fn sorted_spans(v: Vec<std::ops::Range<usize>>) -> (r: Vec<std::ops::Range<usize>>)
    ensures
        spans_of(r@) == spans_of(v@).sort_by(span_order()),
{
    broadcast use vstd::seq_lib::group_to_multiset_ensures;

    let mut out: Vec<std::ops::Range<usize>> = Vec::new();
    let mut i: usize = 0;
    assert(spans_of(v@).take(0) =~= Seq::<(int, int)>::empty());
    assert(spans_of(out@) =~= Seq::<(int, int)>::empty());
    while i < v.len()
        invariant
            i <= v@.len(),
            vstd::relations::sorted_by(spans_of(out@), span_order()),
            spans_of(out@).to_multiset() == spans_of(v@).take(i as int).to_multiset(),
        decreases v@.len() - i,
    {
        let x = v[i].start..v[i].end;
        let ghost sx = span_of(x);
        let ghost before = spans_of(out@);
        let mut pos: usize = 0;
        while pos < out.len() && (out[pos].start < x.start || (out[pos].start == x.start && out[pos].end <= x.end))
            invariant
                pos <= out@.len(),
                before == spans_of(out@),
                sx == span_of(x),
                forall|k: int| 0 <= k < pos ==> span_before(#[trigger] before[k], sx),
            decreases out@.len() - pos,
        {
            assert(before[pos as int] == span_of(out@[pos as int]));
            assert(span_before(before[pos as int], sx));
            pos = pos + 1;
        }
        proof {
            if pos < out@.len() {
                assert(before[pos as int] == span_of(out@[pos as int]));
                assert(!span_before(before[pos as int], sx));
            }
        }
        out.insert(pos, x);
        proof {
            let after = spans_of(out@);
            assert(after =~= before.insert(pos as int, sx));
            assert forall|a: int, b: int| 0 <= a < b < after.len() implies #[trigger] span_order()(after[a], after[b]) by {
                if b < pos {
                    assert(span_order()(before[a], before[b]));
                } else if b == pos {
                } else if a == pos {
                    assert(span_order()(before[pos as int], before[b - 1]));
                } else if a < pos {
                    assert(span_order()(before[a], before[b - 1]));
                } else {
                    assert(span_order()(before[a - 1], before[b - 1]));
                }
            }
            assert(spans_of(v@)[i as int] == sx);
            assert(spans_of(v@).take(i + 1) =~= spans_of(v@).take(i as int).push(sx));
            vstd::seq_lib::to_multiset_insert(before, pos as int, sx);
            vstd::seq_lib::to_multiset_build(spans_of(v@).take(i as int), sx);
        }
        i = i + 1;
    }
    proof {
        assert(spans_of(v@).take(v@.len() as int) =~= spans_of(v@));
        lemma_span_order_total();
        spans_of(v@).lemma_sort_by_ensures(span_order());
        vstd::seq_lib::lemma_sorted_unique(spans_of(out@), spans_of(v@).sort_by(span_order()), span_order());
    }
    out
}

impl Markdown {
    /// The prose spans of a line with the given code interiors, sorted.
    fn prose_spans(&self, line: &str, code: &[std::ops::Range<usize>]) -> (r: Vec<std::ops::Range<usize>>)
        requires
            byte_count(line@) + 2 <= usize::MAX,
        ensures
            spans_of(r@) == prose_claims(self@, line@, spans_of(code@)).sort_by(span_order()),
    {
        let ghost c = spans_of(code@);
        let quotes = quote_spans(line, code);
        let ghost qs = spans_of(quotes@);
        let mut prose: Vec<std::ops::Range<usize>> = Vec::new();
        let mut j: usize = 0;
        assert(spans_of(prose@) =~= Seq::<(int, int)>::empty());
        while j < quotes.len()
            invariant
                c == spans_of(code@),
                qs == spans_of(quotes@),
                j <= quotes@.len(),
                quote_claims(qs, c, 0, Seq::empty()) == quote_claims(qs, c, j as int, spans_of(prose@)),
            decreases quotes@.len() - j,
        {
            let q_start = quotes[j].start;
            let q_end = quotes[j].end;
            let ghost q = qs[j as int];
            assert(q == (q_start as int, q_end as int));
            let ghost p0 = spans_of(prose@);
            let mut start = q_start;
            let mut k: usize = 0;
            while k < code.len()
                invariant
                    c == spans_of(code@),
                    q == (q_start as int, q_end as int),
                    k <= code@.len(),
                    quote_parts(q, c, 0, q_start as int, p0) == quote_parts(q, c, k as int, start as int, spans_of(prose@)),
                decreases code@.len() - k,
            {
                assert(c[k as int] == span_of(code@[k as int]));
                if start <= code[k].start && code[k].end <= q_end {
                    claim(start..code[k].start, code, &mut prose);
                    start = code[k].end;
                }
                k = k + 1;
            }
            claim(start..q_end, code, &mut prose);
            j = j + 1;
        }
        let ghost quoted = spans_of(prose@);
        let found = self.destination.find_iter(line);
        let ghost fs = ranges_of(found@);
        let mut j: usize = 0;
        while j < found.len()
            invariant
                c == spans_of(code@),
                fs == ranges_of(found@),
                fs == regex_find_iter(self@.destination, line@),
                forall|k: int| 0 <= k < found@.len() ==> well_placed(line@, #[trigger] fs[k]),
                byte_count(line@) + 2 <= usize::MAX,
                j <= found@.len(),
                destination_claims(fs, c, 0, quoted) == destination_claims(fs, c, j as int, spans_of(prose@)),
            decreases found@.len() - j,
        {
            let (s, e) = found[j];
            assert(fs[j as int] == (s as int, e as int));
            assert(well_placed(line@, fs[j as int]));
            if e >= 1 {
                claim(s + 2..e - 1, code, &mut prose);
            }
            j = j + 1;
        }
        let ghost linked = spans_of(prose@);
        let chars = chars_of(line);
        let offsets = byte_offsets(&chars);
        let len = line.len();
        let mut offset: usize = 0;
        while offset <= len
            invariant
                c == spans_of(code@),
                chars@ == line@,
                len == byte_count(line@),
                byte_count(line@) + 2 <= usize::MAX,
                offsets@.len() == chars@.len() + 1,
                forall|m: int| 0 <= m <= chars@.len() ==> #[trigger] offsets@[m] == byte_offset(chars@, m),
                offset <= len + 1,
                url_claims(self@.raw_url, line@, c, 0, linked) == url_claims(self@.raw_url, line@, c, offset as int, spans_of(prose@)),
            decreases len + 1 - offset,
        {
            match self.raw_url.find_at(line, offset) {
                None => {
                    offset = len + 1;
                },
                Some((s, e)) => {
                    let ks = position_of(&chars, &offsets, s);
                    let alnum = ks > 0 && (('0' <= chars[ks - 1] && chars[ks - 1] <= '9') || ('a' <= chars[ks - 1]
                        && chars[ks - 1] <= 'z') || ('A' <= chars[ks - 1] && chars[ks - 1] <= 'Z'));
                    proof {
                        if alnum_before(line@, s as int) {
                            let w = choose|w: int| 0 < w <= line@.len() && #[trigger] byte_offset(line@, w) == s && ascii_alnum(line@[w - 1]);
                            lemma_byte_offset_unique(chars@, w, ks as int);
                        }
                        if alnum {
                            assert(byte_offset(line@, ks as int) == s);
                        }
                    }
                    if alnum {
                        offset = s + 1;
                    } else {
                        let ke0 = position_of(&chars, &offsets, e);
                        let mut ke = ke0;
                        while ke > ks && (chars[ke - 1] == ')' || chars[ke - 1] == ']' || chars[ke - 1] == '}'
                            || chars[ke - 1] == '>' || chars[ke - 1] == ',' || chars[ke - 1] == '.' || chars[ke - 1]
                            == ';' || chars[ke - 1] == ':' || chars[ke - 1] == '!' || chars[ke - 1] == '?')
                            invariant
                                ke <= ke0 <= chars@.len(),
                                trail_end(chars@, ks as int, ke0 as int) == trail_end(chars@, ks as int, ke as int),
                            decreases ke,
                        {
                            ke = ke - 1;
                        }
                        claim(s..offsets[ke], code, &mut prose);
                        offset = if e > offset {
                            e
                        } else {
                            offset + 1
                        };
                    }
                },
            }
        }
        sorted_spans(prose)
    }
}

/// What the rules protect on one line, with byte ranges as pairs of
/// integers: the whole line, or the code interiors and prose spans of a line
/// of prose.
pub enum Protection {
    Verbatim,
    Inline(Seq<(int, int)>, Seq<(int, int)>),
}

/// The protection of a line as pairs of integers.
pub open spec fn protection_of(protection: LineProtection) -> Protection {
    match protection {
        LineProtection::Verbatim => Protection::Verbatim,
        LineProtection::Inline { code, prose } => Protection::Inline(spans_of(code@), spans_of(prose@)),
    }
}

/// The protections of lines as pairs of integers.
pub open spec fn protections_of(protections: Seq<LineProtection>) -> Seq<Protection> {
    protections.map_values(|protection: LineProtection| protection_of(protection))
}

/// How many bytes lines `from..to` take with a line feed after each.
pub open spec fn span_bytes(lines: Seq<Seq<char>>, from: int, to: int) -> int
    decreases to - from,
{
    if to <= from {
        0
    } else {
        span_bytes(lines, from, to - 1) + byte_count(lines[to - 1]) + 1
    }
}

proof fn lemma_span_bytes_split(lines: Seq<Seq<char>>, a: int, b: int, c: int)
    requires
        a <= b <= c,
    ensures
        span_bytes(lines, a, c) == span_bytes(lines, a, b) + span_bytes(lines, b, c),
        span_bytes(lines, a, b) >= 0,
    decreases c - a,
{
    if c > b {
        lemma_span_bytes_split(lines, a, b, c - 1);
    } else if b > a {
        lemma_span_bytes_split(lines, a, b - 1, b - 1);
    }
}

/// The code interiors of a joined paragraph that reach into the line at
/// bytes `start..end` of it, clipped to that line and counted from its
/// start.
pub open spec fn clip(spans: Seq<(int, int)>, start: int, end: int) -> Seq<(int, int)>
    decreases spans.len(),
{
    if spans.len() == 0 {
        Seq::empty()
    } else {
        let rest = clip(spans.drop_last(), start, end);
        let span = spans.last();
        if span.0 <= end && span.1 >= start {
            rest.push(
                (
                    (if span.0 > start {
                        span.0
                    } else {
                        start
                    }) - start,
                    (if span.1 < end {
                        span.1
                    } else {
                        end
                    }) - start,
                ),
            )
        } else {
            rest
        }
    }
}

fn clipped(spans: &Vec<std::ops::Range<usize>>, start: usize, end: usize) -> (r: Vec<std::ops::Range<usize>>)
    requires
        start <= end,
    ensures
        spans_of(r@) == clip(spans_of(spans@), start as int, end as int),
{
    let ghost all = spans_of(spans@);
    let mut r: Vec<std::ops::Range<usize>> = Vec::new();
    let mut k: usize = 0;
    assert(all.take(0) =~= Seq::<(int, int)>::empty());
    assert(spans_of(r@) =~= Seq::<(int, int)>::empty());
    while k < spans.len()
        invariant
            all == spans_of(spans@),
            start <= end,
            k <= spans@.len(),
            spans_of(r@) == clip(all.take(k as int), start as int, end as int),
        decreases spans@.len() - k,
    {
        let ghost before = r@;
        assert(all.take(k + 1).drop_last() =~= all.take(k as int));
        assert(all.take(k + 1).last() == span_of(spans@[k as int]));
        if spans[k].start <= end && spans[k].end >= start {
            let from = if spans[k].start > start {
                spans[k].start
            } else {
                start
            };
            let to = if spans[k].end < end {
                spans[k].end
            } else {
                end
            };
            r.push(from - start..to - start);
            assert(spans_of(r@) =~= spans_of(before).push(span_of(r@[before.len() as int])));
        }
        k = k + 1;
    }
    assert(all.take(spans@.len() as int) =~= all);
    r
}

/// The protection of line `i` of the paragraph of lines `start..end`: the
/// code spans the whole paragraph pairs, clipped to the line, and the prose
/// spans of the line around them, sorted.
pub open spec fn paragraph_line(p: Patterns, lines: Seq<Seq<char>>, start: int, end: int, i: int) -> Protection {
    let spans = pairing(regex_find_iter(p.backticks, join_lines(lines.subrange(start, end))), 0).0;
    let offset = span_bytes(lines, start, i);
    let code = clip(spans, offset, offset + byte_count(lines[i]));
    Protection::Inline(code, prose_claims(p, lines[i], code).sort_by(span_order()))
}

/// The protections once the paragraph of lines `start..end` is read.
pub open spec fn flushed(p: Patterns, lines: Seq<Seq<char>>, result: Seq<Protection>, start: int, end: int) -> Seq<Protection> {
    Seq::new(
        result.len(),
        |i: int|
            if start <= i < end {
                paragraph_line(p, lines, start, end, i)
            } else {
                result[i]
            },
    )
}

/// The protections once the pieces of a walk are read, in order: a blank
/// line is prose with nothing exempt, a paragraph is read as a whole.
pub open spec fn applied(p: Patterns, lines: Seq<Seq<char>>, result: Seq<Protection>, pieces: Seq<Piece>) -> Seq<Protection>
    decreases pieces.len(),
{
    if pieces.len() == 0 {
        result
    } else {
        let before = applied(p, lines, result, pieces.drop_last());
        match pieces.last() {
            Piece::Blank(i) => before.update(i, Protection::Inline(Seq::empty(), Seq::empty())),
            Piece::Paragraph(start, end) => flushed(p, lines, before, start, end),
        }
    }
}

/// The protection of every line of a text: verbatim unless the walk meets
/// it as a blank line or as part of a paragraph, the one the end of the
/// text leaves open included.
pub open spec fn protection(p: Patterns, lines: Seq<Seq<char>>) -> Seq<Protection> {
    let walked = segments(p, lines);
    flushed(
        p,
        lines,
        applied(p, lines, Seq::new(lines.len(), |i: int| Protection::Verbatim), walked.0),
        walked.1.0,
        walked.1.1,
    )
}

impl Markdown {
    /// Read the paragraph of lines `start..end`.
    fn flush(&self, lines: &[&str], result: &mut Vec<LineProtection>, start: usize, end: usize)
        requires
            start <= end <= lines@.len(),
            old(result)@.len() == lines@.len(),
            span_bytes(texts(lines@), 0, lines@.len() as int) + 2 <= usize::MAX,
        ensures
            final(result)@.len() == old(result)@.len(),
            protections_of(final(result)@) == flushed(self@, texts(lines@), protections_of(old(result)@), start as int, end as int),
            forall|m: int| 0 <= m < lines@.len() ==> ordered_protection(#[trigger] protections_of(old(result)@)[m])
                ==> ordered_protection(protections_of(final(result)@)[m]),
    {
        let ghost t = texts(lines@);
        let ghost n = lines@.len() as int;
        let ghost initial = protections_of(result@);
        let text = joined(lines, start, end);
        let runs = self.backticks.find_iter(text.as_str());
        proof {
            assert forall|k: int| 0 <= k < runs@.len() implies (#[trigger] runs@[k]).0 <= runs@[k].1 by {
                assert(well_placed(text@, ranges_of(runs@)[k]));
            }
        }
        proof {
            assert forall|k: int| 0 <= k < runs@.len() implies (#[trigger] ranges_of(runs@)[k]).0 <= ranges_of(runs@)[k].1 by {
                assert(well_placed(text@, ranges_of(runs@)[k]));
            }
            lemma_in_order_from_steps(ranges_of(runs@));
        }
        let (spans, _) = pair(&runs);
        let ghost paired = spans_of(spans@);
        let mut offset: usize = 0;
        let mut i = start;
        while i < end
            invariant
                t == texts(lines@),
                n == lines@.len(),
                t.len() == n,
                start <= i <= end <= n,
                result@.len() == n,
                initial.len() == n,
                span_bytes(t, 0, n) + 2 <= usize::MAX,
                paired == spans_of(spans@),
                paired == pairing(regex_find_iter(self@.backticks, join_lines(t.subrange(start as int, end as int))), 0).0,
                offset == span_bytes(t, start as int, i as int),
                forall|m: int| 0 <= m < n ==> #[trigger] protections_of(result@)[m] == if start <= m < i {
                    paragraph_line(self@, t, start as int, end as int, m)
                } else {
                    initial[m]
                },
            decreases end - i,
        {
            proof {
                lemma_span_bytes_split(t, start as int, i as int, i + 1);
                lemma_span_bytes_split(t, start as int, i + 1, n);
                lemma_span_bytes_split(t, 0, start as int, n);
                lemma_span_bytes_split(t, i + 1, n, n);
                assert(t[i as int] == lines@[i as int]@);
                assert(span_bytes(t, start as int, i + 1) == offset + byte_count(t[i as int]) + 1);
            }
            let width = lines[i].len();
            assert(width == byte_count(t[i as int]));
            let line_end = offset + width;
            let code = clipped(&spans, offset, line_end);
            let prose = self.prose_spans(lines[i], &code);
            let ghost before = result@;
            result.set(i, LineProtection::Inline { code, prose });
            proof {
                assert forall|m: int| 0 <= m < n implies #[trigger] protections_of(result@)[m] == if start <= m < i + 1 {
                    paragraph_line(self@, t, start as int, end as int, m)
                } else {
                    initial[m]
                } by {
                    if m != i {
                        assert(protections_of(result@)[m] == protections_of(before)[m]);
                    }
                }
            }
            offset = line_end + 1;
            i = i + 1;
        }
        proof {
            assert(protections_of(result@) =~= flushed(self@, t, initial, start as int, end as int));
            assert forall|m: int| 0 <= m < n && ordered_protection(#[trigger] initial[m]) implies ordered_protection(
                protections_of(result@)[m],
            ) by {
                if start <= m < end {
                    lemma_paragraph_line_ordered(self@, t, start as int, end as int, m);
                }
            }
        }
    }

    /// Return one protection entry per supplied line, with byte offsets
    /// relative to that exact line. No newline normalization or splitting
    /// is performed.
    ///
    /// The lines must fit in memory: their bytes, with a line feed after
    /// each, stay below `usize::MAX`.
    pub fn protect(&self, lines: &[&str]) -> (r: Vec<LineProtection>)
        requires
            span_bytes(texts(lines@), 0, lines@.len() as int) + 2 <= usize::MAX,
        ensures
            r@.len() == lines@.len(),
            protections_of(r@) == protection(self@, texts(lines@)),
            forall|i: int| 0 <= i < r@.len() ==> ordered_protection(#[trigger] protections_of(r@)[i]),
    {
        let ghost t = texts(lines@);
        let ghost n = lines@.len() as int;
        let ghost base = Seq::new(lines@.len(), |i: int| Protection::Verbatim);
        let mut result: Vec<LineProtection> = Vec::new();
        let mut i: usize = 0;
        while i < lines.len()
            invariant
                i <= lines@.len(),
                result@.len() == i,
                protections_of(result@) == Seq::new(i as nat, |m: int| Protection::Verbatim),
            decreases lines@.len() - i,
        {
            let ghost before = result@;
            result.push(LineProtection::Verbatim);
            proof {
                assert forall|m: int| 0 <= m < i + 1 implies #[trigger] protections_of(result@)[m] == Protection::Verbatim by {
                    if m < i {
                        assert(result@[m] == before[m]);
                        assert(protections_of(before)[m] == Seq::new(i as nat, |m: int| Protection::Verbatim)[m]);
                    }
                }
                assert(protections_of(result@) =~= Seq::new((i + 1) as nat, |m: int| Protection::Verbatim));
            }
            i = i + 1;
        }
        assert(protections_of(result@) =~= base);
        assert(forall|m: int| 0 <= m < n ==> ordered_protection(#[trigger] protections_of(result@)[m]));
        let (pieces, start, end) = self.paragraphs(lines);
        let ghost walked = pieces_of(pieces@);
        let mut k: usize = 0;
        assert(walked.take(0) =~= Seq::<Piece>::empty());
        while k < pieces.len()
            invariant
                t == texts(lines@),
                n == lines@.len(),
                t.len() == n,
                walked == pieces_of(pieces@),
                k <= pieces@.len(),
                result@.len() == n,
                forall|m: int| 0 <= m < pieces@.len() ==> in_bounds(#[trigger] pieces@[m], n),
                span_bytes(t, 0, n) + 2 <= usize::MAX,
                protections_of(result@) == applied(self@, t, base, walked.take(k as int)),
                forall|m: int| 0 <= m < n ==> ordered_protection(#[trigger] protections_of(result@)[m]),
            decreases pieces@.len() - k,
        {
            assert(walked.take(k + 1).drop_last() =~= walked.take(k as int));
            assert(walked.take(k + 1).last() == piece_of(pieces@[k as int]));
            assert(in_bounds(pieces@[k as int], n));
            let ghost before = result@;
            match &pieces[k] {
                Segment::Blank(line) => {
                    let code: Vec<std::ops::Range<usize>> = Vec::new();
                    let prose: Vec<std::ops::Range<usize>> = Vec::new();
                    assert(spans_of(code@) =~= Seq::<(int, int)>::empty());
                    assert(spans_of(prose@) =~= Seq::<(int, int)>::empty());
                    result.set(*line, LineProtection::Inline { code, prose });
                    proof {
                        assert(protections_of(result@) =~= protections_of(before).update(
                            *line as int,
                            Protection::Inline(Seq::empty(), Seq::empty()),
                        ));
                        assert forall|m: int| 0 <= m < n implies ordered_protection(
                            #[trigger] protections_of(result@)[m],
                        ) by {
                            if m != *line as int {
                                assert(protections_of(result@)[m] == protections_of(before)[m]);
                            }
                        }
                    }
                },
                Segment::Paragraph(from, to) => {
                    self.flush(lines, &mut result, *from, *to);
                },
            }
            k = k + 1;
        }
        assert(walked.take(pieces@.len() as int) =~= walked);
        self.flush(lines, &mut result, start, end);
        assert(protections_of(result@).len() == result@.len());
        result
    }
}

/// Whether line `i` lies inside a fence: the lines before it hold an odd
/// number of fence markers.
pub open spec fn fenced(lines: Seq<Seq<char>>, i: int) -> bool
    decreases i,
{
    if i <= 0 || i > lines.len() {
        false
    } else if fence_marker(lines[i - 1]) {
        !fenced(lines, i - 1)
    } else {
        fenced(lines, i - 1)
    }
}

/// Whether line `i` is read as Markdown: it is no fence marker and lies
/// outside every fence.
pub open spec fn outside_fences(lines: Seq<Seq<char>>, i: int) -> bool {
    !fence_marker(lines[i]) && !fenced(lines, i)
}

/// Whether a piece of the walk takes in line `m`.
spec fn covers(piece: Piece, m: int) -> bool {
    match piece {
        Piece::Blank(j) => m == j,
        Piece::Paragraph(a, b) => a <= m < b,
    }
}

/// Whether some piece takes in line `m`.
spec fn covered(pieces: Seq<Piece>, m: int) -> bool {
    exists|j: int| 0 <= j < pieces.len() && covers(#[trigger] pieces[j], m)
}

/// Whether a piece names lines of a text of `n` lines.
spec fn placed(piece: Piece, n: int) -> bool {
    match piece {
        Piece::Blank(j) => 0 <= j < n,
        Piece::Paragraph(a, b) => 0 <= a <= b <= n,
    }
}

proof fn lemma_covered_concat(a: Seq<Piece>, b: Seq<Piece>, m: int)
    ensures
        covered(a + b, m) == (covered(a, m) || covered(b, m)),
{
    if covered(a + b, m) {
        let j = choose|j: int| 0 <= j < (a + b).len() && covers(#[trigger] (a + b)[j], m);
        if j < a.len() {
            assert(covers(a[j], m));
        } else {
            assert(covers(b[j - a.len()], m));
        }
    }
    if covered(a, m) {
        let j = choose|j: int| 0 <= j < a.len() && covers(#[trigger] a[j], m);
        assert(covers((a + b)[j], m));
    }
    if covered(b, m) {
        let j = choose|j: int| 0 <= j < b.len() && covers(#[trigger] b[j], m);
        assert(covers((a + b)[j + a.len()], m));
    }
}

proof fn lemma_placed_concat(a: Seq<Piece>, b: Seq<Piece>, n: int)
    requires
        forall|j: int| 0 <= j < a.len() ==> placed(#[trigger] a[j], n),
        forall|j: int| 0 <= j < b.len() ==> placed(#[trigger] b[j], n),
    ensures
        forall|j: int| 0 <= j < (a + b).len() ==> placed(#[trigger] (a + b)[j], n),
{
    assert forall|j: int| 0 <= j < (a + b).len() implies placed(#[trigger] (a + b)[j], n) by {
        if j < a.len() {
            assert((a + b)[j] == a[j]);
        } else {
            assert((a + b)[j] == b[j - a.len()]);
        }
    }
}

/// What the walk from line `k` on meets lies outside the fences, when the
/// open paragraph does and the walk knows whether it is in a fence.
proof fn lemma_walk_outside(p: Patterns, lines: Seq<Seq<char>>, k: int, s: int, e: int, f: bool)
    requires
        0 <= s <= e <= k <= lines.len(),
        f == fenced(lines, k),
        f ==> s == e,
        s < e ==> e == k,
        forall|m: int| s <= m < e ==> outside_fences(lines, m),
    ensures
        forall|m: int| covered(walk(p, lines, k, s, e, f).0, m) ==> 0 <= m < lines.len() && outside_fences(lines, m),
        forall|j: int| 0 <= j < walk(p, lines, k, s, e, f).0.len() ==> placed(#[trigger] walk(p, lines, k, s, e, f).0[j], lines.len() as int),
        0 <= walk(p, lines, k, s, e, f).1.0 <= walk(p, lines, k, s, e, f).1.1 <= lines.len(),
        forall|m: int| walk(p, lines, k, s, e, f).1.0 <= m < walk(p, lines, k, s, e, f).1.1 ==> outside_fences(lines, m),
    decreases lines.len() - k,
{
    let n = lines.len() as int;
    let w = walk(p, lines, k, s, e, f);
    if k < lines.len() {
        let line = lines[k];
        assert forall|m: int| covered(closed(s, e), m) implies 0 <= m < n && outside_fences(lines, m) by {
            let j = choose|j: int| 0 <= j < closed(s, e).len() && covers(#[trigger] closed(s, e)[j], m);
        }
        assert(forall|j: int| 0 <= j < closed(s, e).len() ==> placed(#[trigger] closed(s, e)[j], n));
        if fence_marker(line) {
            lemma_walk_outside(p, lines, k + 1, e, e, !f);
            let rest = walk(p, lines, k + 1, e, e, !f);
            assert forall|m: int| covered(w.0, m) implies 0 <= m < n && outside_fences(lines, m) by {
                lemma_covered_concat(closed(s, e), rest.0, m);
            }
            lemma_placed_concat(closed(s, e), rest.0, n);
        } else if f {
            lemma_walk_outside(p, lines, k + 1, s, e, f);
        } else if crate::text::all_whitespace(line) {
            lemma_walk_outside(p, lines, k + 1, e, e, false);
            let rest = walk(p, lines, k + 1, e, e, false);
            let blank = seq![Piece::Blank(k)];
            assert forall|m: int| covered(blank, m) implies 0 <= m < n && outside_fences(lines, m) by {
                let j = choose|j: int| 0 <= j < blank.len() && covers(#[trigger] blank[j], m);
            }
            assert(forall|j: int| 0 <= j < blank.len() ==> placed(#[trigger] blank[j], n));
            assert forall|m: int| covered(w.0, m) implies 0 <= m < n && outside_fences(lines, m) by {
                lemma_covered_concat(closed(s, e) + blank, rest.0, m);
                lemma_covered_concat(closed(s, e), blank, m);
            }
            lemma_placed_concat(closed(s, e), blank, n);
            lemma_placed_concat(closed(s, e) + blank, rest.0, n);
        } else {
            let continues_quote = s < e && regex_is_match(p.quote_line, line) && regex_is_match(
                p.quote_line,
                lines[e - 1],
            );
            let breaks = regex_is_match(p.block_start, line) && !continues_quote;
            let first = if breaks {
                closed(s, e)
            } else {
                Seq::empty()
            };
            let s1 = if breaks {
                e
            } else {
                s
            };
            let s2 = if s1 >= e {
                k
            } else {
                s1
            };
            assert forall|m: int| covered(first, m) implies 0 <= m < n && outside_fences(lines, m) by {
                if breaks {
                } else {
                    let j = choose|j: int| 0 <= j < first.len() && covers(#[trigger] first[j], m);
                }
            }
            assert(forall|j: int| 0 <= j < first.len() ==> placed(#[trigger] first[j], n));
            assert(forall|m: int| s2 <= m < k + 1 ==> outside_fences(lines, m));
            if regex_is_match(p.single_line_block, line) {
                lemma_walk_outside(p, lines, k + 1, k + 1, k + 1, false);
                let rest = walk(p, lines, k + 1, k + 1, k + 1, false);
                let own = closed(s2, k + 1);
                assert forall|m: int| covered(own, m) implies 0 <= m < n && outside_fences(lines, m) by {
                    let j = choose|j: int| 0 <= j < own.len() && covers(#[trigger] own[j], m);
                }
                assert(forall|j: int| 0 <= j < own.len() ==> placed(#[trigger] own[j], n));
                assert forall|m: int| covered(w.0, m) implies 0 <= m < n && outside_fences(lines, m) by {
                    lemma_covered_concat(first + own, rest.0, m);
                    lemma_covered_concat(first, own, m);
                }
                lemma_placed_concat(first, own, n);
                lemma_placed_concat(first + own, rest.0, n);
            } else {
                lemma_walk_outside(p, lines, k + 1, s2, k + 1, false);
                let rest = walk(p, lines, k + 1, s2, k + 1, false);
                assert forall|m: int| covered(w.0, m) implies 0 <= m < n && outside_fences(lines, m) by {
                    lemma_covered_concat(first, rest.0, m);
                }
                lemma_placed_concat(first, rest.0, n);
            }
        }
    }
}

/// Reading pieces leaves alone every line none of them takes in.
proof fn lemma_applied_untouched(p: Patterns, lines: Seq<Seq<char>>, result: Seq<Protection>, pieces: Seq<Piece>, m: int)
    requires
        0 <= m < result.len(),
        !covered(pieces, m),
        forall|j: int| 0 <= j < pieces.len() ==> placed(#[trigger] pieces[j], result.len() as int),
    ensures
        applied(p, lines, result, pieces).len() == result.len(),
        applied(p, lines, result, pieces)[m] == result[m],
    decreases pieces.len(),
{
    if pieces.len() > 0 {
        let init = pieces.drop_last();
        assert(pieces.last() == pieces[pieces.len() - 1]);
        assert(placed(pieces.last(), result.len() as int));
        assert(!covers(pieces.last(), m));
        assert(!covered(init, m)) by {
            if covered(init, m) {
                let j = choose|j: int| 0 <= j < init.len() && covers(#[trigger] init[j], m);
                assert(covers(pieces[j], m));
            }
        }
        assert forall|j: int| 0 <= j < init.len() implies placed(#[trigger] init[j], result.len() as int) by {
            assert(init[j] == pieces[j]);
        }
        lemma_applied_untouched(p, lines, result, init, m);
    }
}

/// A fence marker, and every line inside a fence, is protected verbatim.
pub proof fn law_fences_are_verbatim(p: Patterns, lines: Seq<Seq<char>>, i: int)
    requires
        0 <= i < lines.len(),
        !outside_fences(lines, i),
    ensures
        protection(p, lines).len() == lines.len(),
        protection(p, lines)[i] == Protection::Verbatim,
{
    lemma_walk_outside(p, lines, 0, 0, 0, false);
    let w = segments(p, lines);
    let base = Seq::new(lines.len(), |k: int| Protection::Verbatim);
    lemma_applied_untouched(p, lines, base, w.0, i);
}

/// The walk from line `k` on takes in, in a piece or in the paragraph it
/// leaves open, every line of the open paragraph and every later line read
/// as Markdown.
proof fn lemma_walk_covers(p: Patterns, lines: Seq<Seq<char>>, k: int, s: int, e: int, f: bool, m: int)
    requires
        0 <= s <= e <= k <= lines.len(),
        f == fenced(lines, k),
        f ==> s == e,
        (s <= m < e) || (k <= m < lines.len() && outside_fences(lines, m)),
    ensures
        covered(walk(p, lines, k, s, e, f).0, m) || (walk(p, lines, k, s, e, f).1.0 <= m < walk(
            p,
            lines,
            k,
            s,
            e,
            f,
        ).1.1),
    decreases lines.len() - k,
{
    if k < lines.len() {
        let line = lines[k];
        if s <= m < e {
            assert(covers(closed(s, e)[0], m));
        }
        if fence_marker(line) {
            let rest = walk(p, lines, k + 1, e, e, !f);
            lemma_covered_concat(closed(s, e), rest.0, m);
            if !(s <= m < e) {
                assert(m != k);
                lemma_walk_covers(p, lines, k + 1, e, e, !f, m);
            }
        } else if f {
            assert(m != k);
            lemma_walk_covers(p, lines, k + 1, s, e, f, m);
        } else if crate::text::all_whitespace(line) {
            let rest = walk(p, lines, k + 1, e, e, false);
            let blank = seq![Piece::Blank(k)];
            lemma_covered_concat(closed(s, e) + blank, rest.0, m);
            lemma_covered_concat(closed(s, e), blank, m);
            if m == k {
                assert(covers(blank[0], m));
            } else if !(s <= m < e) {
                lemma_walk_covers(p, lines, k + 1, e, e, false, m);
            }
        } else {
            let continues_quote = s < e && regex_is_match(p.quote_line, line) && regex_is_match(
                p.quote_line,
                lines[e - 1],
            );
            let breaks = regex_is_match(p.block_start, line) && !continues_quote;
            let first = if breaks {
                closed(s, e)
            } else {
                Seq::empty()
            };
            let s1 = if breaks {
                e
            } else {
                s
            };
            let s2 = if s1 >= e {
                k
            } else {
                s1
            };
            if regex_is_match(p.single_line_block, line) {
                let rest = walk(p, lines, k + 1, k + 1, k + 1, false);
                let own = closed(s2, k + 1);
                lemma_covered_concat(first + own, rest.0, m);
                lemma_covered_concat(first, own, m);
                if s2 <= m < k + 1 {
                    assert(covers(own[0], m));
                } else if !(s <= m < e) {
                    lemma_walk_covers(p, lines, k + 1, k + 1, k + 1, false, m);
                }
            } else {
                let rest = walk(p, lines, k + 1, s2, k + 1, false);
                lemma_covered_concat(first, rest.0, m);
                if breaks && s <= m < e {
                } else {
                    lemma_walk_covers(p, lines, k + 1, s2, k + 1, false, m);
                }
            }
        }
    }
}

/// Reading pieces keeps a line that is prose prose, and makes prose of a
/// line some piece takes in.
proof fn lemma_applied_inline(p: Patterns, lines: Seq<Seq<char>>, result: Seq<Protection>, pieces: Seq<Piece>, m: int)
    requires
        0 <= m < result.len(),
        covered(pieces, m) || result[m] is Inline,
        forall|j: int| 0 <= j < pieces.len() ==> placed(#[trigger] pieces[j], result.len() as int),
    ensures
        applied(p, lines, result, pieces).len() == result.len(),
        applied(p, lines, result, pieces)[m] is Inline,
    decreases pieces.len(),
{
    if pieces.len() == 0 {
        if covered(pieces, m) {
            let j = choose|j: int| 0 <= j < pieces.len() && covers(#[trigger] pieces[j], m);
        }
    } else {
        let init = pieces.drop_last();
        let last = pieces.last();
        assert(last == pieces[pieces.len() - 1]);
        assert(placed(last, result.len() as int));
        assert forall|j: int| 0 <= j < init.len() implies placed(#[trigger] init[j], result.len() as int) by {
            assert(init[j] == pieces[j]);
        }
        if covers(last, m) {
            lemma_length_applied(p, lines, result, init);
        } else {
            if covered(pieces, m) {
                let j = choose|j: int| 0 <= j < pieces.len() && covers(#[trigger] pieces[j], m);
                assert(j < init.len());
                assert(covers(init[j], m));
            }
            lemma_applied_inline(p, lines, result, init, m);
        }
    }
}

proof fn lemma_length_applied(p: Patterns, lines: Seq<Seq<char>>, result: Seq<Protection>, pieces: Seq<Piece>)
    requires
        forall|j: int| 0 <= j < pieces.len() ==> placed(#[trigger] pieces[j], result.len() as int),
    ensures
        applied(p, lines, result, pieces).len() == result.len(),
    decreases pieces.len(),
{
    if pieces.len() > 0 {
        let init = pieces.drop_last();
        assert(pieces.last() == pieces[pieces.len() - 1]);
        assert(placed(pieces.last(), result.len() as int));
        assert forall|j: int| 0 <= j < init.len() implies placed(#[trigger] init[j], result.len() as int) by {
            assert(init[j] == pieces[j]);
        }
        lemma_length_applied(p, lines, result, init);
    }
}

/// Every line read as Markdown, outside the fences, is protected as prose.
pub proof fn law_prose_lines_are_inline(p: Patterns, lines: Seq<Seq<char>>, i: int)
    requires
        0 <= i < lines.len(),
        outside_fences(lines, i),
    ensures
        protection(p, lines).len() == lines.len(),
        protection(p, lines)[i] is Inline,
{
    lemma_walk_outside(p, lines, 0, 0, 0, false);
    lemma_walk_covers(p, lines, 0, 0, 0, false, i);
    let w = segments(p, lines);
    let base = Seq::new(lines.len(), |k: int| Protection::Verbatim);
    lemma_length_applied(p, lines, base, w.0);
    if covered(w.0, i) {
        lemma_applied_inline(p, lines, base, w.0, i);
    }
}

/// Spans that are each non-empty and that pairwise do not overlap.
pub open spec fn apart(spans: Seq<(int, int)>) -> bool {
    &&& forall|i: int| 0 <= i < spans.len() ==> (#[trigger] spans[i]).0 < spans[i].1
    &&& forall|i: int, j: int|
        0 <= i < spans.len() && 0 <= j < spans.len() && i != j ==> !overlaps(#[trigger] spans[i], #[trigger] spans[j])
}

proof fn lemma_claimed_apart(candidate: (int, int), code: Seq<(int, int)>, prose: Seq<(int, int)>)
    requires
        apart(prose),
    ensures
        apart(claimed(candidate, code, prose)),
{
    if claimable(candidate, code, prose) {
        let r = prose.push(candidate);
        assert forall|i: int, j: int| 0 <= i < r.len() && 0 <= j < r.len() && i != j implies !overlaps(
            #[trigger] r[i],
            #[trigger] r[j],
        ) by {
            if i == prose.len() {
                assert(!overlaps(candidate, prose[j]));
            } else if j == prose.len() {
                assert(!overlaps(candidate, prose[i]));
            } else {
                assert(r[i] == prose[i] && r[j] == prose[j]);
            }
        }
        assert forall|i: int| 0 <= i < r.len() implies (#[trigger] r[i]).0 < r[i].1 by {
            if i < prose.len() {
                assert(r[i] == prose[i]);
            }
        }
    }
}

proof fn lemma_quote_parts_apart(q: (int, int), code: Seq<(int, int)>, k: int, start: int, prose: Seq<(int, int)>)
    requires
        apart(prose),
    ensures
        apart(quote_parts(q, code, k, start, prose)),
    decreases code.len() - k,
{
    if k < 0 || k >= code.len() {
        lemma_claimed_apart((start, q.1), code, prose);
    } else if start <= code[k].0 && code[k].1 <= q.1 {
        lemma_claimed_apart((start, code[k].0), code, prose);
        lemma_quote_parts_apart(q, code, k + 1, code[k].1, claimed((start, code[k].0), code, prose));
    } else {
        lemma_quote_parts_apart(q, code, k + 1, start, prose);
    }
}

proof fn lemma_quote_claims_apart(quotes: Seq<(int, int)>, code: Seq<(int, int)>, j: int, prose: Seq<(int, int)>)
    requires
        apart(prose),
    ensures
        apart(quote_claims(quotes, code, j, prose)),
    decreases quotes.len() - j,
{
    if 0 <= j < quotes.len() {
        lemma_quote_parts_apart(quotes[j], code, 0, quotes[j].0, prose);
        lemma_quote_claims_apart(quotes, code, j + 1, quote_parts(quotes[j], code, 0, quotes[j].0, prose));
    }
}

proof fn lemma_destination_claims_apart(found: Seq<(int, int)>, code: Seq<(int, int)>, j: int, prose: Seq<(int, int)>)
    requires
        apart(prose),
    ensures
        apart(destination_claims(found, code, j, prose)),
    decreases found.len() - j,
{
    if 0 <= j < found.len() {
        let c = (found[j].0 + 2, found[j].1 - 1);
        lemma_claimed_apart(c, code, prose);
        lemma_destination_claims_apart(found, code, j + 1, claimed(c, code, prose));
    }
}

proof fn lemma_url_claims_apart(pattern: Seq<char>, line: Seq<char>, code: Seq<(int, int)>, offset: int, prose: Seq<(int, int)>)
    requires
        apart(prose),
    ensures
        apart(url_claims(pattern, line, code, offset, prose)),
    decreases byte_count(line) + 1 - offset,
{
    if 0 <= offset <= byte_count(line) {
        match regex_find_at(pattern, line, offset) {
            None => {},
            Some(m) => {
                if m.0 < offset || m.1 < m.0 || m.1 > byte_count(line) {
                } else if alnum_before(line, m.0) {
                    lemma_url_claims_apart(pattern, line, code, m.0 + 1, prose);
                } else {
                    let end = byte_offset(line, trail_end(line, char_at_byte(line, m.0), char_at_byte(line, m.1)));
                    lemma_claimed_apart((m.0, end), code, prose);
                    lemma_url_claims_apart(
                        pattern,
                        line,
                        code,
                        if m.1 > offset {
                            m.1
                        } else {
                            offset + 1
                        },
                        claimed((m.0, end), code, prose),
                    );
                }
            },
        }
    }
}

proof fn lemma_trail_end(line: Seq<char>, from: int, to: int)
    ensures
        trail_end(line, from, to) <= from || !url_trailer(line[trail_end(line, from, to) - 1]),
    decreases to - from,
{
    if to > from && url_trailer(line[to - 1]) {
        lemma_trail_end(line, from, to - 1);
    }
}

/// Whether a span of a line ends just after a character that is no
/// punctuation closing a sentence, or no later than the character it starts
/// at.
spec fn ends_on_url_text(line: Seq<char>, span: (int, int)) -> bool {
    exists|k: int|
        #[trigger] byte_offset(line, k) == span.1 && (k <= char_at_byte(line, span.0) || !(line[k - 1] == ')'
            || line[k - 1] == ']' || line[k - 1] == '}' || line[k - 1] == '>' || line[k - 1] == ','
            || line[k - 1] == '.' || line[k - 1] == ';' || line[k - 1] == ':' || line[k - 1] == '!'
            || line[k - 1] == '?'))
}

proof fn lemma_url_claims_trimmed(pattern: Seq<char>, line: Seq<char>, code: Seq<(int, int)>, offset: int, prose: Seq<(int, int)>)
    ensures
        url_claims(pattern, line, code, offset, prose).len() >= prose.len(),
        url_claims(pattern, line, code, offset, prose).take(prose.len() as int) == prose,
        forall|j: int|
            prose.len() <= j < url_claims(pattern, line, code, offset, prose).len() ==> ends_on_url_text(
                line,
                #[trigger] url_claims(pattern, line, code, offset, prose)[j],
            ),
    decreases byte_count(line) + 1 - offset,
{
    let r = url_claims(pattern, line, code, offset, prose);
    if 0 <= offset <= byte_count(line) {
        match regex_find_at(pattern, line, offset) {
            None => {
                assert(r.take(prose.len() as int) =~= prose);
            },
            Some(m) => {
                if m.0 < offset || m.1 < m.0 || m.1 > byte_count(line) {
                    assert(r.take(prose.len() as int) =~= prose);
                } else if alnum_before(line, m.0) {
                    lemma_url_claims_trimmed(pattern, line, code, m.0 + 1, prose);
                } else {
                    let from = char_at_byte(line, m.0);
                    let t = trail_end(line, from, char_at_byte(line, m.1));
                    let end = byte_offset(line, t);
                    lemma_trail_end(line, from, char_at_byte(line, m.1));
                    let next = if m.1 > offset {
                        m.1
                    } else {
                        offset + 1
                    };
                    let after = claimed((m.0, end), code, prose);
                    lemma_url_claims_trimmed(pattern, line, code, next, after);
                    assert(ends_on_url_text(line, (m.0, end)));
                    if claimable((m.0, end), code, prose) {
                        assert(after.take(prose.len() as int) =~= prose);
                        assert(after[prose.len() as int] == (m.0, end));
                        assert(r.take(prose.len() as int) =~= after.take(after.len() as int).take(prose.len() as int));
                        assert(r[prose.len() as int] == after[prose.len() as int]);
                    } else {
                        assert(after =~= prose);
                    }
                    assert(r.take(prose.len() as int) =~= prose);
                }
            },
        }
    } else {
        assert(r.take(prose.len() as int) =~= prose);
    }
}

/// A bare URL is exempt without the punctuation that follows it: every span
/// the bare-URL stage claims as prose, after the quotations and link
/// destinations, ends just after a character that is none of `) ] } > , . ;
/// : ! ?`, or holds no character at all (it ends no later than it starts).
pub proof fn law_bare_urls_leave_trailing_punctuation(p: Patterns, line: Seq<char>, code: Seq<(int, int)>)
    ensures
        ({
            let quoted = quote_claims(quotes_from(line, code, 0), code, 0, Seq::empty());
            let linked = destination_claims(regex_find_iter(p.destination, line), code, 0, quoted);
            let claims = prose_claims(p, line, code);
            &&& claims.take(linked.len() as int) == linked
            &&& forall|j: int|
                #![trigger claims[j]]
                linked.len() <= j < claims.len() ==> exists|k: int|
                    #[trigger] byte_offset(line, k) == claims[j].1 && (k <= char_at_byte(line, claims[j].0) || !(
                    line[k - 1] == ')' || line[k - 1] == ']' || line[k - 1] == '}' || line[k - 1] == '>'
                        || line[k - 1] == ',' || line[k - 1] == '.' || line[k - 1] == ';' || line[k - 1] == ':'
                        || line[k - 1] == '!' || line[k - 1] == '?'))
        }),
{
    let quoted = quote_claims(quotes_from(line, code, 0), code, 0, Seq::empty());
    let linked = destination_claims(regex_find_iter(p.destination, line), code, 0, quoted);
    lemma_url_claims_trimmed(p.raw_url, line, code, 0, linked);
    let claims = prose_claims(p, line, code);
    assert forall|j: int| #![trigger claims[j]] linked.len() <= j < claims.len() implies exists|k: int|
        #[trigger] byte_offset(line, k) == claims[j].1 && (k <= char_at_byte(line, claims[j].0) || !(line[k
            - 1] == ')' || line[k - 1] == ']' || line[k - 1] == '}' || line[k - 1] == '>' || line[k - 1] == ','
            || line[k - 1] == '.' || line[k - 1] == ';' || line[k - 1] == ':' || line[k - 1] == '!' || line[k
            - 1] == '?')) by {
        assert(ends_on_url_text(line, claims[j]));
    }
}

/// The prose spans of a line, as [`Markdown::protect`] reports them, are
/// sorted, non-empty and disjoint: each ends before the next begins.
pub proof fn law_prose_spans_are_disjoint(p: Patterns, line: Seq<char>, code: Seq<(int, int)>)
    ensures
        forall|i: int|
            0 <= i < prose_claims(p, line, code).sort_by(span_order()).len() ==> (#[trigger] prose_claims(
                p,
                line,
                code,
            ).sort_by(span_order())[i]).0 < prose_claims(p, line, code).sort_by(span_order())[i].1,
        forall|i: int, j: int|
            0 <= i < j < prose_claims(p, line, code).sort_by(span_order()).len() ==> (#[trigger] prose_claims(
                p,
                line,
                code,
            ).sort_by(span_order())[i]).1 <= (#[trigger] prose_claims(p, line, code).sort_by(span_order())[j]).0,
{
    broadcast use vstd::seq_lib::group_to_multiset_ensures;

    let c = prose_claims(p, line, code);
    let quoted = quote_claims(quotes_from(line, code, 0), code, 0, Seq::empty());
    let linked = destination_claims(regex_find_iter(p.destination, line), code, 0, quoted);
    lemma_quote_claims_apart(quotes_from(line, code, 0), code, 0, Seq::empty());
    lemma_destination_claims_apart(regex_find_iter(p.destination, line), code, 0, quoted);
    lemma_url_claims_apart(p.raw_url, line, code, 0, linked);
    assert(apart(c));
    lemma_span_order_total();
    c.lemma_sort_by_ensures(span_order());
    let r = c.sort_by(span_order());
    assert(c.no_duplicates()) by {
        assert forall|i: int, j: int| 0 <= i < c.len() && 0 <= j < c.len() && i != j implies c[i] != c[j] by {
            assert(!overlaps(c[i], c[j]));
            assert(c[i].0 < c[i].1);
        }
    }
    c.lemma_multiset_has_no_duplicates();
    assert forall|x: (int, int)| r.to_multiset().contains(x) implies r.to_multiset().count(x) == 1 by {
        assert(c.to_multiset().contains(x));
    }
    r.lemma_multiset_has_no_duplicates_conv();
    assert forall|i: int| 0 <= i < r.len() implies (#[trigger] r[i]).0 < r[i].1 && exists|a: int| 0 <= a < c.len() && c[a] == r[i] by {
        assert(r.to_multiset().contains(r[i]));
        assert(c.contains(r[i]));
    }
    assert forall|i: int, j: int| 0 <= i < j < r.len() implies (#[trigger] r[i]).1 <= (#[trigger] r[j]).0 by {
        assert(r.to_multiset().contains(r[i]));
        assert(r.to_multiset().contains(r[j]));
        assert(c.contains(r[i]));
        assert(c.contains(r[j]));
        let a = choose|a: int| 0 <= a < c.len() && c[a] == r[i];
        let b = choose|b: int| 0 <= b < c.len() && c[b] == r[j];
        assert(r[i] != r[j]);
        assert(a != b);
        assert(!overlaps(c[a], c[b]));
        assert(span_order()(r[i], r[j]));
    }
}

/// Byte ranges in order: each starts no later than it ends, and ends no
/// later than the next begins.
pub open spec fn in_order(spans: Seq<(int, int)>) -> bool {
    &&& forall|i: int| 0 <= i < spans.len() ==> (#[trigger] spans[i]).0 <= spans[i].1
    &&& forall|i: int, j: int| 0 <= i < j < spans.len() ==> (#[trigger] spans[i]).1 <= (#[trigger] spans[j]).0
}

proof fn lemma_in_order_from_steps(s: Seq<(int, int)>)
    requires
        forall|k: int| 0 <= k < s.len() ==> (#[trigger] s[k]).0 <= s[k].1,
        forall|k: int| 0 < k < s.len() ==> s[k - 1].1 <= (#[trigger] s[k]).0,
    ensures
        in_order(s),
    decreases s.len(),
{
    if s.len() > 0 {
        let init = s.drop_last();
        assert forall|k: int| 0 < k < init.len() implies init[k - 1].1 <= (#[trigger] init[k]).0 by {
            assert(init[k - 1] == s[k - 1] && init[k] == s[k]);
        }
        lemma_in_order_from_steps(init);
        assert forall|i: int, j: int| 0 <= i < j < s.len() implies (#[trigger] s[i]).1 <= (#[trigger] s[j]).0 by {
            if j < s.len() - 1 {
                assert(init[i] == s[i] && init[j] == s[j]);
            } else if i < j - 1 {
                assert(init[i] == s[i] && init[j - 1] == s[j - 1]);
                assert(s[i].1 <= s[j - 1].0);
            }
        }
    }
}

/// Pairing runs that are in order gives code interiors in order, none of
/// them starting before run `i` does.
proof fn lemma_pairing_in_order(runs: Seq<(int, int)>, i: int)
    requires
        in_order(runs),
        0 <= i,
    ensures
        in_order(pairing(runs, i).0),
        i < runs.len() ==> forall|k: int| 0 <= k < pairing(runs, i).0.len() ==> (#[trigger] pairing(runs, i).0[k]).0 >= runs[i].0,
    decreases runs.len() - i,
{
    if i < runs.len() {
        match partner_from(runs, i, i + 1) {
            Some(j) => if i < j < runs.len() {
                lemma_pairing_in_order(runs, j + 1);
                let rest = pairing(runs, j + 1).0;
                let first = (runs[i].1, runs[j].0);
                let all = seq![first] + rest;
                assert(runs[i].1 <= runs[j].0);
                assert forall|a: int, b: int| 0 <= a < b < all.len() implies (#[trigger] all[a]).1 <= (#[trigger] all[b]).0 by {
                    if a == 0 {
                        assert(all[b] == rest[b - 1]);
                        assert(runs[j].0 <= runs[j].1);
                        assert(runs[j].1 <= runs[j + 1].0);
                    } else {
                        assert(all[a] == rest[a - 1] && all[b] == rest[b - 1]);
                    }
                }
                assert forall|a: int| 0 <= a < all.len() implies (#[trigger] all[a]).0 <= all[a].1 by {
                    if a > 0 {
                        assert(all[a] == rest[a - 1]);
                    }
                }
                assert forall|k: int| 0 <= k < all.len() implies (#[trigger] all[k]).0 >= runs[i].0 by {
                    if k > 0 {
                        assert(all[k] == rest[k - 1]);
                        assert(runs[i].1 <= runs[j + 1].0);
                    }
                }
            },
            None => {
                lemma_pairing_in_order(runs, i + 1);
                if i + 1 < runs.len() {
                    assert(runs[i].1 <= runs[i + 1].0);
                }
            },
        }
    }
}

/// Clipping code interiors in order to a line keeps them in order.
proof fn lemma_clip_in_order(spans: Seq<(int, int)>, start: int, end: int, bound: int)
    requires
        in_order(spans),
        start <= end,
        forall|m: int| 0 <= m < spans.len() ==> (#[trigger] spans[m]).1 <= bound,
    ensures
        in_order(clip(spans, start, end)),
        forall|k: int| 0 <= k < clip(spans, start, end).len() ==> (#[trigger] clip(spans, start, end)[k]).1 <= (if bound
            < end {
            bound
        } else {
            end
        }) - start,
    decreases spans.len(),
{
    if spans.len() > 0 {
        let init = spans.drop_last();
        let last = spans.last();
        assert(last == spans[spans.len() - 1]);
        assert forall|m: int| 0 <= m < init.len() implies (#[trigger] init[m]).1 <= last.0 by {
            assert(init[m] == spans[m]);
        }
        assert(in_order(init)) by {
            assert forall|a: int, b: int| 0 <= a < b < init.len() implies (#[trigger] init[a]).1 <= (#[trigger] init[b]).0 by {
                assert(init[a] == spans[a] && init[b] == spans[b]);
            }
            assert forall|a: int| 0 <= a < init.len() implies (#[trigger] init[a]).0 <= init[a].1 by {
                assert(init[a] == spans[a]);
            }
        }
        lemma_clip_in_order(init, start, end, last.0);
        let rest = clip(init, start, end);
        assert(spans.last().1 <= bound);
        if last.0 <= end && last.1 >= start {
            let r = clip(spans, start, end);
            assert(r == rest.push(
                (
                    (if last.0 > start {
                        last.0
                    } else {
                        start
                    }) - start,
                    (if last.1 < end {
                        last.1
                    } else {
                        end
                    }) - start,
                ),
            ));
            assert forall|a: int, b: int| 0 <= a < b < r.len() implies (#[trigger] r[a]).1 <= (#[trigger] r[b]).0 by {
                assert(r[a] == rest[a]);
                if b < rest.len() {
                    assert(r[b] == rest[b]);
                }
            }
            assert forall|a: int| 0 <= a < r.len() implies (#[trigger] r[a]).0 <= r[a].1 by {
                if a < rest.len() {
                    assert(r[a] == rest[a]);
                }
            }
            assert forall|k: int| 0 <= k < r.len() implies (#[trigger] r[k]).1 <= (if bound < end {
                bound
            } else {
                end
            }) - start by {
                if k < rest.len() {
                    assert(r[k] == rest[k]);
                }
            }
        }
    }
}

proof fn lemma_clip_ordered(spans: Seq<(int, int)>, start: int, end: int)
    requires
        in_order(spans),
        start <= end,
    ensures
        in_order(clip(spans, start, end)),
{
    let bound = if spans.len() == 0 {
        0
    } else {
        spans.last().1
    };
    assert forall|m: int| 0 <= m < spans.len() implies (#[trigger] spans[m]).1 <= bound by {
        assert(spans.last() == spans[spans.len() - 1]);
        if m < spans.len() - 1 {
            assert(spans[m].1 <= spans[spans.len() - 1].0);
        }
    }
    lemma_clip_in_order(spans, start, end, bound);
}

/// Whether a line's exempt ranges are in order, collection by collection.
pub open spec fn ordered_protection(protection: Protection) -> bool {
    match protection {
        Protection::Verbatim => true,
        Protection::Inline(code, prose) => in_order(code) && in_order(prose),
    }
}

/// A line of a paragraph whose backtick runs are in order has its exempt
/// ranges in order.
proof fn lemma_paragraph_line_ordered(p: Patterns, lines: Seq<Seq<char>>, start: int, end: int, i: int)
    requires
        in_order(regex_find_iter(p.backticks, join_lines(lines.subrange(start, end)))),
    ensures
        ordered_protection(paragraph_line(p, lines, start, end, i)),
{
    let spans = pairing(regex_find_iter(p.backticks, join_lines(lines.subrange(start, end))), 0).0;
    let offset = span_bytes(lines, start, i);
    let code = clip(spans, offset, offset + byte_count(lines[i]));
    lemma_pairing_in_order(regex_find_iter(p.backticks, join_lines(lines.subrange(start, end))), 0);
    assert(byte_count(lines[i]) >= 0);
    lemma_clip_ordered(spans, offset, offset + byte_count(lines[i]));
    law_prose_spans_are_disjoint(p, lines[i], code);
    let prose = prose_claims(p, lines[i], code).sort_by(span_order());
    assert forall|a: int| 0 <= a < prose.len() implies (#[trigger] prose[a]).0 <= prose[a].1 by {
        assert(prose[a].0 < prose[a].1);
    }
}

/// The walk leaves no paragraph open when the text ends inside a fence.
proof fn lemma_walk_ends_in_fence(p: Patterns, lines: Seq<Seq<char>>, k: int, s: int, e: int, f: bool)
    requires
        0 <= k <= lines.len(),
        f == fenced(lines, k),
        f ==> s == e,
        fenced(lines, lines.len() as int),
    ensures
        walk(p, lines, k, s, e, f).1.0 == walk(p, lines, k, s, e, f).1.1,
    decreases lines.len() - k,
{
    if k < lines.len() {
        let line = lines[k];
        if fence_marker(line) {
            lemma_walk_ends_in_fence(p, lines, k + 1, e, e, !f);
        } else if f {
            lemma_walk_ends_in_fence(p, lines, k + 1, s, e, f);
        } else if crate::text::all_whitespace(line) {
            lemma_walk_ends_in_fence(p, lines, k + 1, e, e, false);
        } else {
            let continues_quote = s < e && regex_is_match(p.quote_line, line) && regex_is_match(
                p.quote_line,
                lines[e - 1],
            );
            let breaks = regex_is_match(p.block_start, line) && !continues_quote;
            let s1 = if breaks {
                e
            } else {
                s
            };
            let s2 = if s1 >= e {
                k
            } else {
                s1
            };
            if regex_is_match(p.single_line_block, line) {
                lemma_walk_ends_in_fence(p, lines, k + 1, k + 1, k + 1, false);
            } else {
                lemma_walk_ends_in_fence(p, lines, k + 1, s2, k + 1, false);
            }
        }
    }
}

/// The walk leaves no paragraph open when the last line is blank outside
/// the fences.
proof fn lemma_walk_ends_blank(p: Patterns, lines: Seq<Seq<char>>, k: int, s: int, e: int, f: bool)
    requires
        0 <= k < lines.len(),
        f == fenced(lines, k),
        crate::text::all_whitespace(lines.last()),
        outside_fences(lines, lines.len() - 1),
    ensures
        walk(p, lines, k, s, e, f).1.0 == walk(p, lines, k, s, e, f).1.1,
    decreases lines.len() - k,
{
    let line = lines[k];
    if k == lines.len() - 1 {
        assert(line == lines.last());
        assert(walk(p, lines, k + 1, e, e, false).1 == (e, e));
    } else if fence_marker(line) {
        lemma_walk_ends_blank(p, lines, k + 1, e, e, !f);
    } else if f {
        lemma_walk_ends_blank(p, lines, k + 1, s, e, f);
    } else if crate::text::all_whitespace(line) {
        lemma_walk_ends_blank(p, lines, k + 1, e, e, false);
    } else {
        let continues_quote = s < e && regex_is_match(p.quote_line, line) && regex_is_match(
            p.quote_line,
            lines[e - 1],
        );
        let breaks = regex_is_match(p.block_start, line) && !continues_quote;
        let s1 = if breaks {
            e
        } else {
            s
        };
        let s2 = if s1 >= e {
            k
        } else {
            s1
        };
        if regex_is_match(p.single_line_block, line) {
            lemma_walk_ends_blank(p, lines, k + 1, k + 1, k + 1, false);
        } else {
            lemma_walk_ends_blank(p, lines, k + 1, s2, k + 1, false);
        }
    }
}

/// A text that ends inside a fenced code block has no code span left open.
pub proof fn law_no_open_span_inside_a_fence(p: Patterns, lines: Seq<Seq<char>>)
    requires
        fenced(lines, lines.len() as int),
    ensures
        !open_span(p, lines),
{
    lemma_walk_ends_in_fence(p, lines, 0, 0, 0, false);
}

/// A text whose last line is blank, outside the fences, has no code span
/// left open: the blank line closed the paragraph.
pub proof fn law_no_open_span_after_a_blank_line(p: Patterns, lines: Seq<Seq<char>>)
    requires
        lines.len() > 0,
        crate::text::all_whitespace(lines.last()),
        outside_fences(lines, lines.len() - 1),
    ensures
        !open_span(p, lines),
{
    lemma_walk_ends_blank(p, lines, 0, 0, 0, false);
}

} // verus!
