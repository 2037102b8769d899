//! What a message is worth polishing, and what a rewrite changed.
//!
//! Two jobs, one screen. Counting: a message that is short, or long only
//! because it carries code, is left alone, and [`prose_length`] is the measure
//! that decides it. Showing: [`changes`] renders each change with a little of
//! the sentence on either side, over `difflib.SequenceMatcher`'s own division
//! of the two texts ([`opcodes`]), autojunk pruning above 200 elements
//! included.

use vstd::prelude::*;

use crate::text::{
    occurrences, occurrences_of,
    chars_of, is_python_whitespace, line_ranges, push_char, python_whitespace, ranges_view,
    slice_chars, splitlines, starts_with, trim_start,
};

verus! {

/// Fence markers: a message that is long only because it carries code is a
/// short message as far as polishing is concerned.
pub const FENCES: [&'static str; 2] = ["```", "~~~"];

/// How many non-whitespace characters a message needs before it is polished.
pub const MIN_CHARS: usize = 200;

/// Newlines between the message and the block: one blank line.
pub const BLOCK_GAP: usize = 2;

/// What the block says when the rewrite came back the same as the input.
pub const UNCHANGED: &'static str = "无改动";

/// What it says when the rewrite moved only whitespace or the punctuation width
/// the deterministic rules own, which the pairs cannot show.
pub const TYPOGRAPHY_ONLY: &'static str = "仅排版改动";

/// What the pairs put on either side of a change.
pub const CONTEXT: usize = 10;

/// Two changes closer than this read as one edit, not two.
pub const NEAR: usize = 6;

/// Whether a character is whitespace to Python's `str`.
pub fn space(character: char) -> (r: bool)
    ensures
        r == python_whitespace(character),
{
    is_python_whitespace(character)
}

/// How many newlines a text ends on.
pub open spec fn trailing(s: Seq<char>) -> nat
    decreases s.len(),
{
    if s.len() > 0 && s.last() == '\n' {
        trailing(s.drop_last()) + 1
    } else {
        0
    }
}

/// Count the newlines a piece of text ends on: zero when it ends on anything
/// else, so a trailing space is not a line that reached the screen.
#[must_use]
pub fn trailing_newlines(text: &str) -> (r: usize)
    ensures
        r == trailing(text@),
{
    let s = chars_of(text);
    let mut n: usize = s.len();
    let mut count: usize = 0;
    assert(s@.take(s@.len() as int) =~= s@);
    while n > 0 && s[n - 1] == '\n'
        invariant
            n <= s@.len(),
            count + n == s.len(),
            s.len() == s@.len(),
            trailing(s@) == trailing(s@.take(n as int)) + count,
        decreases n,
    {
        assert(s@.take(n as int).drop_last() =~= s@.take(n - 1));
        n = n - 1;
        count = count + 1;
    }
    count
}

/// Whether a line opens or closes a fenced code block.
pub open spec fn fence_marker(line: Seq<char>) -> bool {
    starts_with(trim_start(line), "```"@) || starts_with(trim_start(line), "~~~"@)
}

/// How many characters of a text are not whitespace.
pub open spec fn nonspace(s: Seq<char>) -> nat
    decreases s.len(),
{
    if s.len() == 0 {
        0
    } else {
        nonspace(s.drop_last()) + if python_whitespace(s.last()) {
            0nat
        } else {
            1nat
        }
    }
}

/// The prose count of a sequence of lines, and whether they end inside a fence.
pub open spec fn prose_fold(lines: Seq<Seq<char>>) -> (nat, bool)
    decreases lines.len(),
{
    if lines.len() == 0 {
        (0, false)
    } else {
        let (total, in_fence) = prose_fold(lines.drop_last());
        if fence_marker(lines.last()) {
            (total, !in_fence)
        } else if !in_fence {
            (total + nonspace(lines.last()), false)
        } else {
            (total, true)
        }
    }
}

proof fn lemma_trim_start_after(s: Seq<char>, n: int)
    requires
        0 <= n < s.len(),
        forall|i: int| 0 <= i < n ==> python_whitespace(#[trigger] s[i]),
        !python_whitespace(s[n]),
    ensures
        crate::text::trim_start(s) == s.skip(n),
    decreases n,
{
    if n == 0 {
        assert(s.skip(0) =~= s);
    } else {
        let rest = s.drop_first();
        assert forall|i: int| 0 <= i < n - 1 implies python_whitespace(#[trigger] rest[i]) by {
            assert(rest[i] == s[i + 1]);
        }
        lemma_trim_start_after(rest, n - 1);
        assert(rest.skip(n - 1) =~= s.skip(n));
    }
}

proof fn lemma_trim_start_is_suffix(s: Seq<char>)
    ensures
        exists|m: int| 0 <= m <= s.len() && crate::text::trim_start(s) == #[trigger] s.skip(m),
    decreases s.len(),
{
    if s.len() > 0 && python_whitespace(s[0]) {
        lemma_trim_start_is_suffix(s.drop_first());
        let m = choose|m: int| 0 <= m <= s.drop_first().len() && crate::text::trim_start(s.drop_first()) == #[trigger] s.drop_first().skip(m);
        assert(s.drop_first().skip(m) =~= s.skip(m + 1));
    } else {
        assert(s.skip(0) =~= s);
    }
}

/// Whether a line, after the whitespace it starts with, begins with three
/// backticks or three tildes.
pub open spec fn opens_after_indent(line: Seq<char>, n: int) -> bool {
    &&& 0 <= n < line.len()
    &&& forall|i: int| 0 <= i < n ==> python_whitespace(#[trigger] line[i])
    &&& ("```"@.is_prefix_of(line.skip(n)) || "~~~"@.is_prefix_of(line.skip(n)))
}

proof fn lemma_indented_marker(line: Seq<char>, n: int)
    requires
        opens_after_indent(line, n),
    ensures
        fence_marker(line),
{
    reveal_strlit("```");
    reveal_strlit("~~~");
    assert(line.skip(n)[0] == line[n]);
    if "```"@.is_prefix_of(line.skip(n)) {
        assert(line.skip(n).subrange(0, 3)[0] == "```"@[0]);
    } else {
        assert(line.skip(n).subrange(0, 3)[0] == "~~~"@[0]);
    }
    assert(line[n] == '`' || line[n] == '~');
    lemma_trim_start_after(line, n);
    if "```"@.is_prefix_of(line.skip(n)) {
        assert(line.skip(n).take(3) =~= "```"@);
    } else {
        assert(line.skip(n).take(3) =~= "~~~"@);
    }
}

proof fn lemma_plain_line(line: Seq<char>)
    requires
        !line.contains('`'),
        !line.contains('~'),
    ensures
        !fence_marker(line),
{
    reveal_strlit("```");
    reveal_strlit("~~~");
    lemma_trim_start_is_suffix(line);
    let m = choose|m: int| 0 <= m <= line.len() && crate::text::trim_start(line) == #[trigger] line.skip(m);
    if fence_marker(line) {
        let t = line.skip(m);
        assert(t.take(3)[0] == t[0]);
        assert(t[0] == line[m]);
        assert(line.contains(line[m]));
    }
}

proof fn lemma_inside_block(lines: Seq<Seq<char>>, k: int)
    requires
        1 <= k < lines.len(),
        fence_marker(lines[0]),
        forall|j: int| 0 < j < lines.len() - 1 ==> !(#[trigger] lines[j]).contains('`') && !lines[j].contains('~'),
    ensures
        prose_fold(lines.take(k)) == (0nat, true),
    decreases k,
{
    assert(lines.take(k).drop_last() =~= lines.take(k - 1));
    assert(lines.take(k).last() == lines[k - 1]);
    if k == 1 {
        assert(lines.take(0) =~= Seq::<Seq<char>>::empty());
        assert(prose_fold(lines.take(0)) == (0nat, false));
    } else {
        lemma_inside_block(lines, k - 1);
        assert(!lines[k - 1].contains('`') && !lines[k - 1].contains('~'));
        lemma_plain_line(lines[k - 1]);
    }
}

/// A fenced code block is no prose, indented or not: lines that open with a
/// fence after any leading whitespace, then lines without a backtick or a
/// tilde, then a line that again opens with a fence after its indent, count
/// nothing and leave no fence open. So a message that is only such a block
/// has a prose length of zero.
pub proof fn law_fenced_block_is_not_prose(lines: Seq<Seq<char>>, open: int, close: int)
    requires
        lines.len() >= 2,
        opens_after_indent(lines[0], open),
        opens_after_indent(lines.last(), close),
        forall|k: int| 0 < k < lines.len() - 1 ==> !(#[trigger] lines[k]).contains('`') && !lines[k].contains('~'),
    ensures
        prose_fold(lines) == (0nat, false),
        forall|s: Seq<char>| splitlines(s) == lines ==> #[trigger] prose(s) == 0,
{
    lemma_indented_marker(lines[0], open);
    lemma_indented_marker(lines.last(), close);
    let n = lines.len() as int;
    lemma_inside_block(lines, n - 1);
    assert(lines.take(n).drop_last() =~= lines.take(n - 1));
    assert(lines.take(n) =~= lines);
}

/// The non-whitespace characters of a message outside its fenced code blocks,
/// the fence markers not counted either way.
pub open spec fn prose(s: Seq<char>) -> nat {
    prose_fold(splitlines(s)).0
}

/// The total length of some lines.
pub open spec fn total_len(lines: Seq<Seq<char>>) -> nat
    decreases lines.len(),
{
    if lines.len() == 0 {
        0
    } else {
        total_len(lines.drop_last()) + lines.last().len()
    }
}

proof fn lemma_nonspace_le(s: Seq<char>)
    ensures
        nonspace(s) <= s.len(),
    decreases s.len(),
{
    if s.len() > 0 {
        lemma_nonspace_le(s.drop_last());
    }
}

proof fn lemma_prose_fold_le(lines: Seq<Seq<char>>)
    ensures
        prose_fold(lines).0 <= total_len(lines),
    decreases lines.len(),
{
    if lines.len() > 0 {
        lemma_prose_fold_le(lines.drop_last());
        lemma_nonspace_le(lines.last());
    }
}

proof fn lemma_total_len_concat(a: Seq<Seq<char>>, b: Seq<Seq<char>>)
    ensures
        total_len(a + b) == total_len(a) + total_len(b),
    decreases b.len(),
{
    if b.len() > 0 {
        assert((a + b).drop_last() =~= a + b.drop_last());
        lemma_total_len_concat(a, b.drop_last());
    } else {
        assert(a + b =~= a);
    }
}

proof fn lemma_total_len_one(line: Seq<char>)
    ensures
        total_len(seq![line]) == line.len(),
{
    assert(seq![line].drop_last() =~= Seq::<Seq<char>>::empty());
    assert(seq![line].last() == line);
    assert(total_len(Seq::<Seq<char>>::empty()) == 0);
    assert(total_len(seq![line]) == total_len(seq![line].drop_last()) + line.len());
}

proof fn lemma_splitlines_total(s: Seq<char>)
    ensures
        total_len(splitlines(s)) <= s.len(),
    decreases s.len(),
{
    if s.len() > 0 {
        crate::text::lemma_first_break_bounds(s, 0);
        let k = crate::text::first_break(s, 0);
        if k < s.len() {
            let w = crate::text::break_width(s, k);
            let rest = s.skip(k + w);
            assert(rest.len() == s.len() - k - w);
            lemma_splitlines_total(rest);
            lemma_total_len_concat(seq![s.take(k)], splitlines(rest));
            lemma_total_len_one(s.take(k));
            assert(splitlines(s) == seq![s.take(k)] + splitlines(rest));
        } else {
            lemma_total_len_one(s);
            assert(splitlines(s) == seq![s]);
        }
    }
}

proof fn lemma_total_len_prefix(lines: Seq<Seq<char>>, k: int)
    requires
        0 <= k <= lines.len(),
    ensures
        total_len(lines.take(k)) <= total_len(lines),
    decreases lines.len(),
{
    if k < lines.len() {
        assert(lines.drop_last().take(k) =~= lines.take(k));
        lemma_total_len_prefix(lines.drop_last(), k);
    } else {
        assert(lines.take(k) =~= lines);
    }
}

fn nonspace_in(s: &[char], from: usize, to: usize) -> (r: usize)
    requires
        from <= to <= s@.len(),
    ensures
        r == nonspace(s@.subrange(from as int, to as int)),
{
    let mut count: usize = 0;
    let mut i = from;
    assert(s@.subrange(from as int, from as int) =~= Seq::<char>::empty());
    while i < to
        invariant
            from <= i <= to <= s@.len(),
            count == nonspace(s@.subrange(from as int, i as int)),
            count <= i - from,
        decreases to - i,
    {
        assert(s@.subrange(from as int, i + 1).drop_last() =~= s@.subrange(from as int, i as int));
        if !space(s[i]) {
            count = count + 1;
        }
        i = i + 1;
    }
    count
}

/// Count what there is to polish in one message: the non-whitespace
/// characters outside fenced code blocks. A line whose first non-space run
/// opens or closes a fence is a marker and is not counted either way.
#[must_use]
pub fn prose_length(text: &str) -> (r: usize)
    ensures
        r == prose(text@),
{
    let s = chars_of(text);
    let ranges = line_ranges(&s);
    let ghost lines = splitlines(s@);
    let mut total: usize = 0;
    let mut in_fence = false;
    let mut k: usize = 0;
    proof {
        lemma_splitlines_total(s@);
        assert(lines.take(0) =~= Seq::<Seq<char>>::empty());
    }
    while k < ranges.len()
        invariant
            k <= ranges@.len(),
            lines == splitlines(s@),
            ranges_view(s@, ranges@) == lines,
            forall|x: int| 0 <= x < ranges@.len() ==> (#[trigger] ranges@[x]).0 <= ranges@[x].1 <= s@.len(),
            total_len(lines) <= s@.len(),
            s@.len() == s.len(),
            (total as nat, in_fence) == prose_fold(lines.take(k as int)),
        decreases ranges@.len() - k,
    {
        let (from, to) = ranges[k];
        let line = slice_chars(&s, from, to);
        proof {
            assert(lines[k as int] == line@);
            assert(lines.take(k + 1).drop_last() =~= lines.take(k as int));
            assert(lines.take(k + 1).last() == line@);
            lemma_prose_fold_le(lines.take(k + 1));
            lemma_total_len_prefix(lines, k + 1);
        }
        let start = crate::text::skip_whitespace(&line, 0);
        assert(line@.skip(0) =~= line@);
        let marker = crate::text::has_at(&line, start, "```") || crate::text::has_at(&line, start, "~~~");
        if marker {
            in_fence = !in_fence;
        } else if !in_fence {
            let count = nonspace_in(&line, 0, line.len());
            assert(line@.subrange(0, line@.len() as int) =~= line@);
            assert(marker == fence_marker(line@));
            assert(total + count == prose_fold(lines.take(k + 1)).0);
            total = total + count;
        }
        k = k + 1;
    }
    assert(lines.take(ranges@.len() as int) =~= lines);
    total
}

/// The half-width twin of a full-width punctuation mark, else the character.
pub open spec fn narrow(c: char) -> char {
    if c == '（' {
        '('
    } else if c == '）' {
        ')'
    } else if c == '，' {
        ','
    } else if c == '。' {
        '.'
    } else if c == '；' {
        ';'
    } else if c == '：' {
        ':'
    } else if c == '！' {
        '!'
    } else if c == '？' {
        '?'
    } else {
        c
    }
}

fn narrow_char(c: char) -> (r: char)
    ensures
        r == narrow(c),
{
    if c == '（' {
        '('
    } else if c == '）' {
        ')'
    } else if c == '，' {
        ','
    } else if c == '。' {
        '.'
    } else if c == '；' {
        ';'
    } else if c == '：' {
        ':'
    } else if c == '！' {
        '!'
    } else if c == '？' {
        '?'
    } else {
        c
    }
}

/// A text without whitespace and with full-width punctuation folded onto its
/// half-width twin: what the deterministic rules cannot change.
pub open spec fn fold_text(s: Seq<char>) -> Seq<char>
    decreases s.len(),
{
    if s.len() == 0 {
        Seq::empty()
    } else if python_whitespace(s.last()) {
        fold_text(s.drop_last())
    } else {
        fold_text(s.drop_last()).push(narrow(s.last()))
    }
}

fn fold_chars(s: &[char]) -> (r: Vec<char>)
    ensures
        r@ == fold_text(s@),
{
    let mut r: Vec<char> = Vec::new();
    let mut i: usize = 0;
    assert(s@.take(0) =~= Seq::<char>::empty());
    while i < s.len()
        invariant
            i <= s@.len(),
            r@ == fold_text(s@.take(i as int)),
        decreases s@.len() - i,
    {
        assert(s@.take(i + 1).drop_last() =~= s@.take(i as int));
        if !space(s[i]) {
            r.push(narrow_char(s[i]));
        }
        i = i + 1;
    }
    assert(s@.take(s@.len() as int) =~= s@);
    r
}

/// Reduce one excerpt to what the deterministic rules cannot change.
pub fn folded(text: &str) -> (r: String)
    ensures
        r@ == fold_text(text@),
{
    crate::text::vec_to_string(&fold_chars(&chars_of(text)))
}

/// A text on one line, and whether a whitespace run is waiting for the next
/// character.
pub open spec fn flat_fold(s: Seq<char>) -> (Seq<char>, bool)
    decreases s.len(),
{
    if s.len() == 0 {
        (Seq::empty(), false)
    } else {
        let (out, gap) = flat_fold(s.drop_last());
        if python_whitespace(s.last()) {
            (out, true)
        } else if gap && out.len() > 0 {
            (out.push(' ').push(s.last()), false)
        } else {
            (out.push(s.last()), false)
        }
    }
}

/// Every whitespace run a single space, the ends trimmed.
pub open spec fn flat_text(s: Seq<char>) -> Seq<char> {
    flat_fold(s).0
}

fn flat_chars(s: &[char]) -> (r: String)
    ensures
        r@ == flat_text(s@),
{
    let mut out = String::new();
    let mut gap = false;
    let mut i: usize = 0;
    assert(s@.take(0) =~= Seq::<char>::empty());
    while i < s.len()
        invariant
            i <= s@.len(),
            (out@, gap) == flat_fold(s@.take(i as int)),
        decreases s@.len() - i,
    {
        assert(s@.take(i + 1).drop_last() =~= s@.take(i as int));
        let character = s[i];
        if space(character) {
            gap = true;
        } else {
            if gap && out.as_str().is_empty() == false {
                push_char(&mut out, ' ');
            }
            gap = false;
            push_char(&mut out, character);
        }
        i = i + 1;
    }
    assert(s@.take(s@.len() as int) =~= s@);
    out
}

/// Put one excerpt on one line: every run of whitespace becomes a single
/// space, and the ends are trimmed.
pub fn flat(text: &str) -> (r: String)
    ensures
        r@ == flat_text(text@),
{
    flat_chars(&chars_of(text))
}

/// What one opcode of the alignment says happened.
#[derive(Clone, Copy, Debug, Eq, PartialEq, Structural)]
pub enum Tag {
    /// The two sides agree over this span.
    Equal,
    /// `before[i1..i2]` was rewritten as `after[j1..j2]`.
    Replace,
    /// `before[i1..i2]` is gone.
    Delete,
    /// `after[j1..j2]` is new.
    Insert,
}

impl Tag {
    /// The name `difflib` gives this tag.
    #[must_use]
    pub fn as_str(self) -> (r: &'static str)
        ensures
            r@ == match self {
                Tag::Equal => "equal"@,
                Tag::Replace => "replace"@,
                Tag::Delete => "delete"@,
                Tag::Insert => "insert"@,
            },
    {
        match self {
            Tag::Equal => "equal",
            Tag::Replace => "replace",
            Tag::Delete => "delete",
            Tag::Insert => "insert",
        }
    }
}

/// One step of turning `before` into `after`, in character indices.
#[derive(Clone, Copy, Debug, Eq, PartialEq, Structural)]
pub struct Opcode {
    pub tag: Tag,
    pub i1: usize,
    pub i2: usize,
    pub j1: usize,
    pub j2: usize,
}

/// How many pieces the pair separator cuts a rendering into.
pub open spec fn pair_pieces(s: Seq<char>) -> nat
    decreases s.len(),
{
    if s.len() < 2 {
        1
    } else if s[0] == '\n' && s[1] == '\n' {
        1 + pair_pieces(s.skip(2))
    } else {
        pair_pieces(s.skip(1))
    }
}

/// How many changes a rendering of [`changes`] holds: zero for the empty one.
pub open spec fn change_count(s: Seq<char>) -> nat {
    if s.len() == 0 {
        0
    } else {
        pair_pieces(s)
    }
}

/// How many changes [`changes`] rendered; zero for the empty rendering.
#[must_use]
pub fn count(changes: &str) -> (r: usize)
    ensures
        r == change_count(changes@),
{
    let s = chars_of(changes);
    if s.len() == 0 {
        return 0;
    }
    let mut i: usize = 0;
    let mut pieces: usize = 1;
    assert(s@.skip(0) =~= s@);
    while i < s.len() - 1
        invariant
            i <= s@.len(),
            s.len() > 0,
            pieces >= 1,
            pieces <= i + 1,
            pair_pieces(s@) == pieces - 1 + pair_pieces(s@.skip(i as int)),
        decreases s@.len() - i,
    {
        if s[i] == '\n' && s[i + 1] == '\n' {
            assert(s@.skip(i as int).skip(2) =~= s@.skip(i + 2));
            pieces = pieces + 1;
            i = i + 2;
        } else {
            assert(s@.skip(i as int).skip(1) =~= s@.skip(i + 1));
            i = i + 1;
        }
    }
    pieces
}

/// One span of a character sequence, as a string.
pub fn excerpt(text: &[char], from: usize, to: usize) -> (r: String)
    requires
        from <= to <= text@.len(),
    ensures
        r@ == text@.subrange(from as int, to as int),
{
    crate::text::vec_to_string(&slice_chars(text, from, to))
}

/// What became of the deterministic fixes over one turn's rewrites.
#[derive(Clone, Debug, Eq, PartialEq)]
pub enum Fixes {
    /// They ran and had nothing to fix.
    Clean,
    /// They ran and changed at least one rewrite.
    Repaired,
    /// They would not run, for the caller's own reason; the rewrites are
    /// passed through as they came.
    Failed(String),
}

/// What one rewrite shows: the fixed text, or the rewrite as it came when the
/// fix would not run.
pub open spec fn displayed(answer: Seq<char>, result: Result<String, String>) -> Seq<char> {
    match result {
        Ok(fixed) => fixed@,
        Err(_) => answer,
    }
}

/// The reason of the first fix that would not run.
pub open spec fn first_failure(results: Seq<Result<String, String>>) -> Option<Seq<char>>
    decreases results.len(),
{
    if results.len() == 0 {
        None
    } else {
        match first_failure(results.drop_last()) {
            Some(why) => Some(why),
            None => match results.last() {
                Err(why) => Some(why@),
                Ok(_) => None,
            },
        }
    }
}

/// Whether every rewrite is shown as it came.
pub open spec fn unchanged(display: Seq<String>, answers: Seq<String>) -> bool {
    forall|i: int| 0 <= i < answers.len() ==> (#[trigger] display[i])@ == answers[i]@
}

/// Whether an executable [`Fixes`] says what the fix results say.
pub open spec fn fixes_as(fixes: Fixes, results: Seq<Result<String, String>>, unchanged: bool) -> bool {
    match first_failure(results) {
        Some(why) => fixes matches Fixes::Failed(reason) && reason@ == why,
        None => if unchanged {
            fixes is Clean
        } else {
            fixes is Repaired
        },
    }
}

/// Whether `r` is what one turn's fix results make: what to display, in the
/// order the rewrites came, and what the fixes did.
pub open spec fn summarized(
    r: (Vec<String>, Fixes),
    answers: Seq<String>,
    results: Seq<Result<String, String>>,
) -> bool {
    &&& r.0@.len() == answers.len()
    &&& forall|i: int| 0 <= i < answers.len() ==> (#[trigger] r.0@[i])@ == displayed(answers[i]@, results[i])
    &&& fixes_as(r.1, results, unchanged(r.0@, answers))
}

/// Put one turn's fix results together: what to display, in the order the
/// rewrites came, and what the fixes did.
pub fn summarize(answers: &[String], results: Vec<Result<String, String>>) -> (r: (Vec<String>, Fixes))
    requires
        results@.len() == answers@.len(),
    ensures
        summarized(r, answers@, results@),
{
    let mut display: Vec<String> = Vec::new();
    let mut failed: Option<String> = None;
    let mut same = true;
    let mut i: usize = 0;
    assert(results@.take(0) =~= Seq::<Result<String, String>>::empty());
    while i < results.len()
        invariant
            i <= results@.len(),
            results@.len() == answers@.len(),
            display@.len() == i,
            forall|k: int| 0 <= k < i ==> (#[trigger] display@[k])@ == displayed(answers@[k]@, results@[k]),
            match first_failure(results@.take(i as int)) {
                Some(why) => failed matches Some(reason) && reason@ == why,
                None => failed is None,
            },
            same == unchanged(display@, answers@.take(i as int)),
        decreases results@.len() - i,
    {
        assert(results@.take(i + 1).drop_last() =~= results@.take(i as int));
        assert(results@.take(i + 1).last() == results@[i as int]);
        let shown = match &results[i] {
            Ok(fixed) => fixed.clone(),
            Err(why) => {
                if failed.is_none() {
                    failed = Some(why.clone());
                }
                answers[i].clone()
            },
        };
        let equal = shown == answers[i];
        let ghost was_same = same;
        same = same && equal;
        let ghost prev = display@;
        display.push(shown);
        proof {
            let before = answers@.take(i as int);
            let after = answers@.take(i + 1);
            assert forall|k: int| 0 <= k < i implies #[trigger] display@[k] == prev[k] by {}
            assert(display@[i as int]@ == displayed(answers@[i as int]@, results@[i as int]));
            if same {
                assert forall|k: int| 0 <= k < after.len() implies (#[trigger] display@[k])@ == after[k]@ by {
                    if k < i {
                        assert(after[k] == before[k]);
                        assert(prev[k]@ == before[k]@);
                    }
                }
            } else if !equal {
                assert(display@[i as int]@ != after[i as int]@);
            } else {
                assert(!was_same);
                let k = choose|k: int| 0 <= k < before.len() && !((#[trigger] prev[k])@ == before[k]@);
                assert(display@[k] == prev[k]);
                assert(after[k] == before[k]);
            }
        }
        i = i + 1;
    }
    assert(results@.take(results@.len() as int) =~= results@);
    assert(answers@.take(answers@.len() as int) =~= answers@);
    let fixes = match failed {
        Some(why) => Fixes::Failed(why),
        None => if same {
            Fixes::Clean
        } else {
            Fixes::Repaired
        },
    };
    (display, fixes)
}

/// Whether `result` is an answer that `fixer`, in the state it is in, may
/// give for `answer`.
pub open spec fn answered<F: FnMut(&str) -> Result<String, String>>(
    fixer: F,
    answer: Seq<char>,
    result: Result<String, String>,
) -> bool {
    exists|text: &str| text@ == answer && call_ensures(fixer, (text,), result)
}

/// Each rewrite was offered once, in order: the fixer, as it stood at the
/// `i`-th call (`states[i]`), gave `results[i]` for `answers[i]`.
pub open spec fn offered_in_turn<F: FnMut(&str) -> Result<String, String>>(
    states: Seq<F>,
    answers: Seq<String>,
    results: Seq<Result<String, String>>,
) -> bool {
    &&& results.len() == answers.len()
    &&& states.len() == answers.len() + 1
    &&& forall|i: int| 0 <= i < answers.len() ==> answered(states[i], answers[i]@, #[trigger] results[i])
}

/// Put every rewrite of one turn through the deterministic fixes.
///
/// `tidy` returns the fixed text, or the reason it would not run, in which
/// case the rewrite is shown as the model wrote it. Every rewrite is offered
/// to the fixer once, in order, even after one has failed, and what comes back
/// is put together by [`summarize`]. The fixer may keep state between calls:
/// `states[i]` is the fixer as it stood when the `i`-th rewrite was offered,
/// the first of them `tidy` itself.
pub fn shown<F>(answers: &[String], mut tidy: F) -> (r: (Vec<String>, Fixes))
    where
        F: FnMut(&str) -> Result<String, String>,
    requires
        forall|fixer: F, answer: &str| call_requires(fixer, (answer,)),
    ensures
        exists|results: Seq<Result<String, String>>, states: Seq<F>|
            {
                &&& #[trigger] summarized(r, answers@, results)
                &&& states[0] == tidy
                &&& #[trigger] offered_in_turn(states, answers@, results)
            },
{
    let ghost first = tidy;
    let ghost mut states: Seq<F> = seq![tidy];
    let mut results: Vec<Result<String, String>> = Vec::new();
    let mut i: usize = 0;
    while i < answers.len()
        invariant
            i <= answers@.len(),
            results@.len() == i,
            states.len() == i + 1,
            states[0] == first,
            states[i as int] == tidy,
            forall|fixer: F, answer: &str| call_requires(fixer, (answer,)),
            forall|k: int| 0 <= k < i ==> answered(states[k], answers@[k]@, #[trigger] results@[k]),
        decreases answers@.len() - i,
    {
        let answer = answers[i].as_str();
        let ghost before = tidy;
        let result = tidy(answer);
        assert(answered(before, answers@[i as int]@, result));
        results.push(result);
        proof {
            states = states.push(tidy);
        }
        i = i + 1;
    }
    let ghost all = results@;
    let r = summarize(answers, results);
    assert(summarized(r, answers@, all));
    assert(offered_in_turn(states, answers@, all));
    r
}

/// Above this many elements of the second text, the characters that are
/// everywhere stop seeding matches.
pub const AUTOJUNK: usize = 200;

/// Whether `c` is too common in `b` to seed a match: `b` has at least
/// [`AUTOJUNK`] characters and `c` occurs more than `len / 100 + 1` times.
pub open spec fn popular(b: Seq<char>, c: char) -> bool {
    b.len() >= AUTOJUNK && occurrences(b, c) > b.len() / 100 + 1
}

/// The run of equal characters that may seed a match and that ends just before
/// `a[i]` and `b[j]`, reaching back no further than `alo` and `blo`.
pub open spec fn seeded(a: Seq<char>, b: Seq<char>, alo: int, blo: int, i: int, j: int) -> nat
    decreases i - alo,
{
    if alo < i && blo < j && i <= a.len() && j <= b.len() && a[i - 1] == b[j - 1] && !popular(
        b,
        b[j - 1],
    ) {
        seeded(a, b, alo, blo, i - 1, j - 1) + 1
    } else {
        0
    }
}

/// The run of equal characters that ends just before `a[i]` and `b[j]`,
/// reaching back no further than `alo` and `blo`.
pub open spec fn equal_back(a: Seq<char>, b: Seq<char>, alo: int, blo: int, i: int, j: int) -> nat
    decreases i - alo,
{
    if alo < i && blo < j && i <= a.len() && j <= b.len() && a[i - 1] == b[j - 1] {
        equal_back(a, b, alo, blo, i - 1, j - 1) + 1
    } else {
        0
    }
}

/// The run of equal characters that starts at `a[i]` and `b[j]`, reaching no
/// further than `ahi` and `bhi`.
pub open spec fn equal_ahead(a: Seq<char>, b: Seq<char>, ahi: int, bhi: int, i: int, j: int) -> nat
    decreases ahi - i,
{
    if 0 <= i < ahi && 0 <= j < bhi && ahi <= a.len() && bhi <= b.len() && a[i] == b[j] {
        equal_ahead(a, b, ahi, bhi, i + 1, j + 1) + 1
    } else {
        0
    }
}

/// Whether `(i, j)` can end a run inside the window `a[alo..ahi]`, `b[blo..bhi]`.
pub open spec fn in_window(alo: int, ahi: int, blo: int, bhi: int, i: int, j: int) -> bool {
    alo < i <= ahi && blo < j <= bhi
}

/// Whether the end `(x, y)` comes before `(i, j)` in a scan row by row.
pub open spec fn scanned_before(x: int, y: int, i: int, j: int) -> bool {
    x < i || (x == i && y < j)
}

/// Whether `(i, j)` ends the longest seeded run of the window, and is the first
/// end of one so long in a scan row by row.
pub open spec fn best_end(
    a: Seq<char>,
    b: Seq<char>,
    alo: int,
    ahi: int,
    blo: int,
    bhi: int,
    i: int,
    j: int,
) -> bool {
    &&& in_window(alo, ahi, blo, bhi, i, j)
    &&& seeded(a, b, alo, blo, i, j) > 0
    &&& forall|x: int, y: int|
        in_window(alo, ahi, blo, bhi, x, y) ==> #[trigger] seeded(a, b, alo, blo, x, y) <= seeded(
            a,
            b,
            alo,
            blo,
            i,
            j,
        )
    &&& forall|x: int, y: int|
        in_window(alo, ahi, blo, bhi, x, y) && scanned_before(x, y, i, j) ==> #[trigger] seeded(
            a,
            b,
            alo,
            blo,
            x,
            y,
        ) < seeded(a, b, alo, blo, i, j)
}

/// The longest seeded run of the window as (start in `a`, start in `b`,
/// length): of the longest, the one ending first in a scan row by row, which
/// is the one starting earliest in `a`, then in `b`. `(alo, blo, 0)` when there
/// is none.
pub open spec fn seed(a: Seq<char>, b: Seq<char>, alo: int, ahi: int, blo: int, bhi: int) -> (
    int,
    int,
    int,
) {
    if exists|i: int, j: int| #[trigger] best_end(a, b, alo, ahi, blo, bhi, i, j) {
        let (i, j) = choose|i: int, j: int| #[trigger] best_end(a, b, alo, ahi, blo, bhi, i, j);
        let k = seeded(a, b, alo, blo, i, j) as int;
        (i - k, j - k, k)
    } else {
        (alo, blo, 0)
    }
}

/// The longest match of the window: the seed, stretched back and ahead over
/// equal characters, the popular ones among them.
pub open spec fn longest(a: Seq<char>, b: Seq<char>, alo: int, ahi: int, blo: int, bhi: int) -> (
    int,
    int,
    int,
) {
    let (i, j, k) = seed(a, b, alo, ahi, blo, bhi);
    let back = equal_back(a, b, alo, blo, i, j) as int;
    let ahead = equal_ahead(a, b, ahi, bhi, i + k, j + k) as int;
    (i - back, j - back, back + k + ahead)
}

/// Whether `a[i..i + k]` and `b[j..j + k]` hold the same characters.
pub open spec fn same_span(a: Seq<char>, b: Seq<char>, i: int, j: int, k: int) -> bool {
    &&& 0 <= i
    &&& 0 <= j
    &&& 0 <= k
    &&& i + k <= a.len()
    &&& j + k <= b.len()
    &&& forall|x: int| i <= x < i + k ==> #[trigger] a[x] == b[x - i + j]
}

/// Whether the window is a pair of ranges of the two texts.
pub open spec fn window(a: Seq<char>, b: Seq<char>, alo: int, ahi: int, blo: int, bhi: int) -> bool {
    0 <= alo <= ahi <= a.len() && 0 <= blo <= bhi <= b.len()
}

proof fn lemma_seeded(a: Seq<char>, b: Seq<char>, alo: int, blo: int, i: int, j: int)
    requires
        alo <= i,
        blo <= j,
        0 <= alo,
        0 <= blo,
    ensures
        seeded(a, b, alo, blo, i, j) <= i - alo,
        seeded(a, b, alo, blo, i, j) <= j - blo,
        seeded(a, b, alo, blo, i, j) <= equal_back(a, b, alo, blo, i, j),
        seeded(a, b, alo, blo, i, j) > 0 ==> i <= a.len() && j <= b.len(),
    decreases i - alo,
{
    if alo < i && blo < j && i <= a.len() && j <= b.len() && a[i - 1] == b[j - 1] {
        lemma_seeded(a, b, alo, blo, i - 1, j - 1);
    }
}

proof fn lemma_equal_back(a: Seq<char>, b: Seq<char>, alo: int, blo: int, i: int, j: int)
    requires
        alo <= i <= a.len(),
        blo <= j <= b.len(),
        0 <= alo,
        0 <= blo,
    ensures
        equal_back(a, b, alo, blo, i, j) <= i - alo,
        equal_back(a, b, alo, blo, i, j) <= j - blo,
        same_span(
            a,
            b,
            i - equal_back(a, b, alo, blo, i, j),
            j - equal_back(a, b, alo, blo, i, j),
            equal_back(a, b, alo, blo, i, j) as int,
        ),
    decreases i - alo,
{
    if alo < i && blo < j && a[i - 1] == b[j - 1] {
        lemma_equal_back(a, b, alo, blo, i - 1, j - 1);
    }
}

proof fn lemma_equal_ahead(a: Seq<char>, b: Seq<char>, ahi: int, bhi: int, i: int, j: int)
    requires
        0 <= i <= ahi <= a.len(),
        0 <= j <= bhi <= b.len(),
    ensures
        i + equal_ahead(a, b, ahi, bhi, i, j) <= ahi,
        j + equal_ahead(a, b, ahi, bhi, i, j) <= bhi,
        same_span(a, b, i, j, equal_ahead(a, b, ahi, bhi, i, j) as int),
    decreases ahi - i,
{
    if i < ahi && j < bhi && a[i] == b[j] {
        lemma_equal_ahead(a, b, ahi, bhi, i + 1, j + 1);
    }
}

proof fn lemma_best_unique(
    a: Seq<char>,
    b: Seq<char>,
    alo: int,
    ahi: int,
    blo: int,
    bhi: int,
    i: int,
    j: int,
    x: int,
    y: int,
)
    requires
        best_end(a, b, alo, ahi, blo, bhi, i, j),
        best_end(a, b, alo, ahi, blo, bhi, x, y),
    ensures
        i == x && j == y,
{
    assert(seeded(a, b, alo, blo, x, y) <= seeded(a, b, alo, blo, i, j));
    assert(seeded(a, b, alo, blo, i, j) <= seeded(a, b, alo, blo, x, y));
}

/// Where the longest match of a window lies: inside the window, on equal
/// characters, and as long as the seed it grew from.
pub proof fn lemma_longest(a: Seq<char>, b: Seq<char>, alo: int, ahi: int, blo: int, bhi: int)
    requires
        window(a, b, alo, ahi, blo, bhi),
    ensures
        ({
            let (i, j, k) = longest(a, b, alo, ahi, blo, bhi);
            &&& alo <= i
            &&& i + k <= ahi
            &&& blo <= j
            &&& j + k <= bhi
            &&& same_span(a, b, i, j, k)
        }),
{
    let (i, j, k) = seed(a, b, alo, ahi, blo, bhi);
    if exists|x: int, y: int| #[trigger] best_end(a, b, alo, ahi, blo, bhi, x, y) {
        let (x, y) = choose|x: int, y: int| #[trigger] best_end(a, b, alo, ahi, blo, bhi, x, y);
        lemma_seeded(a, b, alo, blo, x, y);
        lemma_equal_back(a, b, alo, blo, x, y);
        let e = equal_back(a, b, alo, blo, x, y);
        assert(k == seeded(a, b, alo, blo, x, y));
        // The seed lies on equal characters: it is a tail of the equal run.
        assert(same_span(a, b, x - k, y - k, k)) by {
            assert forall|z: int| x - k <= z < x implies #[trigger] a[z] == b[z - (x - k) + (y - k)] by {
                assert(x - e <= z);
                assert(a[z] == b[z - (x - e) + (y - e)]);
            }
        }
    } else {
        assert(i == alo && j == blo && k == 0);
    }
    lemma_equal_back(a, b, alo, blo, i, j);
    let back = equal_back(a, b, alo, blo, i, j) as int;
    lemma_equal_ahead(a, b, ahi, bhi, i + k, j + k);
    let ahead = equal_ahead(a, b, ahi, bhi, i + k, j + k) as int;
    let (li, lj, lk) = longest(a, b, alo, ahi, blo, bhi);
    assert(li == i - back && lj == j - back && lk == back + k + ahead);
    assert forall|z: int| li <= z < li + lk implies #[trigger] a[z] == b[z - li + lj] by {
        if z < i {
            assert(a[z] == b[z - (i - back) + (j - back)]);
        } else if z < i + k {
            assert(a[z] == b[z - i + j]);
        } else {
            assert(a[z] == b[z - (i + k) + (j + k)]);
        }
    }
}

/// For each character of `b`, whether it is too common to seed a match.
fn popularity(b: &[char]) -> (r: Vec<bool>)
    ensures
        r@.len() == b@.len(),
        forall|j: int| 0 <= j < b@.len() ==> #[trigger] r@[j] == popular(b@, b@[j]),
{
    let mut r: Vec<bool> = Vec::new();
    let mut j: usize = 0;
    while j < b.len()
        invariant
            j <= b@.len(),
            r@.len() == j,
            forall|k: int| 0 <= k < j ==> #[trigger] r@[k] == popular(b@, b@[k]),
        decreases b@.len() - j,
    {
        let common = b.len() >= AUTOJUNK && occurrences_of(b, b[j]) > b.len() / 100 + 1;
        r.push(common);
        j = j + 1;
    }
    r
}

/// The longest seeded run of the window, scanned row by row, as its end and
/// length: `(alo, blo, 0)` when there is none.
fn longest_seed(
    a: &[char],
    b: &[char],
    pop: &[bool],
    alo: usize,
    ahi: usize,
    blo: usize,
    bhi: usize,
) -> (r: (usize, usize, usize))
    requires
        window(a@, b@, alo as int, ahi as int, blo as int, bhi as int),
        pop@.len() == b@.len(),
        forall|j: int| 0 <= j < b@.len() ==> #[trigger] pop@[j] == popular(b@, b@[j]),
    ensures
        r.2 == 0 ==> !exists|i: int, j: int| #[trigger] best_end(a@, b@, alo as int, ahi as int, blo as int, bhi as int, i, j),
        r.2 > 0 ==> best_end(a@, b@, alo as int, ahi as int, blo as int, bhi as int, r.0 as int, r.1 as int),
        r.2 > 0 ==> r.2 == seeded(a@, b@, alo as int, blo as int, r.0 as int, r.1 as int),
{
    let ghost (ga, gb, gl, gh, ml, mh) = (a@, b@, alo as int, ahi as int, blo as int, bhi as int);
    // `row[y - blo]` is the seeded run ending before `a[x]` and `b[y]`.
    let mut row: Vec<usize> = Vec::new();
    row.push(0);
    let mut y: usize = blo;
    while y < bhi
        invariant
            blo <= y <= bhi,
            row@.len() == y - blo + 1,
            forall|t: int| 0 <= t < row@.len() ==> #[trigger] row@[t] == 0,
        decreases bhi - y,
    {
        row.push(0);
        y = y + 1;
    }
    let (mut bi, mut bj, mut bk) = (alo, blo, 0usize);
    let mut x: usize = alo;
    proof {
        assert forall|t: int| 0 <= t < row@.len() implies #[trigger] row@[t] == seeded(ga, gb, gl, ml, x as int, ml + t) by {}
    }
    while x < ahi
        invariant
            window(ga, gb, gl, gh, ml, mh),
            ga == a@,
            gb == b@,
            gl == alo,
            gh == ahi,
            ml == blo,
            mh == bhi,
            pop@.len() == b@.len(),
            forall|j: int| 0 <= j < b@.len() ==> #[trigger] pop@[j] == popular(b@, b@[j]),
            alo <= x <= ahi,
            row@.len() == bhi - blo + 1,
            forall|t: int| 0 <= t < row@.len() ==> #[trigger] row@[t] == seeded(ga, gb, gl, ml, x as int, ml + t),
            forall|p: int, q: int| in_window(gl, gh, ml, mh, p, q) && p <= x ==> #[trigger] seeded(ga, gb, gl, ml, p, q) <= bk,
            bk > 0 ==> in_window(gl, gh, ml, mh, bi as int, bj as int) && bi <= x && bk == seeded(ga, gb, gl, ml, bi as int, bj as int),
            bk > 0 ==> forall|p: int, q: int| in_window(gl, gh, ml, mh, p, q) && scanned_before(p, q, bi as int, bj as int) ==> #[trigger] seeded(ga, gb, gl, ml, p, q) < bk,
        decreases ahi - x,
    {
        let nx = x + 1;
        let mut next: Vec<usize> = Vec::new();
        next.push(0);
        proof {
            assert(seeded(ga, gb, gl, ml, nx as int, ml) == 0);
            assert forall|p: int, q: int| in_window(gl, gh, ml, mh, p, q) && scanned_before(p, q, nx as int, blo + 1) implies #[trigger] seeded(ga, gb, gl, ml, p, q) <= bk by {
                assert(p <= x);
            }
        }
        let mut y: usize = blo;
        while y < bhi
            invariant
                window(ga, gb, gl, gh, ml, mh),
                ga == a@,
                gb == b@,
                gl == alo,
                gh == ahi,
                ml == blo,
                mh == bhi,
                pop@.len() == b@.len(),
                forall|j: int| 0 <= j < b@.len() ==> #[trigger] pop@[j] == popular(b@, b@[j]),
                alo <= x < ahi,
                nx == x + 1,
                blo <= y <= bhi,
                row@.len() == bhi - blo + 1,
                forall|t: int| 0 <= t < row@.len() ==> #[trigger] row@[t] == seeded(ga, gb, gl, ml, x as int, ml + t),
                next@.len() == y - blo + 1,
                forall|t: int| 0 <= t < next@.len() ==> #[trigger] next@[t] == seeded(ga, gb, gl, ml, nx as int, ml + t),
                forall|p: int, q: int| in_window(gl, gh, ml, mh, p, q) && scanned_before(p, q, nx as int, y + 1) ==> #[trigger] seeded(ga, gb, gl, ml, p, q) <= bk,
                bk > 0 ==> in_window(gl, gh, ml, mh, bi as int, bj as int) && scanned_before(bi as int, bj as int, nx as int, y + 1) && bk == seeded(ga, gb, gl, ml, bi as int, bj as int),
                bk > 0 ==> forall|p: int, q: int| in_window(gl, gh, ml, mh, p, q) && scanned_before(p, q, bi as int, bj as int) ==> #[trigger] seeded(ga, gb, gl, ml, p, q) < bk,
            decreases bhi - y,
        {
            proof {
                lemma_seeded(ga, gb, gl, ml, x as int, y as int);
            }
            let run = if a[x] == b[y] && !pop[y] {
                row[y - blo] + 1
            } else {
                0
            };
            proof {
                assert(row@[y - blo] == seeded(ga, gb, gl, ml, x as int, y as int));
                assert(run == seeded(ga, gb, gl, ml, nx as int, y + 1));
            }
            let ghost old_bk = bk;
            if run > bk {
                bi = nx;
                bj = y + 1;
                bk = run;
            }
            next.push(run);
            proof {
                assert forall|p: int, q: int| in_window(gl, gh, ml, mh, p, q) && scanned_before(p, q, nx as int, y + 2) implies #[trigger] seeded(ga, gb, gl, ml, p, q) <= bk by {
                    if !scanned_before(p, q, nx as int, y + 1) {
                        assert(p == nx && q == y + 1);
                    }
                }
            }
            y = y + 1;
        }
        proof {
            assert forall|p: int, q: int| in_window(gl, gh, ml, mh, p, q) && p <= nx implies #[trigger] seeded(ga, gb, gl, ml, p, q) <= bk by {
                assert(scanned_before(p, q, nx as int, bhi + 1));
            }
        }
        row = next;
        x = nx;
    }
    proof {
        if bk == 0 {
            assert forall|i: int, j: int| !#[trigger] best_end(ga, gb, gl, gh, ml, mh, i, j) by {
                if in_window(gl, gh, ml, mh, i, j) {
                    assert(seeded(ga, gb, gl, ml, i, j) <= bk);
                }
            }
        } else {
            assert forall|p: int, q: int| in_window(gl, gh, ml, mh, p, q) implies #[trigger] seeded(ga, gb, gl, ml, p, q) <= bk by {
                assert(p <= x);
            }
        }
    }
    (bi, bj, bk)
}

/// The longest match of the window as (start in `a`, start in `b`, length).
fn longest_match(
    a: &[char],
    b: &[char],
    pop: &[bool],
    alo: usize,
    ahi: usize,
    blo: usize,
    bhi: usize,
) -> (r: (usize, usize, usize))
    requires
        window(a@, b@, alo as int, ahi as int, blo as int, bhi as int),
        pop@.len() == b@.len(),
        forall|j: int| 0 <= j < b@.len() ==> #[trigger] pop@[j] == popular(b@, b@[j]),
    ensures
        (r.0 as int, r.1 as int, r.2 as int) == longest(a@, b@, alo as int, ahi as int, blo as int, bhi as int),
{
    let ghost (ga, gb, gl, gh, ml, mh) = (a@, b@, alo as int, ahi as int, blo as int, bhi as int);
    let (ei, ej, k) = longest_seed(a, b, pop, alo, ahi, blo, bhi);
    proof {
        if k > 0 {
            lemma_seeded(ga, gb, gl, ml, ei as int, ej as int);
            let (x, y) = choose|x: int, y: int| #[trigger] best_end(ga, gb, gl, gh, ml, mh, x, y);
            lemma_best_unique(ga, gb, gl, gh, ml, mh, ei as int, ej as int, x, y);
        }
    }
    let (mut i, mut j) = if k > 0 {
        (ei - k, ej - k)
    } else {
        (alo, blo)
    };
    assert((i as int, j as int, k as int) == seed(ga, gb, gl, gh, ml, mh));
    let ghost (si, sj) = (i as int, j as int);
    let mut size = k;
    proof {
        lemma_equal_back(ga, gb, gl, ml, si, sj);
        lemma_equal_ahead(ga, gb, gh, mh, si + k, sj + k);
    }
    while i > alo && j > blo && a[i - 1] == b[j - 1]
        invariant
            ga == a@,
            gb == b@,
            window(ga, gb, gl, gh, ml, mh),
            gl == alo,
            ml == blo,
            alo <= i <= si,
            blo <= j <= sj,
            si - i == sj - j,
            si + k <= gh,
            sj + k <= mh,
            size == k + (si - i),
            equal_back(ga, gb, gl, ml, si, sj) == (si - i) + equal_back(ga, gb, gl, ml, i as int, j as int),
        decreases i,
    {
        i = i - 1;
        j = j - 1;
        size = size + 1;
    }
    let ghost (fi, fj) = (si + k, sj + k);
    while i + size < ahi && j + size < bhi && a[i + size] == b[j + size]
        invariant
            ga == a@,
            gb == b@,
            window(ga, gb, gl, gh, ml, mh),
            gh == ahi,
            mh == bhi,
            fi <= i + size <= ahi,
            fj <= j + size <= bhi,
            i + size - fi == j + size - fj,
            equal_ahead(ga, gb, gh, mh, fi, fj) == (i + size - fi) + equal_ahead(ga, gb, gh, mh, i + size, j + size),
        decreases ahi - i - size,
    {
        size = size + 1;
    }
    (i, j, size)
}

/// The matches `difflib` finds in the window, in order: the longest match,
/// then the same search on each side of it.
pub open spec fn blocks(a: Seq<char>, b: Seq<char>, alo: int, ahi: int, blo: int, bhi: int) -> Seq<(int, int, int)>
    decreases ahi - alo,
    when window(a, b, alo, ahi, blo, bhi)
{
    let (i, j, k) = longest(a, b, alo, ahi, blo, bhi);
    if k <= 0 {
        Seq::empty()
    } else {
        proof {
            lemma_longest(a, b, alo, ahi, blo, bhi);
        }
        (if alo < i && blo < j {
            blocks(a, b, alo, i, blo, j)
        } else {
            Seq::empty()
        }) + seq![(i, j, k)] + (if i + k < ahi && j + k < bhi {
            blocks(a, b, i + k, ahi, j + k, bhi)
        } else {
            Seq::empty()
        })
    }
}

/// A sequence of matches with its positions as integers.
pub open spec fn triples(s: Seq<(usize, usize, usize)>) -> Seq<(int, int, int)> {
    s.map_values(|t: (usize, usize, usize)| (t.0 as int, t.1 as int, t.2 as int))
}

proof fn lemma_triples_push(s: Seq<(usize, usize, usize)>, t: (usize, usize, usize))
    ensures
        triples(s.push(t)) == triples(s).push((t.0 as int, t.1 as int, t.2 as int)),
{
    assert(triples(s.push(t)) =~= triples(s).push((t.0 as int, t.1 as int, t.2 as int)));
}

/// Append the matches of the window to `out`.
fn collect_blocks(
    a: &[char],
    b: &[char],
    pop: &[bool],
    alo: usize,
    ahi: usize,
    blo: usize,
    bhi: usize,
    out: &mut Vec<(usize, usize, usize)>,
)
    requires
        window(a@, b@, alo as int, ahi as int, blo as int, bhi as int),
        pop@.len() == b@.len(),
        forall|j: int| 0 <= j < b@.len() ==> #[trigger] pop@[j] == popular(b@, b@[j]),
    ensures
        triples(final(out)@) == triples(old(out)@) + blocks(a@, b@, alo as int, ahi as int, blo as int, bhi as int),
    decreases ahi - alo,
{
    let ghost before = out@;
    let (i, j, k) = longest_match(a, b, pop, alo, ahi, blo, bhi);
    proof {
        lemma_longest(a@, b@, alo as int, ahi as int, blo as int, bhi as int);
    }
    if k == 0 {
        assert(triples(out@) =~= triples(before) + Seq::<(int, int, int)>::empty());
        return;
    }
    let ghost left: Seq<(int, int, int)> = if alo < i && blo < j {
        blocks(a@, b@, alo as int, i as int, blo as int, j as int)
    } else {
        Seq::empty()
    };
    let ghost right: Seq<(int, int, int)> = if i + k < ahi && j + k < bhi {
        blocks(a@, b@, (i + k) as int, ahi as int, (j + k) as int, bhi as int)
    } else {
        Seq::empty()
    };
    assert(blocks(a@, b@, alo as int, ahi as int, blo as int, bhi as int) == left + seq![(i as int, j as int, k as int)] + right);
    if alo < i && blo < j {
        collect_blocks(a, b, pop, alo, i, blo, j, out);
    }
    assert(triples(out@) == triples(before) + left);
    let ghost middle = out@;
    out.push((i, j, k));
    proof {
        lemma_triples_push(middle, (i, j, k));
    }
    if i + k < ahi && j + k < bhi {
        collect_blocks(a, b, pop, i + k, ahi, j + k, bhi, out);
    }
    assert(triples(out@) =~= triples(before) + (left + seq![(i as int, j as int, k as int)] + right));
}

/// Whether each match of `m` ends before the next one starts, on both sides.
pub open spec fn ordered(m: Seq<(int, int, int)>) -> bool {
    forall|p: int, q: int|
        0 <= p < q < m.len() ==> #[trigger] m[p].0 + m[p].2 <= #[trigger] m[q].0 && m[p].1 + m[p].2 <= m[q].1
}

/// Whether every match of `m` lies in the window, is not empty, and pairs
/// equal characters.
pub open spec fn inside(a: Seq<char>, b: Seq<char>, m: Seq<(int, int, int)>, alo: int, ahi: int, blo: int, bhi: int) -> bool {
    forall|p: int|
        0 <= p < m.len() ==> {
            &&& alo <= (#[trigger] m[p]).0
            &&& m[p].0 + m[p].2 <= ahi
            &&& blo <= m[p].1
            &&& m[p].1 + m[p].2 <= bhi
            &&& m[p].2 > 0
            &&& same_span(a, b, m[p].0, m[p].1, m[p].2)
        }
}

proof fn lemma_join(
    a: Seq<char>,
    b: Seq<char>,
    left: Seq<(int, int, int)>,
    right: Seq<(int, int, int)>,
    alo: int,
    ahi: int,
    blo: int,
    bhi: int,
    i: int,
    j: int,
    k: int,
)
    requires
        alo <= i,
        i + k <= ahi,
        blo <= j,
        j + k <= bhi,
        k > 0,
        same_span(a, b, i, j, k),
        ordered(left),
        ordered(right),
        inside(a, b, left, alo, i, blo, j),
        inside(a, b, right, i + k, ahi, j + k, bhi),
    ensures
        ordered(left + seq![(i, j, k)] + right),
        inside(a, b, left + seq![(i, j, k)] + right, alo, ahi, blo, bhi),
{
    let m = left + seq![(i, j, k)] + right;
    let n = left.len() as int;
    assert forall|p: int| 0 <= p < m.len() implies #[trigger] m[p] == if p < n {
        left[p]
    } else if p == n {
        (i, j, k)
    } else {
        right[p - n - 1]
    } by {}
    assert forall|p: int, q: int| 0 <= p < q < m.len() implies #[trigger] m[p].0 + m[p].2 <= #[trigger] m[q].0 && m[p].1 + m[p].2 <= m[q].1 by {
        if q < n {
            assert(left[p].0 + left[p].2 <= left[q].0);
        } else if q == n {
            assert(alo <= left[p].0);
        } else if p < n {
            assert(alo <= left[p].0);
            assert(i + k <= right[q - n - 1].0);
        } else if p == n {
            assert(i + k <= right[q - n - 1].0);
        } else {
            assert(right[p - n - 1].0 + right[p - n - 1].2 <= right[q - n - 1].0);
        }
    }
    assert forall|p: int| 0 <= p < m.len() implies {
        &&& alo <= (#[trigger] m[p]).0
        &&& m[p].0 + m[p].2 <= ahi
        &&& blo <= m[p].1
        &&& m[p].1 + m[p].2 <= bhi
        &&& m[p].2 > 0
        &&& same_span(a, b, m[p].0, m[p].1, m[p].2)
    } by {
        if p < n {
            assert(alo <= left[p].0);
        } else if p > n {
            assert(i + k <= right[p - n - 1].0);
        }
    }
}

/// The matches of a window are in order, inside it, and on equal characters.
pub proof fn lemma_blocks(a: Seq<char>, b: Seq<char>, alo: int, ahi: int, blo: int, bhi: int)
    requires
        window(a, b, alo, ahi, blo, bhi),
    ensures
        ordered(blocks(a, b, alo, ahi, blo, bhi)),
        inside(a, b, blocks(a, b, alo, ahi, blo, bhi), alo, ahi, blo, bhi),
    decreases ahi - alo,
{
    let (i, j, k) = longest(a, b, alo, ahi, blo, bhi);
    lemma_longest(a, b, alo, ahi, blo, bhi);
    if k > 0 {
        let left: Seq<(int, int, int)> = if alo < i && blo < j {
            lemma_blocks(a, b, alo, i, blo, j);
            blocks(a, b, alo, i, blo, j)
        } else {
            Seq::empty()
        };
        let right: Seq<(int, int, int)> = if i + k < ahi && j + k < bhi {
            lemma_blocks(a, b, i + k, ahi, j + k, bhi);
            blocks(a, b, i + k, ahi, j + k, bhi)
        } else {
            Seq::empty()
        };
        lemma_join(a, b, left, right, alo, ahi, blo, bhi, i, j, k);
        assert(blocks(a, b, alo, ahi, blo, bhi) == left + seq![(i, j, k)] + right);
    }
}

/// The matches with each run of adjacent ones joined, and the run still open.
pub open spec fn merge_fold(m: Seq<(int, int, int)>) -> (Seq<(int, int, int)>, (int, int, int))
    decreases m.len(),
{
    if m.len() == 0 {
        (Seq::empty(), (0, 0, 0))
    } else {
        let (done, run) = merge_fold(m.drop_last());
        let block = m.last();
        if run.0 + run.2 == block.0 && run.1 + run.2 == block.1 {
            (done, (run.0, run.1, run.2 + block.2))
        } else if run.2 > 0 {
            (done.push(run), block)
        } else {
            (done, block)
        }
    }
}

/// The matches with each run of adjacent ones joined into one.
pub open spec fn merged(m: Seq<(int, int, int)>) -> Seq<(int, int, int)> {
    let (done, run) = merge_fold(m);
    if run.2 > 0 {
        done.push(run)
    } else {
        done
    }
}

/// `difflib`'s matching blocks of two texts: the matches, adjacent ones
/// joined, closed by the empty match at both ends.
pub open spec fn matching(a: Seq<char>, b: Seq<char>) -> Seq<(int, int, int)> {
    merged(blocks(a, b, 0, a.len() as int, 0, b.len() as int)).push((a.len() as int, b.len() as int, 0))
}

proof fn lemma_merge_fold(a: Seq<char>, b: Seq<char>, m: Seq<(int, int, int)>)
    requires
        ordered(m),
        inside(a, b, m, 0, a.len() as int, 0, b.len() as int),
    ensures
        ({
            let (done, run) = merge_fold(m);
            &&& ordered(done)
            &&& inside(a, b, done, 0, a.len() as int, 0, b.len() as int)
            &&& forall|p: int| 0 <= p < done.len() ==> (#[trigger] done[p]).0 + done[p].2 <= run.0 && done[p].1 + done[p].2 <= run.1
            &&& m.len() == 0 ==> run == (0int, 0int, 0int)
            &&& m.len() > 0 ==> {
                &&& 0 <= run.0
                &&& 0 <= run.1
                &&& run.2 > 0
                &&& run.0 + run.2 == m.last().0 + m.last().2
                &&& run.1 + run.2 == m.last().1 + m.last().2
                &&& same_span(a, b, run.0, run.1, run.2)
            }
        }),
    decreases m.len(),
{
    if m.len() > 0 {
        let rest = m.drop_last();
        assert(ordered(rest)) by {
            assert forall|p: int, q: int| 0 <= p < q < rest.len() implies #[trigger] rest[p].0 + rest[p].2 <= #[trigger] rest[q].0 && rest[p].1 + rest[p].2 <= rest[q].1 by {
                assert(rest[p] == m[p] && rest[q] == m[q]);
            }
        }
        assert(inside(a, b, rest, 0, a.len() as int, 0, b.len() as int)) by {
            assert forall|p: int| 0 <= p < rest.len() implies #[trigger] rest[p] == m[p] by {}
        }
        lemma_merge_fold(a, b, rest);
        let (done, run) = merge_fold(rest);
        let block = m.last();
        let last = m.len() - 1;
        assert(m[last] == block);
        if rest.len() > 0 {
            assert(rest.last() == m[last - 1]);
            assert(m[last - 1].0 + m[last - 1].2 <= m[last].0);
        }
        if run.0 + run.2 == block.0 && run.1 + run.2 == block.1 {
            let merged_run = (run.0, run.1, run.2 + block.2);
            assert(same_span(a, b, merged_run.0, merged_run.1, merged_run.2)) by {
                assert forall|x: int| merged_run.0 <= x < merged_run.0 + merged_run.2 implies #[trigger] a[x] == b[x - merged_run.0 + merged_run.1] by {
                    if x >= run.0 + run.2 {
                        assert(a[x] == b[x - block.0 + block.1]);
                    }
                }
            }
        } else if run.2 > 0 {
            let pushed = done.push(run);
            assert(ordered(pushed)) by {
                assert forall|p: int, q: int| 0 <= p < q < pushed.len() implies #[trigger] pushed[p].0 + pushed[p].2 <= #[trigger] pushed[q].0 && pushed[p].1 + pushed[p].2 <= pushed[q].1 by {
                    if q == done.len() {
                        assert(done[p].0 + done[p].2 <= run.0);
                    } else {
                        assert(pushed[p] == done[p] && pushed[q] == done[q]);
                    }
                }
            }
            assert forall|p: int| 0 <= p < pushed.len() implies (#[trigger] pushed[p]).0 + pushed[p].2 <= block.0 && pushed[p].1 + pushed[p].2 <= block.1 by {
                if p < done.len() {
                    assert(done[p].0 + done[p].2 <= run.0);
                }
            }
        }
    }
}

/// The matching blocks are in order, on equal characters, and closed by the
/// empty match at the ends of both texts.
pub proof fn lemma_matching(a: Seq<char>, b: Seq<char>)
    ensures
        ordered(matching(a, b)),
        matching(a, b).len() > 0,
        matching(a, b).last() == (a.len() as int, b.len() as int, 0int),
        inside(a, b, matching(a, b).drop_last(), 0, a.len() as int, 0, b.len() as int),
{
    let la = a.len() as int;
    let lb = b.len() as int;
    lemma_blocks(a, b, 0, la, 0, lb);
    let m = blocks(a, b, 0, la, 0, lb);
    lemma_merge_fold(a, b, m);
    let (done, run) = merge_fold(m);
    let g = merged(m);
    if m.len() > 0 {
        let last = m.len() - 1;
        assert(m[last] == m.last());
        assert(m[last].0 + m[last].2 <= la);
    }
    assert(ordered(g) && inside(a, b, g, 0, la, 0, lb)) by {
        if run.2 > 0 {
            assert forall|p: int, q: int| 0 <= p < q < g.len() implies #[trigger] g[p].0 + g[p].2 <= #[trigger] g[q].0 && g[p].1 + g[p].2 <= g[q].1 by {
                if q == done.len() {
                    assert(done[p].0 + done[p].2 <= run.0);
                } else {
                    assert(g[p] == done[p] && g[q] == done[q]);
                }
            }
        }
    }
    let full = g.push((la, lb, 0));
    assert(full.drop_last() =~= g);
    assert forall|p: int, q: int| 0 <= p < q < full.len() implies #[trigger] full[p].0 + full[p].2 <= #[trigger] full[q].0 && full[p].1 + full[p].2 <= full[q].1 by {
        if q < g.len() {
            assert(full[p] == g[p] && full[q] == g[q]);
        } else {
            assert(full[p] == g[p]);
        }
    }
}

/// Whether every match of `m` ends inside texts of lengths `la` and `lb`.
pub open spec fn bounded(m: Seq<(int, int, int)>, la: int, lb: int) -> bool {
    forall|p: int|
        0 <= p < m.len() ==> 0 <= (#[trigger] m[p]).2 && m[p].0 + m[p].2 <= la && m[p].1 + m[p].2 <= lb
}

/// The matches with each run of adjacent ones joined into one.
fn merge_runs(found: &Vec<(usize, usize, usize)>, la: usize, lb: usize) -> (r: Vec<(usize, usize, usize)>)
    requires
        bounded(triples(found@), la as int, lb as int),
    ensures
        triples(r@) == merged(triples(found@)),
{
    let ghost m = triples(found@);
    let mut merged: Vec<(usize, usize, usize)> = Vec::new();
    let (mut ri, mut rj, mut rk) = (0usize, 0usize, 0usize);
    let mut n: usize = 0;
    proof {
        assert(m.take(0) =~= Seq::<(int, int, int)>::empty());
        assert(triples(merged@) =~= Seq::<(int, int, int)>::empty());
    }
    while n < found.len()
        invariant
            m == triples(found@),
            bounded(m, la as int, lb as int),
            n <= found@.len(),
            (triples(merged@), (ri as int, rj as int, rk as int)) == merge_fold(m.take(n as int)),
            ri + rk <= la,
            rj + rk <= lb,
        decreases found@.len() - n,
    {
        let (bi, bj, bk) = found[n];
        proof {
            assert(m[n as int] == (bi as int, bj as int, bk as int));
            assert(m.take(n + 1).drop_last() =~= m.take(n as int));
            assert(m.take(n + 1).last() == m[n as int]);
        }
        if ri + rk == bi && rj + rk == bj {
            rk = rk + bk;
        } else {
            if rk > 0 {
                let ghost before = merged@;
                merged.push((ri, rj, rk));
                proof {
                    lemma_triples_push(before, (ri, rj, rk));
                }
            }
            ri = bi;
            rj = bj;
            rk = bk;
        }
        n = n + 1;
    }
    proof {
        assert(m.take(found@.len() as int) =~= m);
    }
    if rk > 0 {
        let ghost before = merged@;
        merged.push((ri, rj, rk));
        proof {
            lemma_triples_push(before, (ri, rj, rk));
        }
    }
    merged
}

/// `difflib`'s matching blocks of two texts, as (start in `a`, start in `b`,
/// length).
fn matching_blocks(a: &[char], b: &[char]) -> (r: Vec<(usize, usize, usize)>)
    ensures
        triples(r@) == matching(a@, b@),
{
    let pop = popularity(b);
    let mut found: Vec<(usize, usize, usize)> = Vec::new();
    collect_blocks(a, b, &pop, 0, a.len(), 0, b.len(), &mut found);
    proof {
        let m = triples(found@);
        assert(triples(Seq::<(usize, usize, usize)>::empty()) =~= Seq::<(int, int, int)>::empty());
        assert(m =~= blocks(a@, b@, 0, a@.len() as int, 0, b@.len() as int));
        lemma_blocks(a@, b@, 0, a@.len() as int, 0, b@.len() as int);
        assert forall|p: int| 0 <= p < m.len() implies 0 <= (#[trigger] m[p]).2 && m[p].0 + m[p].2 <= a.len() && m[p].1 + m[p].2 <= b.len() by {}
    }
    let mut merged = merge_runs(&found, a.len(), b.len());
    let ghost before = merged@;
    merged.push((a.len(), b.len(), 0));
    proof {
        lemma_triples_push(before, (a.len(), b.len(), 0));
    }
    merged
}

/// An opcode with its positions as integers.
pub open spec fn op_view(op: Opcode) -> (Tag, int, int, int, int) {
    (op.tag, op.i1 as int, op.i2 as int, op.j1 as int, op.j2 as int)
}

/// A sequence of opcodes with their positions as integers.
pub open spec fn ops_view(ops: Seq<Opcode>) -> Seq<(Tag, int, int, int, int)> {
    ops.map_values(|op: Opcode| op_view(op))
}

/// The opcodes of the matching blocks seen so far, and where they stopped in
/// each text.
pub open spec fn opcode_fold(m: Seq<(int, int, int)>) -> (Seq<(Tag, int, int, int, int)>, int, int)
    decreases m.len(),
{
    if m.len() == 0 {
        (Seq::empty(), 0, 0)
    } else {
        let (ops, i, j) = opcode_fold(m.drop_last());
        let (bi, bj, size) = m.last();
        let gap = if i < bi && j < bj {
            ops.push((Tag::Replace, i, bi, j, bj))
        } else if i < bi {
            ops.push((Tag::Delete, i, bi, j, bj))
        } else if j < bj {
            ops.push((Tag::Insert, i, bi, j, bj))
        } else {
            ops
        };
        let all = if size > 0 {
            gap.push((Tag::Equal, bi, bi + size, bj, bj + size))
        } else {
            gap
        };
        (all, bi + size, bj + size)
    }
}

/// How to turn `a` into `b`, as `difflib.SequenceMatcher.get_opcodes` puts it.
pub open spec fn opcode_list(a: Seq<char>, b: Seq<char>) -> Seq<(Tag, int, int, int, int)> {
    opcode_fold(matching(a, b)).0
}

proof fn lemma_ops_push(ops: Seq<Opcode>, op: Opcode)
    ensures
        ops_view(ops.push(op)) == ops_view(ops).push(op_view(op)),
{
    assert(ops_view(ops.push(op)) =~= ops_view(ops).push(op_view(op)));
}

/// How to turn `a` into `b`, as `difflib.SequenceMatcher.get_opcodes` puts it.
#[must_use]
pub fn opcodes(a: &[char], b: &[char]) -> (r: Vec<Opcode>)
    ensures
        ops_view(r@) == opcode_list(a@, b@),
{
    let blocks = matching_blocks(a, b);
    let ghost m = triples(blocks@);
    proof {
        lemma_matching(a@, b@);
    }
    let (mut i, mut j) = (0usize, 0usize);
    let mut answer: Vec<Opcode> = Vec::new();
    let mut n: usize = 0;
    proof {
        assert(m.take(0) =~= Seq::<(int, int, int)>::empty());
        assert(ops_view(answer@) =~= Seq::<(Tag, int, int, int, int)>::empty());
    }
    while n < blocks.len()
        invariant
            m == triples(blocks@),
            m == matching(a@, b@),
            ordered(m),
            m.len() > 0,
            m.last() == (a@.len() as int, b@.len() as int, 0int),
            inside(a@, b@, m.drop_last(), 0, a@.len() as int, 0, b@.len() as int),
            n <= blocks@.len(),
            (ops_view(answer@), i as int, j as int) == opcode_fold(m.take(n as int)),
        decreases blocks@.len() - n,
    {
        let (bi, bj, size) = blocks[n];
        proof {
            assert(m[n as int] == (bi as int, bj as int, size as int));
            assert(m.take(n + 1).drop_last() =~= m.take(n as int));
            assert(m.take(n + 1).last() == m[n as int]);
            if n + 1 < m.len() {
                assert(m.drop_last()[n as int] == m[n as int]);
            } else {
                assert(m[n as int] == m.last());
            }
        }
        if i < bi || j < bj {
            let tag = if i < bi && j < bj {
                Tag::Replace
            } else if i < bi {
                Tag::Delete
            } else {
                Tag::Insert
            };
            let op = Opcode { tag, i1: i, i2: bi, j1: j, j2: bj };
            let ghost before = answer@;
            answer.push(op);
            proof {
                lemma_ops_push(before, op);
            }
        }
        i = bi + size;
        j = bj + size;
        if size > 0 {
            let op = Opcode { tag: Tag::Equal, i1: bi, i2: i, j1: bj, j2: j };
            let ghost before = answer@;
            answer.push(op);
            proof {
                lemma_ops_push(before, op);
            }
        }
        n = n + 1;
    }
    proof {
        assert(m.take(blocks@.len() as int) =~= m);
    }
    answer
}

/// Whether an opcode over `a` and `b` says what its tag says: a non-empty
/// span of each side it names, and equal characters where it says `Equal`.
pub open spec fn sound_op(a: Seq<char>, b: Seq<char>, op: (Tag, int, int, int, int)) -> bool {
    let (tag, i1, i2, j1, j2) = op;
    &&& 0 <= i1 <= i2 <= a.len()
    &&& 0 <= j1 <= j2 <= b.len()
    &&& match tag {
        Tag::Equal => i1 < i2 && i2 - i1 == j2 - j1 && same_span(a, b, i1, j1, i2 - i1),
        Tag::Replace => i1 < i2 && j1 < j2,
        Tag::Delete => i1 < i2 && j1 == j2,
        Tag::Insert => i1 == i2 && j1 < j2,
    }
}

/// Whether each opcode starts, on both sides, where the one before it ended.
pub open spec fn adjacent(ops: Seq<(Tag, int, int, int, int)>) -> bool {
    forall|p: int, q: int|
        0 <= p && q == p + 1 && q < ops.len() ==> #[trigger] ops[p].2 == #[trigger] ops[q].1 && ops[p].4 == ops[q].3
}

/// Whether opcodes run end to end from the start of both texts to `(i, j)`,
/// each one sound.
pub open spec fn covers(a: Seq<char>, b: Seq<char>, ops: Seq<(Tag, int, int, int, int)>, i: int, j: int) -> bool {
    &&& ops.len() == 0 ==> i == 0 && j == 0
    &&& ops.len() > 0 ==> ops[0].1 == 0 && ops[0].3 == 0 && ops.last().2 == i && ops.last().4 == j
    &&& adjacent(ops)
    &&& forall|k: int| 0 <= k < ops.len() ==> sound_op(a, b, #[trigger] ops[k])
}

proof fn lemma_covers_push(
    a: Seq<char>,
    b: Seq<char>,
    ops: Seq<(Tag, int, int, int, int)>,
    i: int,
    j: int,
    op: (Tag, int, int, int, int),
)
    requires
        covers(a, b, ops, i, j),
        op.1 == i,
        op.3 == j,
        sound_op(a, b, op),
    ensures
        covers(a, b, ops.push(op), op.2, op.4),
{
    let next = ops.push(op);
    assert forall|p: int, q: int| 0 <= p && q == p + 1 && q < next.len() implies #[trigger] next[p].2 == #[trigger] next[q].1 && next[p].4 == next[q].3 by {
        if q < ops.len() {
            assert(next[p] == ops[p] && next[q] == ops[q]);
        } else {
            assert(next[p] == ops.last());
        }
    }
    assert forall|k: int| 0 <= k < next.len() implies sound_op(a, b, #[trigger] next[k]) by {
        if k < ops.len() {
            assert(next[k] == ops[k]);
        }
    }
}

proof fn lemma_opcode_fold(a: Seq<char>, b: Seq<char>, m: Seq<(int, int, int)>, n: int)
    requires
        ordered(m),
        m.len() > 0,
        m.last() == (a.len() as int, b.len() as int, 0int),
        inside(a, b, m.drop_last(), 0, a.len() as int, 0, b.len() as int),
        0 <= n <= m.len(),
    ensures
        ({
            let (ops, i, j) = opcode_fold(m.take(n));
            &&& covers(a, b, ops, i, j)
            &&& n == 0 ==> i == 0 && j == 0
            &&& n > 0 ==> i == m[n - 1].0 + m[n - 1].2 && j == m[n - 1].1 + m[n - 1].2
        }),
    decreases n,
{
    if n > 0 {
        lemma_opcode_fold(a, b, m, n - 1);
        let prefix = m.take(n);
        assert(prefix.drop_last() =~= m.take(n - 1));
        assert(prefix.last() == m[n - 1]);
        let (ops, i, j) = opcode_fold(m.take(n - 1));
        let (bi, bj, size) = m[n - 1];
        let last = m.len() - 1;
        assert(m[last] == m.last());
        if n - 1 < last {
            assert(m.drop_last()[n - 1] == m[n - 1]);
            assert(m[n - 1].0 + m[n - 1].2 <= m[last].0);
        }
        if n > 1 {
            assert(m[n - 2].0 + m[n - 2].2 <= m[n - 1].0 && m[n - 2].1 + m[n - 2].2 <= m[n - 1].1);
        }
        assert(i <= bi && j <= bj);
        let gap = if i < bi && j < bj {
            lemma_covers_push(a, b, ops, i, j, (Tag::Replace, i, bi, j, bj));
            ops.push((Tag::Replace, i, bi, j, bj))
        } else if i < bi {
            lemma_covers_push(a, b, ops, i, j, (Tag::Delete, i, bi, j, bj));
            ops.push((Tag::Delete, i, bi, j, bj))
        } else if j < bj {
            lemma_covers_push(a, b, ops, i, j, (Tag::Insert, i, bi, j, bj));
            ops.push((Tag::Insert, i, bi, j, bj))
        } else {
            ops
        };
        assert(covers(a, b, gap, bi, bj));
        if size > 0 {
            assert(n - 1 < last);
            lemma_covers_push(a, b, gap, bi, bj, (Tag::Equal, bi, bi + size, bj, bj + size));
        }
    }
}

proof fn lemma_adjacent_monotone(a: Seq<char>, b: Seq<char>, ops: Seq<(Tag, int, int, int, int)>, p: int, q: int)
    requires
        adjacent(ops),
        forall|k: int| 0 <= k < ops.len() ==> sound_op(a, b, #[trigger] ops[k]),
        0 <= p < q < ops.len(),
    ensures
        ops[p].2 <= ops[q].1,
        ops[p].4 <= ops[q].3,
    decreases q - p,
{
    let r = q - 1;
    assert(ops[r].2 == ops[q].1 && ops[r].4 == ops[q].3);
    if p < r {
        lemma_adjacent_monotone(a, b, ops, p, r);
        assert(sound_op(a, b, ops[r]));
    }
}

/// The opcodes cover both texts end to end: they run from the start of both
/// to the end of both, each where the last one stopped, in order, and each says
/// what its tag says, with equal characters under every `Equal`.
pub proof fn law_opcodes_cover(a: Seq<char>, b: Seq<char>)
    ensures
        ({
            let ops = opcode_list(a, b);
            &&& ops.len() == 0 <==> a.len() == 0 && b.len() == 0
            &&& ops.len() > 0 ==> ops[0].1 == 0 && ops[0].3 == 0 && ops.last().2 == a.len() && ops.last().4 == b.len()
            &&& adjacent(ops)
            &&& forall|k: int| 0 <= k < ops.len() ==> sound_op(a, b, #[trigger] ops[k])
            &&& forall|p: int, q: int| 0 <= p < q < ops.len() ==> #[trigger] ops[p].2 <= #[trigger] ops[q].1 && ops[p].4 <= ops[q].3
        }),
{
    let m = matching(a, b);
    lemma_matching(a, b);
    lemma_opcode_fold(a, b, m, m.len() as int);
    assert(m.take(m.len() as int) =~= m);
    let ops = opcode_list(a, b);
    if ops.len() > 0 {
        assert(sound_op(a, b, ops[0]));
    }
    assert forall|p: int, q: int| 0 <= p < q < ops.len() implies #[trigger] ops[p].2 <= #[trigger] ops[q].1 && ops[p].4 <= ops[q].3 by {
        lemma_adjacent_monotone(a, b, ops, p, q);
    }
}

/// The changes of an alignment, `Equal` spans dropped and each change that
/// starts within [`NEAR`] characters of the last one joined to it.
pub open spec fn near_fold(ops: Seq<(Tag, int, int, int, int)>) -> Seq<(Tag, int, int, int, int)>
    decreases ops.len(),
{
    if ops.len() == 0 {
        Seq::empty()
    } else {
        let done = near_fold(ops.drop_last());
        let op = ops.last();
        if op.0 == Tag::Equal {
            done
        } else if done.len() > 0 && op.1 - done.last().2 <= NEAR {
            done.drop_last().push((Tag::Replace, done.last().1, op.2, done.last().3, op.4))
        } else {
            done.push(op)
        }
    }
}

/// An excerpt with [`CONTEXT`] characters of `a` on either side of the span
/// `a[i1..i2]`, `mid` in its place, and an ellipsis where more was left out.
pub open spec fn in_context(a: Seq<char>, mid: Seq<char>, i1: int, i2: int) -> Seq<char> {
    let head = if i1 > CONTEXT {
        seq!['…']
    } else {
        Seq::empty()
    };
    let from = if i1 > CONTEXT {
        i1 - CONTEXT
    } else {
        0
    };
    let to = if i2 + CONTEXT < a.len() {
        i2 + CONTEXT
    } else {
        a.len() as int
    };
    let end = if i2 + CONTEXT < a.len() {
        seq!['…']
    } else {
        Seq::empty()
    };
    head + a.subrange(from, i1) + mid + a.subrange(i2, to) + end
}

/// The two lines one change is shown as, or nothing when what changed folds
/// away: whitespace, or the punctuation width the deterministic rules own.
pub open spec fn pair_of(a: Seq<char>, b: Seq<char>, op: (Tag, int, int, int, int)) -> Option<Seq<char>> {
    let old = a.subrange(op.1, op.2);
    let new = b.subrange(op.3, op.4);
    if fold_text(old) == fold_text(new) {
        None
    } else {
        Some(
            seq!['原', ' '] + flat_text(in_context(a, old, op.1, op.2)) + seq!['\n', '改', ' '] + flat_text(
                in_context(a, new, op.1, op.2),
            ),
        )
    }
}

/// The pairs of some changes, one blank line between one pair and the next.
pub open spec fn render_fold(a: Seq<char>, b: Seq<char>, ops: Seq<(Tag, int, int, int, int)>) -> Seq<char>
    decreases ops.len(),
{
    if ops.len() == 0 {
        Seq::empty()
    } else {
        let done = render_fold(a, b, ops.drop_last());
        match pair_of(a, b, ops.last()) {
            None => done,
            Some(pair) => if done.len() == 0 {
                pair
            } else {
                done + seq!['\n', '\n'] + pair
            },
        }
    }
}

/// Whether a line is flat: its only whitespace is single spaces between two
/// other characters, so it holds no line break, no two whitespace characters
/// in a row, and no whitespace at either end.
pub open spec fn flat_line(s: Seq<char>) -> bool {
    forall|k: int|
        0 <= k < s.len() && python_whitespace(#[trigger] s[k]) ==> s[k] == ' ' && 0 < k < s.len() - 1
            && !python_whitespace(s[k - 1]) && !python_whitespace(s[k + 1])
}

proof fn lemma_flat_fold(s: Seq<char>)
    ensures
        flat_line(flat_fold(s).0),
    decreases s.len(),
{
    if s.len() > 0 {
        lemma_flat_fold(s.drop_last());
        let (out, gap) = flat_fold(s.drop_last());
        let c = s.last();
        if !python_whitespace(c) {
            if gap && out.len() > 0 {
                let next = out.push(' ').push(c);
                assert(!python_whitespace(out[out.len() - 1]));
                assert forall|k: int| 0 <= k < next.len() && python_whitespace(#[trigger] next[k]) implies next[k]
                    == ' ' && 0 < k < next.len() - 1 && !python_whitespace(next[k - 1]) && !python_whitespace(
                    next[k + 1],
                ) by {
                    if k < out.len() {
                        assert(next[k] == out[k]);
                        assert(next[k - 1] == out[k - 1]);
                        assert(next[k + 1] == out[k + 1]);
                    }
                }
            } else {
                let next = out.push(c);
                assert forall|k: int| 0 <= k < next.len() && python_whitespace(#[trigger] next[k]) implies next[k]
                    == ' ' && 0 < k < next.len() - 1 && !python_whitespace(next[k - 1]) && !python_whitespace(
                    next[k + 1],
                ) by {
                    assert(next[k] == out[k]);
                    assert(next[k - 1] == out[k - 1]);
                    assert(next[k + 1] == out[k + 1]);
                }
            }
        }
    }
}

/// The two lines of each change a rewrite renders, in order: the excerpt as
/// it was and as it became.
pub open spec fn change_pairs(a: Seq<char>, b: Seq<char>, ops: Seq<(Tag, int, int, int, int)>) -> Seq<
    (Seq<char>, Seq<char>),
>
    decreases ops.len(),
{
    if ops.len() == 0 {
        Seq::empty()
    } else {
        let done = change_pairs(a, b, ops.drop_last());
        let op = ops.last();
        let old = a.subrange(op.1, op.2);
        let new = b.subrange(op.3, op.4);
        if fold_text(old) == fold_text(new) {
            done
        } else {
            done.push((flat_text(in_context(a, old, op.1, op.2)), flat_text(in_context(a, new, op.1, op.2))))
        }
    }
}

/// Pairs of lines laid out as [`changes`] lays them out: `原 ` and the first
/// line, a line break, `改 ` and the second, and a blank line between one
/// pair and the next.
pub open spec fn laid_out(pairs: Seq<(Seq<char>, Seq<char>)>) -> Seq<char>
    decreases pairs.len(),
{
    if pairs.len() == 0 {
        Seq::empty()
    } else {
        let done = laid_out(pairs.drop_last());
        let pair = seq!['原', ' '] + pairs.last().0 + seq!['\n', '改', ' '] + pairs.last().1;
        if pairs.len() == 1 {
            pair
        } else {
            done + seq!['\n', '\n'] + pair
        }
    }
}

proof fn lemma_render_fold_laid_out(a: Seq<char>, b: Seq<char>, ops: Seq<(Tag, int, int, int, int)>)
    ensures
        render_fold(a, b, ops) == laid_out(change_pairs(a, b, ops)),
        render_fold(a, b, ops).len() == 0 <==> change_pairs(a, b, ops).len() == 0,
        forall|k: int|
            0 <= k < change_pairs(a, b, ops).len() ==> flat_line(#[trigger] change_pairs(a, b, ops)[k].0)
                && flat_line(change_pairs(a, b, ops)[k].1),
    decreases ops.len(),
{
    if ops.len() > 0 {
        let rest = ops.drop_last();
        lemma_render_fold_laid_out(a, b, rest);
        let op = ops.last();
        let old = a.subrange(op.1, op.2);
        let new = b.subrange(op.3, op.4);
        lemma_flat_fold(in_context(a, old, op.1, op.2));
        lemma_flat_fold(in_context(a, new, op.1, op.2));
        let done = change_pairs(a, b, rest);
        if fold_text(old) != fold_text(new) {
            let pairs = done.push((flat_text(in_context(a, old, op.1, op.2)), flat_text(in_context(a, new, op.1, op.2))));
            assert(pairs.drop_last() =~= done);
            assert forall|k: int| 0 <= k < pairs.len() implies flat_line(#[trigger] pairs[k].0) && flat_line(
                pairs[k].1,
            ) by {
                if k < done.len() {
                    assert(pairs[k] == done[k]);
                }
            }
        }
    }
}

/// The shape of what [`changes`] renders: pairs of flat lines, the first after
/// `原 `, the second after `改 `, one blank line between one pair and the
/// next, and the whole trimmed. An empty rendering has no pair.
pub proof fn law_rendering_shape(before: Seq<char>, after: Seq<char>)
    ensures
        ({
            let pairs = change_pairs(before, after, near_fold(opcode_list(before, after)));
            &&& rendering(before, after) == crate::text::trim(laid_out(pairs))
            &&& forall|k: int| 0 <= k < pairs.len() ==> flat_line(#[trigger] pairs[k].0) && flat_line(pairs[k].1)
        }),
{
    lemma_render_fold_laid_out(before, after, near_fold(opcode_list(before, after)));
}

/// One pair of lines as [`changes`] lays it out.
pub open spec fn pair_lines(pair: (Seq<char>, Seq<char>)) -> Seq<char> {
    seq!['原', ' '] + pair.0 + seq!['\n', '改', ' '] + pair.1
}

/// Whether a text holds no two line feeds in a row.
pub open spec fn no_blank_line(s: Seq<char>) -> bool {
    forall|k: int| 0 <= k < s.len() - 1 ==> !(#[trigger] s[k] == '\n' && s[k + 1] == '\n')
}

proof fn lemma_single_piece(s: Seq<char>)
    requires
        no_blank_line(s),
    ensures
        pair_pieces(s) == 1,
    decreases s.len(),
{
    if s.len() >= 2 {
        assert(!(s[0] == '\n' && s[1] == '\n'));
        let rest = s.skip(1);
        assert forall|k: int| 0 <= k < rest.len() - 1 implies !(#[trigger] rest[k] == '\n' && rest[k + 1] == '\n') by {
            assert(rest[k] == s[k + 1] && rest[k + 1] == s[k + 2]);
        }
        lemma_single_piece(rest);
    }
}

proof fn lemma_pieces_split(x: Seq<char>, y: Seq<char>)
    requires
        x.len() == 0 || x.last() != '\n',
    ensures
        pair_pieces(x + seq!['\n', '\n'] + y) == pair_pieces(x) + pair_pieces(y),
    decreases x.len(),
{
    let sep = seq!['\n', '\n'];
    let whole = x + sep + y;
    let tail = sep + y;
    assert(tail[0] == '\n' && tail[1] == '\n');
    assert(tail.skip(2) =~= y);
    assert(pair_pieces(tail) == 1 + pair_pieces(y));
    if x.len() == 0 {
        assert(whole =~= tail);
    } else {
        assert(whole[0] == x[0]);
        if x.len() == 1 {
            assert(x[0] != '\n');
            assert(whole.skip(1) =~= tail);
            assert(pair_pieces(whole) == pair_pieces(whole.skip(1)));
            assert(pair_pieces(x) == 1);
        } else {
            assert(whole[1] == x[1]);
            if x[0] == '\n' && x[1] == '\n' {
                assert(whole.skip(2) =~= x.skip(2) + sep + y);
                if x.skip(2).len() > 0 {
                    assert(x.skip(2).last() == x.last());
                }
                lemma_pieces_split(x.skip(2), y);
                assert(pair_pieces(whole) == 1 + pair_pieces(whole.skip(2)));
                assert(pair_pieces(x) == 1 + pair_pieces(x.skip(2)));
            } else {
                assert(whole.skip(1) =~= x.skip(1) + sep + y);
                assert(x.skip(1).last() == x.last());
                lemma_pieces_split(x.skip(1), y);
                assert(pair_pieces(whole) == pair_pieces(whole.skip(1)));
                assert(pair_pieces(x) == pair_pieces(x.skip(1)));
            }
        }
    }
}

proof fn lemma_flat_has_no_line_feed(s: Seq<char>, k: int)
    requires
        flat_line(s),
        0 <= k < s.len(),
    ensures
        s[k] != '\n',
        k == s.len() - 1 ==> !python_whitespace(s[k]),
{
    if s[k] == '\n' {
        assert(python_whitespace(s[k]));
    }
}

proof fn lemma_pair_lines(pair: (Seq<char>, Seq<char>))
    requires
        flat_line(pair.0),
        flat_line(pair.1),
    ensures
        forall|n: int| 1 <= n <= pair_lines(pair).len() ==> no_blank_line(#[trigger] pair_lines(pair).take(n)),
        pair_lines(pair)[0] == '原',
        pair_lines(pair).last() != '\n',
{
    let p = pair_lines(pair);
    let m: int = 2 + pair.0.len() as int;
    assert forall|k: int| 0 <= k < p.len() && k != m implies p[k] != '\n' by {
        if 2 <= k < m {
            assert(p[k] == pair.0[k - 2]);
            lemma_flat_has_no_line_feed(pair.0, k - 2);
        } else if k > m + 2 {
            assert(p[k] == pair.1[k - m - 3]);
            lemma_flat_has_no_line_feed(pair.1, k - m - 3);
        }
    }
    assert(p[m + 1] == '改');
    assert forall|n: int| 1 <= n <= p.len() implies no_blank_line(#[trigger] p.take(n)) by {
        let t = p.take(n);
        assert forall|k: int| 0 <= k < t.len() - 1 implies !(#[trigger] t[k] == '\n' && t[k + 1] == '\n') by {
            assert(t[k] == p[k] && t[k + 1] == p[k + 1]);
        }
    }
}

proof fn lemma_trim_end_keeps_head(p: Seq<char>)
    requires
        p.len() > 0,
        !python_whitespace(p[0]),
    ensures
        0 < crate::text::trim_end(p).len() <= p.len(),
        crate::text::trim_end(p) =~= p.take(crate::text::trim_end(p).len() as int),
        !python_whitespace(crate::text::trim_end(p).last()),
    decreases p.len(),
{
    if python_whitespace(p.last()) {
        lemma_trim_end_keeps_head(p.drop_last());
        let t = crate::text::trim_end(p.drop_last());
        assert(t =~= p.take(t.len() as int));
    } else {
        assert(p.take(p.len() as int) =~= p);
    }
}

proof fn lemma_trim_end_after(x: Seq<char>, p: Seq<char>)
    requires
        p.len() > 0,
        !python_whitespace(p[0]),
    ensures
        crate::text::trim_end(x + p) == x + crate::text::trim_end(p),
    decreases p.len(),
{
    if python_whitespace(p.last()) {
        assert((x + p).last() == p.last());
        assert((x + p).drop_last() =~= x + p.drop_last());
        lemma_trim_end_after(x, p.drop_last());
    } else {
        assert((x + p).last() == p.last());
    }
}

/// How the pair lines of a rendering are counted and trimmed: a rendering with
/// pairs starts with `原` and does not end in a line feed, and the pair
/// separator cuts it, trimmed or not, into one piece per pair.
proof fn lemma_laid_out_pieces(pairs: Seq<(Seq<char>, Seq<char>)>)
    requires
        pairs.len() > 0,
        forall|k: int| 0 <= k < pairs.len() ==> flat_line(#[trigger] pairs[k].0) && flat_line(pairs[k].1),
    ensures
        laid_out(pairs)[0] == '原',
        laid_out(pairs).last() != '\n',
        pair_pieces(laid_out(pairs)) == pairs.len(),
        pair_pieces(crate::text::trim(laid_out(pairs))) == pairs.len(),
        crate::text::trim(laid_out(pairs)).len() > 0,
    decreases pairs.len(),
{
    let l = laid_out(pairs);
    let last = pairs.last();
    let p = pair_lines(last);
    assert(flat_line(last.0) && flat_line(last.1));
    lemma_pair_lines(last);
    assert(p.take(p.len() as int) =~= p);
    assert(no_blank_line(p.take(p.len() as int)));
    lemma_single_piece(p);
    assert(!python_whitespace('原'));
    lemma_trim_end_keeps_head(p);
    let t = crate::text::trim_end(p);
    assert(no_blank_line(p.take(t.len() as int)));
    lemma_single_piece(t);
    if pairs.len() == 1 {
        assert(l == p);
        assert(crate::text::trim_start(l) == l);
    } else {
        let rest = pairs.drop_last();
        assert forall|k: int| 0 <= k < rest.len() implies flat_line(#[trigger] rest[k].0) && flat_line(rest[k].1) by {
            assert(rest[k] == pairs[k]);
        }
        lemma_laid_out_pieces(rest);
        let d = laid_out(rest);
        assert(l == d + seq!['\n', '\n'] + p);
        assert(l[0] == d[0]);
        assert(l.last() == p.last());
        lemma_pieces_split(d, p);
        lemma_pieces_split(d, t);
        assert(crate::text::trim_start(l) == l);
        lemma_trim_end_after(d + seq!['\n', '\n'], p);
    }
    lemma_trim_end_keeps_head(l);
}

/// What [`count`] says of a rendering: one change per pair it holds.
pub proof fn law_rendering_count(before: Seq<char>, after: Seq<char>)
    ensures
        change_count(rendering(before, after)) == change_pairs(
            before,
            after,
            near_fold(opcode_list(before, after)),
        ).len(),
{
    let ops = near_fold(opcode_list(before, after));
    lemma_render_fold_laid_out(before, after, ops);
    let pairs = change_pairs(before, after, ops);
    if pairs.len() > 0 {
        assert forall|k: int| 0 <= k < pairs.len() implies flat_line(#[trigger] pairs[k].0) && flat_line(pairs[k].1) by {
            assert(flat_line(change_pairs(before, after, ops)[k].0));
        }
        lemma_laid_out_pieces(pairs);
    } else {
        assert(laid_out(pairs).len() == 0);
        assert(crate::text::trim(laid_out(pairs)) =~= Seq::<char>::empty());
    }
}

/// What [`changes`] renders for a rewrite of `before` into `after`.
pub open spec fn rendering(before: Seq<char>, after: Seq<char>) -> Seq<char> {
    crate::text::trim(render_fold(before, after, near_fold(opcode_list(before, after))))
}

/// Whether a change lies inside texts of lengths `la` and `lb`.
pub open spec fn spans(op: (Tag, int, int, int, int), la: int, lb: int) -> bool {
    0 <= op.1 <= op.2 <= la && 0 <= op.3 <= op.4 <= lb
}

/// The alignment's changes, the near ones joined.
fn near_changes(ops: &Vec<Opcode>, la: usize, lb: usize) -> (r: Vec<Opcode>)
    requires
        forall|k: int| 0 <= k < ops@.len() ==> spans(#[trigger] op_view(ops@[k]), la as int, lb as int),
        forall|p: int, q: int|
            0 <= p < q < ops@.len() ==> #[trigger] ops@[p].i2 <= #[trigger] ops@[q].i1 && ops@[p].j2 <= ops@[q].j1,
    ensures
        ops_view(r@) == near_fold(ops_view(ops@)),
        forall|k: int| 0 <= k < r@.len() ==> spans(#[trigger] op_view(r@[k]), la as int, lb as int),
{
    let ghost v = ops_view(ops@);
    let mut merged: Vec<Opcode> = Vec::new();
    let mut n: usize = 0;
    proof {
        assert(v.take(0) =~= Seq::<(Tag, int, int, int, int)>::empty());
        assert(ops_view(merged@) =~= Seq::<(Tag, int, int, int, int)>::empty());
    }
    while n < ops.len()
        invariant
            v == ops_view(ops@),
            forall|k: int| 0 <= k < ops@.len() ==> spans(#[trigger] op_view(ops@[k]), la as int, lb as int),
            forall|p: int, q: int|
                0 <= p < q < ops@.len() ==> #[trigger] ops@[p].i2 <= #[trigger] ops@[q].i1 && ops@[p].j2 <= ops@[q].j1,
            n <= ops@.len(),
            ops_view(merged@) == near_fold(v.take(n as int)),
            forall|k: int| 0 <= k < merged@.len() ==> spans(#[trigger] op_view(merged@[k]), la as int, lb as int),
            merged@.len() > 0 ==> exists|p: int| 0 <= p < n && merged@.last().i2 == (#[trigger] ops@[p]).i2 && merged@.last().j2 == ops@[p].j2,
        decreases ops@.len() - n,
    {
        let op = ops[n];
        proof {
            assert(v.take(n + 1).drop_last() =~= v.take(n as int));
            assert(v.take(n + 1).last() == op_view(op));
            assert(spans(op_view(ops@[n as int]), la as int, lb as int));
        }
        if op.tag != Tag::Equal {
            let last = merged.len();
            let join = if last > 0 {
                proof {
                    let p = choose|p: int| 0 <= p < n && merged@.last().i2 == (#[trigger] ops@[p]).i2 && merged@.last().j2 == ops@[p].j2;
                    assert(ops@[p].i2 <= ops@[n as int].i1);
                }
                op.i1 - merged[last - 1].i2 <= NEAR
            } else {
                false
            };
            let ghost before = merged@;
            if join {
                let prev = merged.pop().unwrap();
                proof {
                    assert(merged@ =~= before.drop_last());
                    assert(ops_view(merged@) =~= ops_view(before).drop_last());
                    assert(spans(op_view(before[last - 1]), la as int, lb as int));
                    let p = choose|p: int| 0 <= p < n && before.last().i2 == (#[trigger] ops@[p]).i2 && before.last().j2 == ops@[p].j2;
                    assert(ops@[p].j2 <= ops@[n as int].j1);
                }
                let joined = Opcode { tag: Tag::Replace, i1: prev.i1, i2: op.i2, j1: prev.j1, j2: op.j2 };
                let ghost middle = merged@;
                merged.push(joined);
                proof {
                    lemma_ops_push(middle, joined);
                    assert(merged@.last().i2 == ops@[n as int].i2);
                }
            } else {
                merged.push(op);
                proof {
                    lemma_ops_push(before, op);
                    assert(merged@.last().i2 == ops@[n as int].i2);
                }
            }
        }
        n = n + 1;
    }
    proof {
        assert(v.take(ops@.len() as int) =~= v);
    }
    merged
}

/// `in_context(a, mid, i1, i2)` as characters.
fn context_chars(a: &[char], mid: &[char], i1: usize, i2: usize) -> (r: Vec<char>)
    requires
        i1 <= i2 <= a@.len(),
    ensures
        r@ == in_context(a@, mid@, i1 as int, i2 as int),
{
    let mut out: Vec<char> = Vec::new();
    let from = if i1 > CONTEXT {
        out.push('…');
        i1 - CONTEXT
    } else {
        0
    };
    let mut lead = slice_chars(a, from, i1);
    out.append(&mut lead);
    let mut middle = slice_chars(mid, 0, mid.len());
    assert(mid@.subrange(0, mid@.len() as int) =~= mid@);
    out.append(&mut middle);
    let more = a.len() - i2 > CONTEXT;
    let to = if more {
        i2 + CONTEXT
    } else {
        a.len()
    };
    let mut tail = slice_chars(a, i2, to);
    out.append(&mut tail);
    if more {
        out.push('…');
    }
    proof {
        let head: Seq<char> = if i1 > CONTEXT {
            seq!['…']
        } else {
            Seq::empty()
        };
        let end: Seq<char> = if more {
            seq!['…']
        } else {
            Seq::empty()
        };
        assert(out@ =~= head + a@.subrange(from as int, i1 as int) + mid@ + a@.subrange(i2 as int, to as int) + end);
    }
    out
}

/// The two lines of one change, or `None` when what changed folds away.
fn pair_chars(a: &[char], b: &[char], op: Opcode) -> (r: Option<Vec<char>>)
    requires
        spans(op_view(op), a@.len() as int, b@.len() as int),
    ensures
        match r {
            Some(v) => pair_of(a@, b@, op_view(op)) == Some(v@),
            None => pair_of(a@, b@, op_view(op)) is None,
        },
{
    let old = slice_chars(a, op.i1, op.i2);
    let new = slice_chars(b, op.j1, op.j2);
    if crate::text::same_chars(&fold_chars(&old), &fold_chars(&new)) {
        return None;
    }
    let mut out: Vec<char> = Vec::new();
    out.push('原');
    out.push(' ');
    let mut before = crate::text::chars_of(flat_chars(&context_chars(a, &old, op.i1, op.i2)).as_str());
    out.append(&mut before);
    out.push('\n');
    out.push('改');
    out.push(' ');
    let mut after = crate::text::chars_of(flat_chars(&context_chars(a, &new, op.i1, op.i2)).as_str());
    out.append(&mut after);
    proof {
        let o = a@.subrange(op.i1 as int, op.i2 as int);
        let n = b@.subrange(op.j1 as int, op.j2 as int);
        assert(out@ =~= seq!['原', ' '] + flat_text(in_context(a@, o, op.i1 as int, op.i2 as int)) + seq!['\n', '改', ' '] + flat_text(in_context(a@, n, op.i1 as int, op.i2 as int)));
    }
    Some(out)
}

/// Render what the rewrite changed, one excerpt per change.
///
/// The unit is the change itself, with a little of the sentence on either
/// side. Changes that survive only as whitespace or as the punctuation width
/// the deterministic rules own are dropped, so an empty string means "nothing
/// a reader would call a wording change", which is not the same as "the two
/// texts are equal".
#[must_use]
pub fn changes(before: &str, after: &str) -> (r: String)
    ensures
        r@ == rendering(before@, after@),
{
    let a = crate::text::chars_of(before);
    let b = crate::text::chars_of(after);
    let ops = opcodes(&a, &b);
    proof {
        law_opcodes_cover(a@, b@);
        assert forall|k: int| 0 <= k < ops@.len() implies spans(#[trigger] op_view(ops@[k]), a@.len() as int, b@.len() as int) by {
            assert(ops_view(ops@)[k] == op_view(ops@[k]));
            assert(sound_op(a@, b@, ops_view(ops@)[k]));
        }
        assert forall|p: int, q: int| 0 <= p < q < ops@.len() implies #[trigger] ops@[p].i2 <= #[trigger] ops@[q].i1 && ops@[p].j2 <= ops@[q].j1 by {
            let v = ops_view(ops@);
            assert(v[p] == op_view(ops@[p]) && v[q] == op_view(ops@[q]));
            assert(v[p].2 <= v[q].1);
        }
    }
    let merged = near_changes(&ops, a.len(), b.len());
    let ghost m = ops_view(merged@);
    let mut out: Vec<char> = Vec::new();
    let mut n: usize = 0;
    proof {
        assert(m.take(0) =~= Seq::<(Tag, int, int, int, int)>::empty());
    }
    while n < merged.len()
        invariant
            m == ops_view(merged@),
            forall|k: int| 0 <= k < merged@.len() ==> spans(#[trigger] op_view(merged@[k]), a@.len() as int, b@.len() as int),
            n <= merged@.len(),
            out@ == render_fold(a@, b@, m.take(n as int)),
        decreases merged@.len() - n,
    {
        proof {
            assert(m.take(n + 1).drop_last() =~= m.take(n as int));
            assert(m.take(n + 1).last() == op_view(merged@[n as int]));
            assert(spans(op_view(merged@[n as int]), a@.len() as int, b@.len() as int));
        }
        match pair_chars(&a, &b, merged[n]) {
            Some(mut pair) => {
                if out.len() > 0 {
                    out.push('\n');
                    out.push('\n');
                }
                out.append(&mut pair);
            },
            None => {},
        }
        n = n + 1;
    }
    proof {
        assert(m.take(merged@.len() as int) =~= m);
    }
    crate::text::vec_to_string(&crate::text::trimmed(&out))
}

} // verus!
