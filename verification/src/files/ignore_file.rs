//! The patterns of a `.limae-ignore` file: gitignore lines, read with braces
//! taken literally and with character classes closed within one path
//! segment, compiled by the `ignore` crate.

use vstd::prelude::*;

use crate::pattern::{char_at_byte, char_boundary, ranges_of, regex_compiles, regex_find_iter, well_placed, Pattern};
use crate::text::{
    byte_offset, char_len, chars_of, first_break, is_line_break, is_python_whitespace,
    lemma_byte_offset_rises, lemma_byte_offset_step, lemma_byte_offset_unique, lemma_byte_offset_zero,
    lemma_first_break_at, line_break, python_whitespace, same_chars, slice_chars,
    vec_to_string,
};

verus! {

/// `ignore::gitignore::GitignoreBuilder`, which collects the lines of one
/// ignore file.
#[verifier::external_type_specification]
#[verifier::external_body]
pub struct ExGitignoreBuilder(ignore::gitignore::GitignoreBuilder);

/// `ignore::gitignore::Gitignore`, the matcher built from those lines.
#[verifier::external_type_specification]
#[verifier::external_body]
pub struct ExGitignore(ignore::gitignore::Gitignore);

/// `ignore::Error`, the reason a line or the whole file would not compile.
#[verifier::external_type_specification]
#[verifier::external_body]
pub struct ExIgnoreError(ignore::Error);

/// The lines a builder stores globs for, in the order they were added, each
/// as the builder keeps it (trailing whitespace trimmed unless escaped).
pub uninterp spec fn builder_lines(builder: ignore::gitignore::GitignoreBuilder) -> Seq<Seq<char>>;

/// The directory a builder matches relative to.
pub uninterp spec fn builder_root(builder: ignore::gitignore::GitignoreBuilder) -> std::path::PathBuf;

/// The root `GitignoreBuilder::new` keeps for a path: the path with a
/// leading `./` taken off.
pub uninterp spec fn gitignore_base(root: std::path::PathBuf) -> std::path::PathBuf;

/// The lines a matcher holds globs for, in order, each as the builder kept it.
pub uninterp spec fn gitignore_lines(matcher: ignore::gitignore::Gitignore) -> Seq<Seq<char>>;

/// Whether `GitignoreBuilder::add_line` accepts a line, on a builder that
/// refuses unclosed character classes.
pub uninterp spec fn gitignore_accepts(line: Seq<char>) -> bool;

/// Whether `GitignoreBuilder::build` compiles the lines a builder holds.
pub uninterp spec fn gitignore_builds(lines: Seq<Seq<char>>) -> bool;

/// Whether `globset::GlobBuilder`, with backslash escapes on and unclosed
/// classes refused, fails on a glob for a character class left open.
pub uninterp spec fn unclosed_class(glob: Seq<char>) -> bool;

/// `GitignoreBuilder::new` for the ignore file's directory, set to refuse
/// unclosed character classes; it holds no line yet, and matches relative
/// to `root` with a leading `./` taken off.
#[verifier::external_body]
fn builder_at(root: &std::path::PathBuf) -> (b: ignore::gitignore::GitignoreBuilder)
    ensures
        builder_lines(b) == Seq::<Seq<char>>::empty(),
        builder_root(b) == gitignore_base(*root),
{
    let mut builder = ignore::gitignore::GitignoreBuilder::new(root);
    builder.allow_unclosed_class(false);
    builder
}

/// `GitignoreBuilder::add_line`, naming the ignore file as the line's
/// source. A comment, or a line blank once trimmed, is accepted and stores
/// nothing; any other line the builder accepts is stored in its kept form.
/// The builder's root is left as it was.
#[verifier::external_body]
fn add_line(builder: &mut ignore::gitignore::GitignoreBuilder, from: &std::path::PathBuf, line: &str) -> (r: Result<
    (),
    ignore::Error,
>)
    ensures
        r is Ok <==> gitignore_accepts(line@),
        r is Ok ==> builder_lines(*final(builder)) == stored_after(builder_lines(*old(builder)), line@),
        r is Err ==> builder_lines(*final(builder)) == builder_lines(*old(builder)),
        builder_root(*final(builder)) == builder_root(*old(builder)),
{
    match builder.add_line(Some(from.clone()), line) {
        Ok(_) => Ok(()),
        Err(error) => Err(error),
    }
}

/// `GitignoreBuilder::build`: the matcher, when the lines compile together.
/// It holds the builder's lines and, when there is at least one, matches
/// relative to the builder's root; a builder with no line gives the empty
/// matcher, whose root is the empty path.
#[verifier::external_body]
fn build(builder: &ignore::gitignore::GitignoreBuilder) -> (r: Result<ignore::gitignore::Gitignore, ignore::Error>)
    ensures
        r is Ok <==> gitignore_builds(builder_lines(*builder)),
        r matches Ok(m) ==> gitignore_lines(m) == builder_lines(*builder) && (builder_lines(*builder).len()
            > 0 ==> gitignore_root(m) == builder_root(*builder)),
{
    builder.build()
}

/// `globset::GlobBuilder::build` with backslash escapes on and unclosed
/// classes refused: whether it fails for a class left open.
#[verifier::external_body]
fn class_left_open(glob: &str) -> (r: bool)
    ensures
        r == unclosed_class(glob@),
{
    match globset::GlobBuilder::new(glob).backslash_escape(true).allow_unclosed_class(false).build() {
        Ok(_) => false,
        Err(error) => matches!(error.kind(), globset::ErrorKind::UnclosedClass),
    }
}

/// An `ignore::Error::Glob` that names no glob and carries the message.
#[verifier::external_body]
fn glob_error(message: &str) -> (r: ignore::Error) {
    ignore::Error::Glob { glob: None, err: message.to_owned() }
}

/// `PathBuf::clone`: a path holding the same bytes, which no function of a
/// path can tell from the original.
#[verifier::external_body]
fn copied(path: &std::path::PathBuf) -> (r: std::path::PathBuf)
    ensures
        r == *path,
{
    path.clone()
}

/// A discovery, reading, resolution, or pattern error in file filtering.
#[derive(Debug)]
pub enum IgnoreError {
    /// The built-in literal adaptation expression could not be compiled.
    Matcher(regex::Error),
    /// A filesystem operation failed at the given path.
    Io { path: std::path::PathBuf, source: std::io::Error },
    /// The ignore file could not be compiled in full.
    Pattern { path: std::path::PathBuf, line: usize, source: ignore::Error },
}

/// The tokens of a line that braces inside them stay as they are in: an
/// escape, a character class, or a lone brace.
pub const LITERAL_TOKENS: &'static str = r"\\.|\[[!^]?\]?[^\]]*\]|[{}]";

/// The text with each CRLF made an LF.
pub open spec fn crlf_as_lf(s: Seq<char>) -> Seq<char>
    decreases s.len(),
{
    if s.len() == 0 {
        Seq::empty()
    } else if s.len() > 1 && s[0] == '\r' && s[1] == '\n' {
        seq!['\n'] + crlf_as_lf(s.skip(2))
    } else {
        seq![s[0]] + crlf_as_lf(s.skip(1))
    }
}

/// The pieces of a text from character `from` on, split at every line
/// break character: the text between breaks, empty pieces and the last
/// piece included.
pub open spec fn break_pieces(s: Seq<char>, from: int) -> Seq<Seq<char>>
    decreases s.len() - from,
{
    if from < 0 || from > s.len() {
        Seq::empty()
    } else {
        let k = first_break(s, from);
        if k < from || k >= s.len() {
            seq![s.subrange(from, s.len() as int)]
        } else {
            seq![s.subrange(from, k)] + break_pieces(s, k + 1)
        }
    }
}

/// Whether a character is whitespace to Rust's `char::is_whitespace`: the
/// Unicode `White_Space` characters.
pub open spec fn unicode_whitespace(c: char) -> bool {
    python_whitespace(c) && !('\u{1c}' <= c && c <= '\u{1f}')
}

/// `str::trim_end`: the text without trailing Unicode whitespace.
pub open spec fn trim_end_unicode(s: Seq<char>) -> Seq<char>
    decreases s.len(),
{
    if s.len() > 0 && unicode_whitespace(s.last()) {
        trim_end_unicode(s.drop_last())
    } else {
        s
    }
}

/// A line with its lone braces escaped, from literal token `j` on, the text
/// before that token starting at character `start`: the text between tokens
/// as it is, and each token as it is, with a backslash before it when it is
/// a lone brace.
pub open spec fn escaped(line: Seq<char>, tokens: Seq<(int, int)>, j: int, start: int) -> Seq<char>
    decreases tokens.len() - j,
{
    if j < 0 || j >= tokens.len() {
        line.subrange(start, line.len() as int)
    } else {
        let from = char_at_byte(line, tokens[j].0);
        let to = char_at_byte(line, tokens[j].1);
        let token = line.subrange(from, to);
        line.subrange(start, from) + (if token == seq!['{'] || token == seq!['}'] {
            seq!['\\']
        } else {
            Seq::empty()
        }) + token + escaped(line, tokens, j + 1, to)
    }
}

/// The first `/` at or after `from`, or the end of the text.
pub open spec fn next_slash(s: Seq<char>, from: int) -> int
    decreases s.len() - from,
{
    if from >= s.len() {
        s.len() as int
    } else if s[from] == '/' {
        from
    } else {
        next_slash(s, from + 1)
    }
}

/// Whether any path segment of a glob from character `from` on leaves a
/// character class open.
pub open spec fn class_open_in(s: Seq<char>, from: int) -> bool
    decreases s.len() - from,
{
    if from < 0 || from > s.len() {
        false
    } else {
        let k = next_slash(s, from);
        if k < from || k > s.len() {
            false
        } else {
            unclosed_class(s.subrange(from, k)) || (k < s.len() && class_open_in(s, k + 1))
        }
    }
}

/// The form a line is kept in to be found again: as given when it ends in
/// an escaped space, without trailing whitespace otherwise.
pub open spec fn kept_form(line: Seq<char>) -> Seq<char> {
    if line.len() >= 2 && line[line.len() - 2] == '\\' && line[line.len() - 1] == ' ' {
        line
    } else {
        trim_end_unicode(line)
    }
}

/// Whether the builder stores nothing for a line: a comment, or a line that
/// is blank once trimmed.
pub open spec fn ignorable(line: Seq<char>) -> bool {
    (line.len() > 0 && line[0] == '#') || kept_form(line).len() == 0
}

/// What the builder stores once it has accepted one more line.
pub open spec fn stored_after(stored: Seq<Seq<char>>, line: Seq<char>) -> Seq<Seq<char>> {
    if ignorable(line) {
        stored
    } else {
        stored.push(kept_form(line))
    }
}

/// What the builder stores for the lines it accepted, in order.
pub open spec fn stored_lines(added: Seq<Seq<char>>) -> Seq<Seq<char>>
    decreases added.len(),
{
    if added.len() == 0 {
        Seq::empty()
    } else {
        stored_after(stored_lines(added.drop_last()), added.last())
    }
}

/// What reading the lines of an ignore file comes to.
pub enum IgnoreScan {
    /// Every line read; the lines handed to the builder, escaped.
    Accepted(Seq<Seq<char>>),
    /// The line with this number is a bare `!`.
    BareNegation(int),
    /// The builder refused the line with this number.
    Refused(int),
}

/// Reading the lines from line `k` on, with `added` handed to the builder
/// so far: a bare `!` is refused, a line with a class left open in one of
/// its segments is skipped, and any other line is escaped and handed on.
pub open spec fn scan(tokens: Seq<char>, lines: Seq<Seq<char>>, k: int, added: Seq<Seq<char>>) -> IgnoreScan
    decreases lines.len() - k,
{
    if k < 0 || k >= lines.len() {
        IgnoreScan::Accepted(added)
    } else {
        let line = lines[k];
        if trim_end_unicode(line) == seq!['!'] {
            IgnoreScan::BareNegation(k + 1)
        } else {
            let e = escaped(line, regex_find_iter(tokens, line), 0, 0);
            if class_open_in(e, 0) {
                scan(tokens, lines, k + 1, added)
            } else if !gitignore_accepts(e) {
                IgnoreScan::Refused(k + 1)
            } else {
                scan(tokens, lines, k + 1, added.push(e))
            }
        }
    }
}

/// Reading a whole ignore file.
pub open spec fn scanned(text: Seq<char>) -> IgnoreScan {
    scan(LITERAL_TOKENS@, break_pieces(crlf_as_lf(text), 0), 0, Seq::empty())
}

/// The compiled patterns of one ignore file, with the lines they came from.
pub struct IgnorePatterns {
    matcher: ignore::gitignore::Gitignore,
    lines: Vec<String>,
}

/// Strings as their characters.
pub open spec fn texts_of(lines: Seq<String>) -> Seq<Seq<char>> {
    lines.map_values(|line: String| line@)
}

impl View for IgnorePatterns {
    type V = Seq<Seq<char>>;

    /// The kept lines, in order.
    closed spec fn view(&self) -> Seq<Seq<char>> {
        texts_of(self.lines@)
    }
}

impl IgnorePatterns {
    /// The matcher the patterns were compiled into.
    pub closed spec fn matcher_of(&self) -> ignore::gitignore::Gitignore {
        self.matcher
    }
}

/// The text with each CRLF made an LF (`str::replace`).
fn lf_only(s: &[char]) -> (r: Vec<char>)
    ensures
        r@ == crlf_as_lf(s@),
{
    let mut r: Vec<char> = Vec::new();
    let mut i: usize = 0;
    assert(s@.skip(0) =~= s@);
    while i < s.len()
        invariant
            i <= s@.len(),
            crlf_as_lf(s@) == r@ + crlf_as_lf(s@.skip(i as int)),
        decreases s@.len() - i,
    {
        let ghost before = r@;
        if i + 1 < s.len() && s[i] == '\r' && s[i + 1] == '\n' {
            r.push('\n');
            assert(s@.skip(i as int).skip(2) =~= s@.skip(i + 2));
            assert(r@ + crlf_as_lf(s@.skip(i + 2)) =~= before + crlf_as_lf(s@.skip(i as int)));
            i = i + 2;
        } else {
            r.push(s[i]);
            assert(s@.skip(i as int).skip(1) =~= s@.skip(i + 1));
            assert(r@ + crlf_as_lf(s@.skip(i + 1)) =~= before + crlf_as_lf(s@.skip(i as int)));
            i = i + 1;
        }
    }
    assert(s@.skip(i as int) =~= Seq::<char>::empty());
    assert(r@ + crlf_as_lf(s@.skip(i as int)) =~= r@);
    r
}

/// The pieces of a text split at every line break character (`str::split`).
fn broken(s: &[char]) -> (r: Vec<String>)
    ensures
        texts_of(r@) == break_pieces(s@, 0),
{
    let mut r: Vec<String> = Vec::new();
    let mut from: usize = 0;
    let mut done = false;
    assert(texts_of(r@) + break_pieces(s@, 0) =~= break_pieces(s@, 0));
    while !done
        invariant
            from <= s@.len(),
            !done ==> break_pieces(s@, 0) == texts_of(r@) + break_pieces(s@, from as int),
            done ==> texts_of(r@) == break_pieces(s@, 0),
        decreases s@.len() - from + if done {
            0int
        } else {
            1int
        },
    {
        let mut k = from;
        while k < s.len() && !is_line_break(s[k])
            invariant
                from <= k <= s@.len(),
                forall|m: int| from <= m < k ==> !line_break(#[trigger] s@[m]),
            decreases s@.len() - k,
        {
            k = k + 1;
        }
        proof {
            lemma_first_break_at(s@, from as int, k as int);
        }
        let ghost before = r@;
        let piece = vec_to_string(&slice_chars(s, from, k));
        r.push(piece);
        assert(texts_of(r@) =~= texts_of(before).push(s@.subrange(from as int, k as int)));
        if k < s.len() {
            assert(texts_of(r@) + break_pieces(s@, k + 1) =~= texts_of(before) + break_pieces(s@, from as int));
            from = k + 1;
        } else {
            assert(texts_of(r@) =~= texts_of(before) + break_pieces(s@, from as int));
            done = true;
        }
    }
    r
}

/// Whether a character is whitespace to `char::is_whitespace`.
fn is_unicode_whitespace(c: char) -> (r: bool)
    ensures
        r == unicode_whitespace(c),
{
    is_python_whitespace(c) && !('\u{1c}' <= c && c <= '\u{1f}')
}

proof fn lemma_trim_end_unicode_take(s: Seq<char>, e: int)
    requires
        0 < e <= s.len(),
        unicode_whitespace(s[e - 1]),
    ensures
        trim_end_unicode(s.take(e)) == trim_end_unicode(s.take(e - 1)),
{
    assert(s.take(e).drop_last() =~= s.take(e - 1));
}

/// How long a text is once trailing Unicode whitespace is dropped.
fn trimmed_len(s: &[char]) -> (r: usize)
    ensures
        r <= s@.len(),
        trim_end_unicode(s@) == s@.take(r as int),
{
    let mut e = s.len();
    assert(s@.take(e as int) =~= s@);
    while e > 0 && is_unicode_whitespace(s[e - 1])
        invariant
            e <= s@.len(),
            trim_end_unicode(s@) == trim_end_unicode(s@.take(e as int)),
        decreases e,
    {
        proof {
            lemma_trim_end_unicode_take(s@, e as int);
        }
        e = e - 1;
    }
    proof {
        if e > 0 {
            assert(s@.take(e as int).last() == s@[e - 1]);
        }
    }
    e
}

/// Whether a line is a bare `!` once trailing whitespace is dropped.
fn bare_negation(s: &[char]) -> (r: bool)
    ensures
        r == (trim_end_unicode(s@) == seq!['!']),
{
    let e = trimmed_len(s);
    let r = e == 1 && s[0] == '!';
    proof {
        let t = trim_end_unicode(s@);
        if r {
            assert(t =~= seq!['!']);
        } else if t =~= seq!['!'] {
            assert(t.len() == 1);
            assert(t[0] == s@[0]);
        }
    }
    r
}

/// The form a line is kept in to be found again.
fn kept(s: &[char]) -> (r: String)
    ensures
        r@ == kept_form(s@),
{
    if s.len() >= 2 && s[s.len() - 2] == '\\' && s[s.len() - 1] == ' ' {
        vec_to_string(s)
    } else {
        let e = trimmed_len(s);
        vec_to_string(&slice_chars(s, 0, e))
    }
}

/// The character position of byte `b`, walking on from character `k` at
/// byte `off`.
fn advance(s: &[char], k: usize, off: usize, b: usize) -> (r: usize)
    requires
        k <= s@.len(),
        off == byte_offset(s@, k as int),
        off <= b,
        char_boundary(s@, b as int),
    ensures
        k <= r <= s@.len(),
        byte_offset(s@, r as int) == b,
        r == char_at_byte(s@, b as int),
{
    let ghost w = choose|w: int| 0 <= w <= s@.len() && #[trigger] byte_offset(s@, w) == b;
    proof {
        if w < k {
            lemma_byte_offset_rises(s@, w, k as int);
        }
    }
    let mut i = k;
    let mut at = off;
    while at < b
        invariant
            k <= i <= w <= s@.len(),
            at == byte_offset(s@, i as int),
            at <= b,
            byte_offset(s@, w) == b,
        decreases w - i,
    {
        proof {
            if i == w {
                assert(false);
            }
            lemma_byte_offset_step(s@, i as int);
            if i + 1 < w {
                lemma_byte_offset_rises(s@, i + 1, w);
            }
        }
        at = at + char_len(s[i]);
        i = i + 1;
    }
    proof {
        lemma_byte_offset_unique(s@, i as int, w);
    }
    i
}

/// Append characters `from..to` of a text.
fn append_chars(out: &mut Vec<char>, s: &[char], from: usize, to: usize)
    requires
        from <= to <= s@.len(),
    ensures
        final(out)@ == old(out)@ + s@.subrange(from as int, to as int),
{
    let ghost start = out@;
    let mut i = from;
    while i < to
        invariant
            from <= i <= to <= s@.len(),
            out@ == start + s@.subrange(from as int, i as int),
        decreases to - i,
    {
        out.push(s[i]);
        assert(s@.subrange(from as int, i + 1) =~= s@.subrange(from as int, i as int).push(s@[i as int]));
        i = i + 1;
    }
}

/// A line with its lone braces escaped, given the pattern of its literal
/// tokens.
fn escape_braces(tokens: &Pattern, line: &str) -> (r: Vec<char>)
    ensures
        r@ == escaped(line@, regex_find_iter(tokens@, line@), 0, 0),
{
    let found = tokens.find_iter(line);
    let ghost f = ranges_of(found@);
    let s = chars_of(line);
    let mut out: Vec<char> = Vec::new();
    let mut start: usize = 0;
    let mut start_byte: usize = 0;
    let mut j: usize = 0;
    proof {
        lemma_byte_offset_zero(s@);
    }
    assert(out@ + escaped(s@, f, 0, 0) =~= escaped(s@, f, 0, 0));
    while j < found.len()
        invariant
            s@ == line@,
            f == ranges_of(found@),
            f == regex_find_iter(tokens@, line@),
            forall|k: int| 0 <= k < found@.len() ==> well_placed(line@, #[trigger] f[k]),
            forall|k: int| 0 < k < found@.len() ==> f[k - 1].1 <= #[trigger] f[k].0,
            j <= found@.len(),
            start <= s@.len(),
            start_byte == byte_offset(s@, start as int),
            j < found@.len() ==> start_byte <= f[j as int].0,
            escaped(s@, f, 0, 0) == out@ + escaped(s@, f, j as int, start as int),
        decreases found@.len() - j,
    {
        let (tb, te) = found[j];
        assert(f[j as int] == (tb as int, te as int));
        assert(well_placed(line@, f[j as int]));
        let cs = advance(&s, start, start_byte, tb);
        let ce = advance(&s, cs, tb, te);
        let ghost before = out@;
        let ghost token = s@.subrange(cs as int, ce as int);
        append_chars(&mut out, &s, start, cs);
        let brace = ce > cs && ce - cs == 1 && (s[cs] == '{' || s[cs] == '}');
        proof {
            if brace {
                assert(token =~= seq![s@[cs as int]]);
            }
            if token == seq!['{'] || token == seq!['}'] {
                assert(token.len() == 1);
                assert(token[0] == s@[cs as int]);
            }
        }
        if brace {
            out.push('\\');
        }
        append_chars(&mut out, &s, cs, ce);
        proof {
            assert(out@ =~= before + (s@.subrange(start as int, cs as int) + (if token == seq!['{'] || token
                == seq!['}'] {
                seq!['\\']
            } else {
                Seq::empty()
            }) + token));
            assert(out@ + escaped(s@, f, j + 1, ce as int) =~= before + escaped(s@, f, j as int, start as int));
            if j + 1 < found@.len() {
                assert(f[j + 1].0 >= f[j as int].1);
            }
        }
        start = ce;
        start_byte = te;
        j = j + 1;
    }
    let ghost before = out@;
    append_chars(&mut out, &s, start, s.len());
    out
}

/// Whether a segment of a glob between `/` leaves a character class open.
fn class_open(e: &[char]) -> (r: bool)
    ensures
        r == class_open_in(e@, 0),
{
    let mut from: usize = 0;
    while from <= e.len()
        invariant
            from <= e@.len(),
            class_open_in(e@, 0) == class_open_in(e@, from as int),
        decreases e@.len() - from,
    {
        let mut k = from;
        while k < e.len() && e[k] != '/'
            invariant
                from <= k <= e@.len(),
                next_slash(e@, from as int) == next_slash(e@, k as int),
            decreases e@.len() - k,
        {
            k = k + 1;
        }
        let segment = vec_to_string(&slice_chars(e, from, k));
        if class_left_open(segment.as_str()) {
            return true;
        }
        if k < e.len() {
            from = k + 1;
        } else {
            return false;
        }
    }
    false
}

impl IgnorePatterns {
    /// Read an ignore file at `path` whose patterns apply under `root`.
    ///
    /// Lines are split at CRLF and at every line break character. A bare `!`
    /// is an error; braces outside escapes and classes are escaped, since
    /// gitignore reads them literally; a line with a class left open in one
    /// of its path segments is skipped; every other line goes to the
    /// builder, and an error names the line it refuses. Line numbers count
    /// from one; a matcher that will not build is blamed on the number of
    /// lines kept.
    pub fn parse(root: &std::path::PathBuf, path: &std::path::PathBuf, text: &str) -> (r: Result<IgnorePatterns, IgnoreError>)
        ensures
            match r {
                Ok(patterns) => {
                    &&& regex_compiles(LITERAL_TOKENS@)
                    &&& scanned(text@) is Accepted
                    &&& gitignore_builds(stored_lines(scanned(text@)->Accepted_0))
                    &&& patterns@ == scanned(text@)->Accepted_0.map_values(|e: Seq<char>| kept_form(e))
                    &&& gitignore_lines(patterns.matcher_of()) == stored_lines(scanned(text@)->Accepted_0)
                    &&& stored_lines(scanned(text@)->Accepted_0).len() > 0 ==> gitignore_root(
                        patterns.matcher_of(),
                    ) == gitignore_base(*root)
                },
                Err(IgnoreError::Matcher(_)) => !regex_compiles(LITERAL_TOKENS@),
                Err(IgnoreError::Pattern { path: blamed, line, .. }) => blamed == *path && regex_compiles(
                    LITERAL_TOKENS@,
                ) && match scanned(text@) {
                    IgnoreScan::BareNegation(n) => line == n,
                    IgnoreScan::Refused(n) => line == n,
                    IgnoreScan::Accepted(added) => !gitignore_builds(stored_lines(added)) && line == added.len(),
                },
                Err(IgnoreError::Io { .. }) => false,
            },
    {
        let mut builder = builder_at(root);
        let tokens = match Pattern::new(LITERAL_TOKENS) {
            Ok(pattern) => pattern,
            Err(error) => return Err(IgnoreError::Matcher(error)),
        };
        let pieces = broken(&lf_only(&chars_of(text)));
        let ghost all = texts_of(pieces@);
        let mut lines: Vec<String> = Vec::new();
        let mut index: usize = 0;
        let ghost mut added: Seq<Seq<char>> = Seq::empty();
        assert(texts_of(lines@) =~= added.map_values(|e: Seq<char>| kept_form(e)));
        while index < pieces.len()
            invariant
                all == texts_of(pieces@),
                all == break_pieces(crlf_as_lf(text@), 0),
                tokens@ == LITERAL_TOKENS@,
                regex_compiles(LITERAL_TOKENS@),
                index <= pieces@.len(),
                scanned(text@) == scan(LITERAL_TOKENS@, all, index as int, added),
                builder_lines(builder) == stored_lines(added),
                builder_root(builder) == gitignore_base(*root),
                texts_of(lines@) == added.map_values(|e: Seq<char>| kept_form(e)),
            decreases pieces@.len() - index,
        {
            let line = &pieces[index];
            assert(all[index as int] == line@);
            let chars = chars_of(line.as_str());
            if bare_negation(&chars) {
                return Err(
                    IgnoreError::Pattern {
                        path: copied(path),
                        line: index + 1,
                        source: glob_error("negation requires a pattern"),
                    },
                );
            }
            let escaped_line = escape_braces(&tokens, line.as_str());
            if class_open(&escaped_line) {
                index = index + 1;
                continue;
            }
            let as_text = vec_to_string(&escaped_line);
            let ghost old_added = added;
            match add_line(&mut builder, path, as_text.as_str()) {
                Ok(()) => {},
                Err(source) => {
                    return Err(IgnoreError::Pattern { path: copied(path), line: index + 1, source });
                },
            }
            let ghost before = lines@;
            lines.push(kept(&escaped_line));
            proof {
                added = old_added.push(escaped_line@);
                assert(added.drop_last() =~= old_added);
                assert(builder_lines(builder) == stored_lines(added));
                assert(texts_of(lines@) =~= texts_of(before).push(kept_form(escaped_line@)));
                assert(added.map_values(|e: Seq<char>| kept_form(e)) =~= old_added.map_values(
                    |e: Seq<char>| kept_form(e),
                ).push(kept_form(escaped_line@)));
            }
            index = index + 1;
        }
        let matcher = match build(&builder) {
            Ok(matcher) => matcher,
            Err(source) => {
                assert(texts_of(lines@).len() == lines@.len());
                return Err(IgnoreError::Pattern { path: copied(path), line: lines.len(), source });
            },
        };
        Ok(IgnorePatterns { matcher, lines })
    }
}

/// What a matcher says of one path: nothing, or the line (as written) of
/// the last pattern that matched it, ignoring or re-including it.
pub enum Verdict {
    Nothing,
    Ignore(String),
    Whitelist(String),
}

/// The verdict `Gitignore::matched` gives a path, as a file or as a
/// directory.
pub uninterp spec fn gitignore_verdict(
    matcher: ignore::gitignore::Gitignore,
    path: std::path::PathBuf,
    is_dir: bool,
) -> Verdict;

/// What `Path::ancestors` yields: the path itself, then each of its parents.
pub uninterp spec fn path_ancestors(path: std::path::PathBuf) -> Seq<std::path::PathBuf>;

/// The directory `Gitignore::path` says the matcher matches relative to.
pub uninterp spec fn gitignore_root(matcher: ignore::gitignore::Gitignore) -> std::path::PathBuf;

/// Whether two paths are equal to `PathBuf`'s `==`, which compares their
/// components.
pub uninterp spec fn same_place(a: std::path::PathBuf, b: std::path::PathBuf) -> bool;

/// `Gitignore::matched`, the matching pattern taken as its original line.
/// A matcher with no line matches nothing.
#[verifier::external_body]
fn matched(matcher: &ignore::gitignore::Gitignore, path: &std::path::PathBuf, is_dir: bool) -> (r: Verdict)
    ensures
        r == gitignore_verdict(*matcher, *path, is_dir),
        gitignore_lines(*matcher).len() == 0 ==> r == Verdict::Nothing,
{
    match matcher.matched(path, is_dir) {
        ignore::Match::None => Verdict::Nothing,
        ignore::Match::Ignore(glob) => Verdict::Ignore(glob.original().to_owned()),
        ignore::Match::Whitelist(glob) => Verdict::Whitelist(glob.original().to_owned()),
    }
}

/// `Path::ancestors`: the path itself, then each of its parents.
#[verifier::external_body]
fn ancestors(path: &std::path::PathBuf) -> (r: Vec<std::path::PathBuf>)
    ensures
        r@ == path_ancestors(*path),
{
    path.ancestors().map(|ancestor| ancestor.to_path_buf()).collect()
}

/// `Gitignore::path`: the directory the matcher matches relative to.
#[verifier::external_body]
fn matcher_root(matcher: &ignore::gitignore::Gitignore) -> (r: std::path::PathBuf)
    ensures
        r == gitignore_root(*matcher),
{
    matcher.path().to_path_buf()
}

/// `PathBuf == PathBuf`.
#[verifier::external_body]
fn same_path(a: &std::path::PathBuf, b: &std::path::PathBuf) -> (r: bool)
    ensures
        r == same_place(*a, *b),
{
    a == b
}

/// The directory verdicts on the ancestors of a path from the `k`-th on, up
/// to (and without) the matcher's root.
pub open spec fn parent_verdicts(
    matcher: ignore::gitignore::Gitignore,
    chain: Seq<std::path::PathBuf>,
    root: std::path::PathBuf,
    k: int,
) -> Seq<Verdict>
    decreases chain.len() - k,
{
    if k < 0 || k >= chain.len() || same_place(chain[k], root) {
        Seq::empty()
    } else {
        seq![gitignore_verdict(matcher, chain[k], true)] + parent_verdicts(matcher, chain, root, k + 1)
    }
}

/// Whether a matcher built from the kept lines ignores a path: [`ruling`]
/// over its verdict on the path and on the directories between the path and
/// the matcher's root.
pub open spec fn ignored(matcher: ignore::gitignore::Gitignore, path: std::path::PathBuf, lines: Seq<Seq<char>>) -> bool {
    ruling(
        gitignore_verdict(matcher, path, false),
        parent_verdicts(matcher, path_ancestors(path), gitignore_root(matcher), 1),
        lines,
    )
}

/// The last line among the first `k` that reads `glob`.
pub open spec fn last_line(lines: Seq<Seq<char>>, glob: Seq<char>, k: int) -> Option<int>
    decreases k,
{
    if k <= 0 || k > lines.len() {
        None
    } else if lines[k - 1] == glob {
        Some(k - 1)
    } else {
        last_line(lines, glob, k - 1)
    }
}

/// What a directory's verdict weighs: the position of its pattern among the
/// kept lines, and whether it ignores.
pub open spec fn weight(verdict: Verdict, lines: Seq<Seq<char>>) -> Option<(int, bool)> {
    match verdict {
        Verdict::Nothing => None,
        Verdict::Ignore(glob) => match last_line(lines, glob@, lines.len() as int) {
            Some(i) => Some((i, true)),
            None => None,
        },
        Verdict::Whitelist(glob) => match last_line(lines, glob@, lines.len() as int) {
            Some(i) => Some((i, false)),
            None => None,
        },
    }
}

/// The heaviest of the first `k` directory verdicts: the one whose pattern
/// comes last, the later verdict on a tie.
pub open spec fn heaviest(parents: Seq<Verdict>, lines: Seq<Seq<char>>, k: int) -> Option<(int, bool)>
    decreases k,
{
    if k <= 0 || k > parents.len() {
        None
    } else {
        let best = heaviest(parents, lines, k - 1);
        match weight(parents[k - 1], lines) {
            None => best,
            Some(w) => match best {
                None => Some(w),
                Some(b) => if w.0 >= b.0 {
                    Some(w)
                } else {
                    best
                },
            },
        }
    }
}

/// Whether a path is ignored, given the verdict on the path itself and the
/// verdicts on its parents below the matcher's root: a verdict on the path
/// decides; otherwise the directory whose pattern comes last in the file
/// decides, whatever its depth; otherwise the path is kept.
pub open spec fn ruling(direct: Verdict, parents: Seq<Verdict>, lines: Seq<Seq<char>>) -> bool {
    match direct {
        Verdict::Ignore(_) => true,
        Verdict::Whitelist(_) => false,
        Verdict::Nothing => match heaviest(parents, lines, parents.len() as int) {
            Some(w) => w.1,
            None => false,
        },
    }
}

/// The last kept line that reads `glob`.
fn last_line_of(lines: &Vec<String>, glob: &String) -> (r: Option<usize>)
    ensures
        match r {
            Some(i) => last_line(texts_of(lines@), glob@, lines@.len() as int) == Some(i as int),
            None => last_line(texts_of(lines@), glob@, lines@.len() as int) is None,
        },
{
    let ghost t = texts_of(lines@);
    let g = chars_of(glob.as_str());
    let mut k = lines.len();
    while k > 0
        invariant
            t == texts_of(lines@),
            g@ == glob@,
            k <= lines@.len(),
            last_line(t, glob@, lines@.len() as int) == last_line(t, glob@, k as int),
        decreases k,
    {
        let line = chars_of(lines[k - 1].as_str());
        assert(t[k - 1] == lines@[k - 1]@);
        if same_chars(&line, &g) {
            return Some(k - 1);
        }
        k = k - 1;
    }
    None
}

/// Whether a path is ignored, given the verdict on it and those on its
/// parents below the matcher's root, nearest first.
pub fn rule(direct: &Verdict, parents: &[Verdict], lines: &Vec<String>) -> (r: bool)
    ensures
        r == ruling(*direct, parents@, texts_of(lines@)),
{
    match direct {
        Verdict::Ignore(_) => return true,
        Verdict::Whitelist(_) => return false,
        Verdict::Nothing => {},
    }
    let ghost t = texts_of(lines@);
    let mut best: Option<(usize, bool)> = None;
    let mut k: usize = 0;
    while k < parents.len()
        invariant
            t == texts_of(lines@),
            k <= parents@.len(),
            match best {
                Some(b) => heaviest(parents@, t, k as int) == Some((b.0 as int, b.1)),
                None => heaviest(parents@, t, k as int) is None,
            },
        decreases parents@.len() - k,
    {
        let found = match &parents[k] {
            Verdict::Nothing => None,
            Verdict::Ignore(glob) => match last_line_of(lines, glob) {
                Some(i) => Some((i, true)),
                None => None,
            },
            Verdict::Whitelist(glob) => match last_line_of(lines, glob) {
                Some(i) => Some((i, false)),
                None => None,
            },
        };
        match found {
            None => {},
            Some(w) => match best {
                None => {
                    best = Some(w);
                },
                Some(b) => {
                    if w.0 >= b.0 {
                        best = Some(w);
                    }
                },
            },
        }
        k = k + 1;
    }
    match best {
        Some(b) => b.1,
        None => false,
    }
}

impl IgnorePatterns {
    /// Whether a resolved path under the ignore file's directory is ignored.
    ///
    /// A pattern that matches the path itself decides. Otherwise file
    /// matches outrank directory matches and, among the directories between
    /// the path and the root, the last matching pattern in the file wins
    /// regardless of the directory's depth ([`rule`]).
    pub fn ignores(&self, path: &std::path::PathBuf) -> (r: bool)
        ensures
            r == ignored(self.matcher_of(), *path, self@),
    {
        let direct = matched(&self.matcher, path, false);
        let mut parents: Vec<Verdict> = Vec::new();
        let ghost all = parent_verdicts(
            self.matcher,
            path_ancestors(*path),
            gitignore_root(self.matcher),
            1,
        );
        match &direct {
            Verdict::Nothing => {
                let chain = ancestors(path);
                let root = matcher_root(&self.matcher);
                let mut k: usize = 1;
                assert(parents@ + all =~= all);
                while k < chain.len() && !same_path(&chain[k], &root)
                    invariant
                        chain@ == path_ancestors(*path),
                        root == gitignore_root(self.matcher),
                        all == parent_verdicts(self.matcher, chain@, root, 1),
                        1 <= k,
                        all == parents@ + parent_verdicts(self.matcher, chain@, root, k as int),
                    decreases chain@.len() - k,
                {
                    let verdict = matched(&self.matcher, &chain[k], true);
                    let ghost before = parents@;
                    parents.push(verdict);
                    assert(parents@ + parent_verdicts(self.matcher, chain@, root, k + 1) =~= before
                        + parent_verdicts(self.matcher, chain@, root, k as int));
                    k = k + 1;
                }
                assert(parents@ + parent_verdicts(self.matcher, chain@, root, k as int) =~= parents@);
            },
            _ => {},
        }
        rule(&direct, &parents, &self.lines)
    }
}

/// Whether `path` begins with the components of `base`, as
/// `Path::starts_with` compares them.
pub uninterp spec fn path_within(path: std::path::PathBuf, base: std::path::PathBuf) -> bool;

/// `Path::starts_with`: whether `base`'s components begin `path`'s; named
/// [`path_within`] of the two paths and not spelled out here.
#[verifier::external_body]
fn within(path: &std::path::PathBuf, base: &std::path::PathBuf) -> (r: bool)
    ensures
        r == path_within(*path, *base),
{
    path.starts_with(base)
}

/// The inputs that stay among the files to check, in order: those whose
/// resolved path lies outside `root`, or that the patterns do not ignore.
pub open spec fn kept_inputs(
    matcher: ignore::gitignore::Gitignore,
    lines: Seq<Seq<char>>,
    inputs: Seq<std::path::PathBuf>,
    resolved: Seq<std::path::PathBuf>,
    root: std::path::PathBuf,
) -> Seq<std::path::PathBuf>
    decreases inputs.len(),
{
    if inputs.len() == 0 {
        Seq::empty()
    } else {
        let done = kept_inputs(matcher, lines, inputs.drop_last(), resolved, root);
        let k = inputs.len() - 1;
        if path_within(resolved[k], root) && ignored(matcher, resolved[k], lines) {
            done
        } else {
            done.push(inputs[k])
        }
    }
}

impl IgnorePatterns {
    /// The inputs that stay among the files to check, spelled as given and in
    /// their order, duplicates kept: `resolved[i]` is where `inputs[i]`
    /// resolves to, and an input stays unless it resolves under `root`, the
    /// ignore file's directory, to a path the patterns ignore.
    pub fn kept(
        &self,
        inputs: &[std::path::PathBuf],
        resolved: &[std::path::PathBuf],
        root: &std::path::PathBuf,
    ) -> (r: Vec<std::path::PathBuf>)
        requires
            inputs@.len() == resolved@.len(),
        ensures
            r@ == kept_inputs(self.matcher_of(), self@, inputs@, resolved@, *root),
    {
        let mut r: Vec<std::path::PathBuf> = Vec::new();
        let mut i: usize = 0;
        while i < inputs.len()
            invariant
                i <= inputs@.len(),
                inputs@.len() == resolved@.len(),
                r@ == kept_inputs(self.matcher_of(), self@, inputs@.take(i as int), resolved@, *root),
            decreases inputs@.len() - i,
        {
            proof {
                assert(inputs@.take(i + 1).drop_last() =~= inputs@.take(i as int));
            }
            if !(within(&resolved[i], root) && self.ignores(&resolved[i])) {
                r.push(copied(&inputs[i]));
            }
            i = i + 1;
        }
        assert(inputs@.take(inputs@.len() as int) =~= inputs@);
        r
    }
}

} // verus!
