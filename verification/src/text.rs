//! Characters, lines and strings as the rules see them.

use vstd::prelude::*;

verus! {

/// Whether a character is whitespace to Python's `str.isspace`: Unicode
/// `White_Space` plus the four file/group/record/unit separators.
pub open spec fn python_whitespace(c: char) -> bool {
    ||| ('\u{9}' <= c && c <= '\u{d}')
    ||| ('\u{1c}' <= c && c <= '\u{20}')
    ||| c == '\u{85}'
    ||| c == '\u{a0}'
    ||| c == '\u{1680}'
    ||| ('\u{2000}' <= c && c <= '\u{200a}')
    ||| c == '\u{2028}'
    ||| c == '\u{2029}'
    ||| c == '\u{202f}'
    ||| c == '\u{205f}'
    ||| c == '\u{3000}'
}

/// Executable form of [`python_whitespace`].
pub fn is_python_whitespace(c: char) -> (r: bool)
    ensures
        r == python_whitespace(c),
{
    ('\u{9}' <= c && c <= '\u{d}') || ('\u{1c}' <= c && c <= '\u{20}') || c == '\u{85}' || c
        == '\u{a0}' || c == '\u{1680}' || ('\u{2000}' <= c && c <= '\u{200a}') || c == '\u{2028}'
        || c == '\u{2029}' || c == '\u{202f}' || c == '\u{205f}' || c == '\u{3000}'
}

/// The characters of a string, in order.
pub fn chars_of(s: &str) -> (v: Vec<char>)
    ensures
        v@ == s@,
{
    let mut v: Vec<char> = Vec::new();
    for c in it: s.chars()
        invariant
            v@ == it.seq().take(it.index() as int),
            it.seq() == s@,
    {
        v.push(c);
    }
    v
}

/// Append one character to a string (`String::push`).
#[verifier::external_body]
pub(crate) fn push_char(s: &mut String, c: char)
    ensures
        final(s)@ == old(s)@.push(c),
{
    s.push(c);
}

} // verus!

verus! {

/// The text with leading Python whitespace removed.
pub open spec fn trim_start(s: Seq<char>) -> Seq<char>
    decreases s.len(),
{
    if s.len() > 0 && python_whitespace(s[0]) {
        trim_start(s.drop_first())
    } else {
        s
    }
}

/// The text with trailing Python whitespace removed.
pub open spec fn trim_end(s: Seq<char>) -> Seq<char>
    decreases s.len(),
{
    if s.len() > 0 && python_whitespace(s.last()) {
        trim_end(s.drop_last())
    } else {
        s
    }
}

/// `str::trim_matches(is_python_whitespace)`.
pub open spec fn trim(s: Seq<char>) -> Seq<char> {
    trim_end(trim_start(s))
}

/// Whether every character is Python whitespace (true of the empty text).
pub open spec fn all_whitespace(s: Seq<char>) -> bool {
    forall|i: int| 0 <= i < s.len() ==> python_whitespace(#[trigger] s[i])
}

/// `str::strip_prefix`: the rest of `s` after `prefix`, if `s` starts with it.
pub open spec fn strip_prefix(s: Seq<char>, prefix: Seq<char>) -> Option<Seq<char>> {
    if prefix.len() <= s.len() && s.take(prefix.len() as int) == prefix {
        Some(s.skip(prefix.len() as int))
    } else {
        None
    }
}

/// Whether `s` starts with `prefix`.
pub open spec fn starts_with(s: Seq<char>, prefix: Seq<char>) -> bool {
    prefix.len() <= s.len() && s.take(prefix.len() as int) == prefix
}

/// `str::strip_suffix`.
pub open spec fn strip_suffix(s: Seq<char>, suffix: Seq<char>) -> Option<Seq<char>> {
    if suffix.len() <= s.len() && s.skip(s.len() - suffix.len()) == suffix {
        Some(s.take(s.len() - suffix.len()))
    } else {
        None
    }
}

/// Whether a separator splits text: a comma, and with `also_whitespace`
/// Python whitespace too.
pub open spec fn is_separator(c: char, also_whitespace: bool) -> bool {
    c == ',' || (also_whitespace && python_whitespace(c))
}

/// `str::split` on the separators of [`is_separator`]: every separator ends a
/// piece, empty pieces included, and there is always at least one piece.
pub open spec fn split(s: Seq<char>, also_whitespace: bool) -> Seq<Seq<char>>
    decreases s.len(),
{
    if s.len() == 0 {
        seq![Seq::<char>::empty()]
    } else {
        let init = split(s.drop_last(), also_whitespace);
        if is_separator(s.last(), also_whitespace) {
            init.push(Seq::<char>::empty())
        } else {
            init.update(init.len() - 1, init.last().push(s.last()))
        }
    }
}

pub proof fn lemma_split_nonempty(s: Seq<char>, also_whitespace: bool)
    ensures
        split(s, also_whitespace).len() >= 1,
    decreases s.len(),
{
    if s.len() > 0 {
        lemma_split_nonempty(s.drop_last(), also_whitespace);
    }
}

/// Whether two texts are the same characters.
pub fn same_chars(a: &[char], b: &[char]) -> (r: bool)
    ensures
        r == (a@ == b@),
{
    if a.len() != b.len() {
        return false;
    }
    let mut i: usize = 0;
    while i < a.len()
        invariant
            a@.len() == b@.len(),
            i <= a@.len(),
            forall|k: int| 0 <= k < i ==> a@[k] == b@[k],
        decreases a@.len() - i,
    {
        if a[i] != b[i] {
            return false;
        }
        i = i + 1;
    }
    assert(a@ =~= b@);
    true
}

/// A copy of `s[from..to]`.
pub fn slice_chars(s: &[char], from: usize, to: usize) -> (r: Vec<char>)
    requires
        from <= to <= s@.len(),
    ensures
        r@ == s@.subrange(from as int, to as int),
{
    let mut r: Vec<char> = Vec::new();
    let mut i = from;
    while i < to
        invariant
            from <= i <= to <= s@.len(),
            r@ == s@.subrange(from as int, i as int),
        decreases to - i,
    {
        r.push(s[i]);
        i = i + 1;
        assert(r@ =~= s@.subrange(from as int, i as int));
    }
    r
}

proof fn lemma_trim_start_skip(s: Seq<char>, i: int)
    requires
        0 <= i < s.len(),
        python_whitespace(s[i]),
    ensures
        trim_start(s.skip(i)) == trim_start(s.skip(i + 1)),
{
    assert(s.skip(i).drop_first() =~= s.skip(i + 1));
}

proof fn lemma_trim_end_take(s: Seq<char>, j: int)
    requires
        0 < j <= s.len(),
        python_whitespace(s[j - 1]),
    ensures
        trim_end(s.take(j)) == trim_end(s.take(j - 1)),
{
    assert(s.take(j).drop_last() =~= s.take(j - 1));
}

/// The bounds of `trim(s)` inside `s`.
pub fn trim_bounds(s: &[char]) -> (r: (usize, usize))
    ensures
        r.0 <= r.1 <= s@.len(),
        s@.subrange(r.0 as int, r.1 as int) == trim(s@),
        trim_start(s@) == s@.skip(r.0 as int),
{
    let mut i: usize = 0;
    assert(s@.skip(0) =~= s@);
    while i < s.len() && is_python_whitespace(s[i])
        invariant
            i <= s@.len(),
            trim_start(s@) == trim_start(s@.skip(i as int)),
        decreases s@.len() - i,
    {
        proof { lemma_trim_start_skip(s@, i as int); }
        i = i + 1;
    }
    assert(trim_start(s@.skip(i as int)) == s@.skip(i as int));
    let ghost t = s@.skip(i as int);
    let mut j: usize = s.len();
    assert(t.take(t.len() as int) =~= t);
    while j > i && is_python_whitespace(s[j - 1])
        invariant
            i <= j <= s@.len(),
            t == s@.skip(i as int),
            trim_end(t) == trim_end(t.take(j - i)),
        decreases j,
    {
        proof {
            assert(t[j - i - 1] == s@[j - 1]);
            lemma_trim_end_take(t, j - i);
        }
        j = j - 1;
    }
    assert(trim_end(t.take(j - i)) == t.take(j - i));
    assert(t.take(j - i) =~= s@.subrange(i as int, j as int));
    (i, j)
}

/// `trim(s)` as a new vector.
pub fn trimmed(s: &[char]) -> (r: Vec<char>)
    ensures
        r@ == trim(s@),
{
    let (a, b) = trim_bounds(s);
    slice_chars(s, a, b)
}

/// `split(s, also_whitespace)`, each piece as its characters.
pub fn split_chars(s: &[char], also_whitespace: bool) -> (r: Vec<Vec<char>>)
    ensures
        r@.len() == split(s@, also_whitespace).len(),
        forall|k: int| 0 <= k < r@.len() ==> #[trigger] r@[k]@ == split(s@, also_whitespace)[k],
{
    let mut done: Vec<Vec<char>> = Vec::new();
    let mut current: Vec<char> = Vec::new();
    let mut i: usize = 0;
    assert(s@.take(0) =~= Seq::<char>::empty());
    while i < s.len()
        invariant
            i <= s@.len(),
            done@.len() + 1 == split(s@.take(i as int), also_whitespace).len(),
            forall|k: int|
                0 <= k < done@.len() ==> #[trigger] done@[k]@ == split(
                    s@.take(i as int),
                    also_whitespace,
                )[k],
            current@ == split(s@.take(i as int), also_whitespace).last(),
        decreases s@.len() - i,
    {
        let c = s[i];
        proof {
            assert(s@.take(i + 1).drop_last() =~= s@.take(i as int));
            lemma_split_nonempty(s@.take(i as int), also_whitespace);
        }
        if c == ',' || (also_whitespace && is_python_whitespace(c)) {
            done.push(current);
            current = Vec::new();
        } else {
            current.push(c);
        }
        i = i + 1;
    }
    assert(s@.take(s@.len() as int) =~= s@);
    done.push(current);
    proof {
        lemma_split_nonempty(s@, also_whitespace);
    }
    done
}

} // verus!

verus! {

/// The characters as a string.
pub fn vec_to_string(v: &[char]) -> (r: String)
    ensures
        r@ == v@,
{
    let mut r = String::new();
    let mut i: usize = 0;
    while i < v.len()
        invariant
            i <= v@.len(),
            r@ == v@.take(i as int),
        decreases v@.len() - i,
    {
        push_char(&mut r, v[i]);
        i = i + 1;
        assert(r@ =~= v@.take(i as int));
    }
    assert(v@.take(v@.len() as int) =~= v@);
    r
}

} // verus!

verus! {

/// Whether a character is CJK for the rules: the CJK radicals, kana,
/// bopomofo, enclosed CJK letters, and the unified and compatibility
/// ideographs.
pub open spec fn cjk(c: char) -> bool {
    ||| ('\u{2e80}' <= c && c <= '\u{2eff}')
    ||| ('\u{2f00}' <= c && c <= '\u{2fdf}')
    ||| ('\u{3040}' <= c && c <= '\u{309f}')
    ||| ('\u{30a0}' <= c && c <= '\u{30fa}')
    ||| ('\u{30fc}' <= c && c <= '\u{30ff}')
    ||| ('\u{3100}' <= c && c <= '\u{312f}')
    ||| ('\u{3200}' <= c && c <= '\u{32ff}')
    ||| ('\u{3400}' <= c && c <= '\u{4dbf}')
    ||| ('\u{4e00}' <= c && c <= '\u{9fff}')
    ||| ('\u{f900}' <= c && c <= '\u{faff}')
}

/// Executable form of [`cjk`].
pub fn is_cjk(c: char) -> (r: bool)
    ensures
        r == cjk(c),
{
    ('\u{2e80}' <= c && c <= '\u{2eff}') || ('\u{2f00}' <= c && c <= '\u{2fdf}') || ('\u{3040}'
        <= c && c <= '\u{309f}') || ('\u{30a0}' <= c && c <= '\u{30fa}') || ('\u{30fc}' <= c && c
        <= '\u{30ff}') || ('\u{3100}' <= c && c <= '\u{312f}') || ('\u{3200}' <= c && c
        <= '\u{32ff}') || ('\u{3400}' <= c && c <= '\u{4dbf}') || ('\u{4e00}' <= c && c
        <= '\u{9fff}') || ('\u{f900}' <= c && c <= '\u{faff}')
}

/// Whether every character is CJK.
pub fn all_cjk(s: &[char]) -> (r: bool)
    ensures
        r == (forall|i: int| 0 <= i < s@.len() ==> cjk(#[trigger] s@[i])),
{
    let mut i: usize = 0;
    while i < s.len()
        invariant
            i <= s@.len(),
            forall|k: int| 0 <= k < i ==> cjk(#[trigger] s@[k]),
        decreases s@.len() - i,
    {
        if !is_cjk(s[i]) {
            return false;
        }
        i = i + 1;
    }
    true
}

/// Whether a string spells exactly the characters of `expected`.
pub fn spells(s: &str, expected: &str) -> (r: bool)
    ensures
        r == (s@ == expected@),
{
    let a = chars_of(s);
    let b = chars_of(expected);
    same_chars(&a, &b)
}

} // verus!

verus! {

/// The ASCII digit of a number below ten.
pub open spec fn digit(n: nat) -> char {
    if n == 0 {
        '0'
    } else if n == 1 {
        '1'
    } else if n == 2 {
        '2'
    } else if n == 3 {
        '3'
    } else if n == 4 {
        '4'
    } else if n == 5 {
        '5'
    } else if n == 6 {
        '6'
    } else if n == 7 {
        '7'
    } else if n == 8 {
        '8'
    } else {
        '9'
    }
}

/// A number in decimal, without leading zeros.
pub open spec fn decimal(n: nat) -> Seq<char>
    decreases n,
{
    if n < 10 {
        seq![digit(n)]
    } else {
        decimal(n / 10).push(digit(n % 10))
    }
}

/// A number in decimal, left-padded with zeros to at least `width` digits.
pub open spec fn padded(n: nat, width: nat) -> Seq<char> {
    if decimal(n).len() >= width {
        decimal(n)
    } else {
        Seq::new((width - decimal(n).len()) as nat, |i: int| '0') + decimal(n)
    }
}

fn digit_char(n: u64) -> (r: char)
    requires
        n < 10,
    ensures
        r == digit(n as nat),
{
    if n == 0 {
        '0'
    } else if n == 1 {
        '1'
    } else if n == 2 {
        '2'
    } else if n == 3 {
        '3'
    } else if n == 4 {
        '4'
    } else if n == 5 {
        '5'
    } else if n == 6 {
        '6'
    } else if n == 7 {
        '7'
    } else if n == 8 {
        '8'
    } else {
        '9'
    }
}

/// Ten to the `k`.
pub open spec fn power_of_ten(k: nat) -> nat
    decreases k,
{
    if k == 0 {
        1
    } else {
        10 * power_of_ten((k - 1) as nat)
    }
}

pub proof fn lemma_decimal_len_below(n: nat, k: nat)
    requires
        k >= 1,
        n < power_of_ten(k),
    ensures
        1 <= decimal(n).len() <= k,
    decreases n,
{
    if n >= 10 {
        assert(k >= 2) by {
            if k == 1 {
                assert(power_of_ten(0) == 1);
                assert(power_of_ten(1) == 10 * power_of_ten(0));
            }
        }
        assert(power_of_ten(k) == 10 * power_of_ten((k - 1) as nat));
        lemma_decimal_len_below(n / 10, (k - 1) as nat);
    }
}

pub proof fn lemma_decimal_len(n: nat)
    requires
        n <= u64::MAX,
    ensures
        1 <= decimal(n).len() <= 20,
{
    reveal_with_fuel(power_of_ten, 21);
    assert(power_of_ten(20) == 100000000000000000000);
    lemma_decimal_len_below(n, 20);
}

/// Append `decimal(n)` to a string.
pub fn push_decimal(s: &mut String, n: u64)
    ensures
        final(s)@ == old(s)@ + decimal(n as nat),
    decreases n,
{
    if n >= 10 {
        push_decimal(s, n / 10);
    }
    push_char(s, digit_char(n % 10));
    proof {
        if n >= 10 {
            assert(decimal(n as nat) == decimal((n / 10) as nat).push(digit((n % 10) as nat)));
        }
    }
    assert(final(s)@ =~= old(s)@ + decimal(n as nat)) by {
        if n >= 10 {
            assert(decimal(n as nat) == decimal((n / 10) as nat).push(digit((n % 10) as nat)));
        }
    }
}

/// The number of decimal digits of `n`.
pub fn decimal_len(n: u64) -> (r: usize)
    ensures
        r == decimal(n as nat).len(),
    decreases n,
{
    proof { lemma_decimal_len(n as nat); }
    if n < 10 {
        1
    } else {
        let r = decimal_len(n / 10);
        proof { lemma_decimal_len((n / 10) as nat); assert(r <= 20); }
        r + 1
    }
}

/// Append `padded(n, width)` to a string.
pub fn push_padded(s: &mut String, n: u64, width: usize)
    ensures
        final(s)@ == old(s)@ + padded(n as nat, width as nat),
{
    let digits = decimal_len(n);
    let ghost start = s@;
    if digits < width {
        let mut k: usize = 0;
        while k < width - digits
            invariant
                digits < width,
                k <= width - digits,
                s@ == start + Seq::new(k as nat, |i: int| '0'),
            decreases width - digits - k,
        {
            push_char(s, '0');
            k = k + 1;
            assert(s@ =~= start + Seq::new(k as nat, |i: int| '0'));
        }
    }
    let ghost middle = s@;
    push_decimal(s, n);
    assert(s@ =~= start + padded(n as nat, width as nat));
}

/// Append a string.
pub fn push_str(s: &mut String, t: &str)
    ensures
        final(s)@ == old(s)@ + t@,
{
    s.append(t);
}

} // verus!

verus! {

/// Whether `s[at..]` starts with the characters of `lit`.
pub fn has_at(s: &[char], at: usize, lit: &str) -> (r: bool)
    requires
        at <= s@.len(),
    ensures
        r == starts_with(s@.skip(at as int), lit@),
{
    let p = chars_of(lit);
    if p.len() > s.len() - at {
        return false;
    }
    let mut i: usize = 0;
    while i < p.len()
        invariant
            at + p@.len() <= s@.len(),
            s@.len() == s.len(),
            p@ == lit@,
            i <= p@.len(),
            forall|k: int| 0 <= k < i ==> s@[at + k] == p@[k],
        decreases p@.len() - i,
    {
        if s[at + i] != p[i] {
            assert(s@.skip(at as int).take(p@.len() as int)[i as int] != p@[i as int]);
            return false;
        }
        i = i + 1;
    }
    assert(s@.skip(at as int).take(p@.len() as int) =~= p@);
    true
}

/// Whether `s` ends with the characters of `lit`.
pub fn ends_with_lit(s: &[char], lit: &str) -> (r: bool)
    ensures
        r == (lit@.len() <= s@.len() && s@.skip(s@.len() - lit@.len()) == lit@),
{
    let p = chars_of(lit);
    if p.len() > s.len() {
        return false;
    }
    let at = s.len() - p.len();
    let r = has_at(s, at, lit);
    assert(s@.skip(at as int).take(p@.len() as int) =~= s@.skip(at as int));
    r
}

/// The first position at or after `from` that is not Python whitespace.
pub fn skip_whitespace(s: &[char], from: usize) -> (r: usize)
    requires
        from <= s@.len(),
    ensures
        from <= r <= s@.len(),
        trim_start(s@.skip(from as int)) == s@.skip(r as int),
{
    let mut i = from;
    while i < s.len() && is_python_whitespace(s[i])
        invariant
            from <= i <= s@.len(),
            trim_start(s@.skip(from as int)) == trim_start(s@.skip(i as int)),
        decreases s@.len() - i,
    {
        proof { lemma_trim_start_skip(s@, i as int); }
        i = i + 1;
    }
    i
}

/// Whether a character occurs in the text.
pub fn contains_char(s: &[char], c: char) -> (r: bool)
    ensures
        r == s@.contains(c),
{
    let mut i: usize = 0;
    while i < s.len()
        invariant
            i <= s@.len(),
            forall|k: int| 0 <= k < i ==> s@[k] != c,
        decreases s@.len() - i,
    {
        if s[i] == c {
            assert(s@[i as int] == c);
            return true;
        }
        i = i + 1;
    }
    false
}

} // verus!

verus! {

/// A line boundary of Python's `str.splitlines`.
pub open spec fn line_break(c: char) -> bool {
    c == '\n' || c == '\r' || c == '\u{b}' || c == '\u{c}' || ('\u{1c}' <= c && c <= '\u{1e}') || c
        == '\u{85}' || c == '\u{2028}' || c == '\u{2029}'
}

/// Executable form of [`line_break`].
pub fn is_line_break(c: char) -> (r: bool)
    ensures
        r == line_break(c),
{
    c == '\n' || c == '\r' || c == '\u{b}' || c == '\u{c}' || ('\u{1c}' <= c && c <= '\u{1e}') || c
        == '\u{85}' || c == '\u{2028}' || c == '\u{2029}'
}

/// The first line boundary at or after `from`, or the length when none.
pub open spec fn first_break(s: Seq<char>, from: int) -> int
    decreases s.len() - from,
{
    if from >= s.len() {
        s.len() as int
    } else if line_break(s[from]) {
        from
    } else {
        first_break(s, from + 1)
    }
}

/// How many characters the boundary at `k` takes: two for CRLF, else one.
pub open spec fn break_width(s: Seq<char>, k: int) -> int {
    if s[k] == '\r' && k + 1 < s.len() && s[k + 1] == '\n' {
        2
    } else {
        1
    }
}

pub proof fn lemma_first_break_bounds(s: Seq<char>, from: int)
    requires
        0 <= from,
    ensures
        from <= s.len() ==> from <= first_break(s, from) <= s.len(),
        from <= s.len() ==> first_break(s, from) < s.len() ==> line_break(s[first_break(s, from)]),
        forall|k: int| from <= k < first_break(s, from) ==> !line_break(#[trigger] s[k]),
    decreases s.len() - from,
{
    if from < s.len() && !line_break(s[from]) {
        lemma_first_break_bounds(s, from + 1);
    }
}

pub proof fn lemma_first_break_at(s: Seq<char>, from: int, m: int)
    requires
        0 <= from <= m <= s.len(),
        forall|k: int| from <= k < m ==> !line_break(#[trigger] s[k]),
        m == s.len() || line_break(s[m]),
    ensures
        first_break(s, from) == m,
    decreases m - from,
{
    if from < m {
        lemma_first_break_at(s, from + 1, m);
    }
}

/// Python's `str.splitlines()`: the lines without their boundaries; CRLF is
/// one boundary, and a boundary at the very end adds no empty line.
pub open spec fn splitlines(s: Seq<char>) -> Seq<Seq<char>>
    decreases s.len(),
{
    if s.len() == 0 {
        Seq::empty()
    } else {
        let k = first_break(s, 0);
        if k < 0 || k >= s.len() {
            seq![s]
        } else {
            seq![s.take(k)] + splitlines(s.skip(k + break_width(s, k)))
        }
    }
}

/// The character ranges of a text's lines.
pub open spec fn ranges_view(s: Seq<char>, ranges: Seq<(usize, usize)>) -> Seq<Seq<char>> {
    ranges.map_values(|range: (usize, usize)| s.subrange(range.0 as int, range.1 as int))
}

/// Where each line of `splitlines(s)` lies in `s`.
pub fn line_ranges(s: &[char]) -> (r: Vec<(usize, usize)>)
    ensures
        ranges_view(s@, r@) == splitlines(s@),
        forall|k: int| 0 <= k < r@.len() ==> (#[trigger] r@[k]).0 <= r@[k].1 <= s@.len(),
{
    let mut r: Vec<(usize, usize)> = Vec::new();
    let mut start: usize = 0;
    let mut i: usize = 0;
    assert(s@.skip(0) =~= s@);
    while i < s.len()
        invariant
            start <= i <= s@.len(),
            s@.len() == s.len(),
            splitlines(s@) == ranges_view(s@, r@) + splitlines(s@.skip(start as int)),
            forall|k: int| start <= k < i ==> !line_break(#[trigger] s@[k]),
            forall|k: int| 0 <= k < r@.len() ==> (#[trigger] r@[k]).0 <= r@[k].1 <= s@.len(),
        decreases s@.len() - i,
    {
        let c = s[i];
        if is_line_break(c) {
            let width: usize = if c == '\r' && i + 1 < s.len() && s[i + 1] == '\n' {
                2
            } else {
                1
            };
            proof {
                let t = s@.skip(start as int);
                let m = i - start;
                assert forall|k: int| 0 <= k < m implies !line_break(#[trigger] t[k]) by {
                    assert(t[k] == s@[start + k]);
                }
                lemma_first_break_at(t, 0, m as int);
                assert(t[m as int] == c);
                assert(break_width(t, m as int) == width);
                assert(t.take(m as int) =~= s@.subrange(start as int, i as int));
                assert(t.skip(m + width) =~= s@.skip(i + width));
                assert(splitlines(t) == seq![t.take(m as int)] + splitlines(t.skip(m + width)));
            }
            let ghost before = r@;
            r.push((start, i));
            assert(ranges_view(s@, r@) =~= ranges_view(s@, before) + seq![s@.subrange(start as int, i as int)]);
            start = i + width;
            i = start;
        } else {
            i = i + 1;
        }
    }
    proof {
        let t = s@.skip(start as int);
        if start < s@.len() {
            assert forall|k: int| 0 <= k < t.len() implies !line_break(#[trigger] t[k]) by {
                assert(t[k] == s@[start + k]);
            }
            lemma_first_break_at(t, 0, t.len() as int);
            assert(t =~= s@.subrange(start as int, s@.len() as int));
        } else {
            assert(t.len() == 0);
        }
    }
    if start < s.len() {
        let ghost before = r@;
        r.push((start, s.len()));
        assert(ranges_view(s@, r@) =~= ranges_view(s@, before) + seq![s@.subrange(start as int, s@.len() as int)]);
    } else {
        assert(splitlines(s@.skip(start as int)) =~= Seq::<Seq<char>>::empty());
        assert(ranges_view(s@, r@) + Seq::<Seq<char>>::empty() =~= ranges_view(s@, r@));
    }
    r
}

} // verus!

verus! {

/// The UTF-8 byte offset of the character at position `k` of a text.
pub open spec fn byte_offset(s: Seq<char>, k: int) -> int {
    vstd::utf8::encode_utf8(s.take(k)).len() as int
}

/// How many bytes a character takes in UTF-8.
pub open spec fn byte_len(c: char) -> int {
    vstd::utf8::encode_scalar(c as u32).len() as int
}

pub proof fn lemma_encode_concat(a: Seq<char>, b: Seq<char>)
    ensures
        vstd::utf8::encode_utf8(a + b) == vstd::utf8::encode_utf8(a) + vstd::utf8::encode_utf8(b),
    decreases a.len(),
{
    if a.len() == 0 {
        assert(a + b =~= b);
        assert(vstd::utf8::encode_utf8(a) =~= Seq::<u8>::empty());
        assert(vstd::utf8::encode_utf8(a) + vstd::utf8::encode_utf8(b) =~= vstd::utf8::encode_utf8(b));
    } else {
        assert((a + b).drop_first() =~= a.drop_first() + b);
        assert((a + b)[0] == a[0]);
        lemma_encode_concat(a.drop_first(), b);
        assert(vstd::utf8::encode_utf8(a + b) =~= vstd::utf8::encode_utf8(a) + vstd::utf8::encode_utf8(b));
    }
}

/// The offset of the next character is this one's plus its length.
pub proof fn lemma_byte_offset_step(s: Seq<char>, k: int)
    requires
        0 <= k < s.len(),
    ensures
        byte_offset(s, k + 1) == byte_offset(s, k) + byte_len(s[k]),
{
    assert(s.take(k + 1) =~= s.take(k) + seq![s[k]]);
    lemma_encode_concat(s.take(k), seq![s[k]]);
    assert(seq![s[k]].drop_first() =~= Seq::<char>::empty());
    assert(vstd::utf8::encode_utf8(Seq::<char>::empty()) =~= Seq::<u8>::empty());
    assert(vstd::utf8::encode_utf8(seq![s[k]]) =~= vstd::utf8::encode_scalar(s[k] as u32));
}

/// Whole texts start at byte zero.
pub proof fn lemma_byte_offset_zero(s: Seq<char>)
    ensures
        byte_offset(s, 0) == 0,
{
    assert(s.take(0) =~= Seq::<char>::empty());
    assert(vstd::utf8::encode_utf8(Seq::<char>::empty()) =~= Seq::<u8>::empty());
}

/// How many bytes a character takes in UTF-8.
pub fn char_len(c: char) -> (r: usize)
    ensures
        r == byte_len(c),
        1 <= r <= 4,
{
    proof {
        vstd::utf8::char_is_scalar(c);
    }
    let n = c as u32;
    if n < 0x80 {
        1
    } else if n < 0x800 {
        2
    } else if n < 0x10000 {
        3
    } else {
        4
    }
}

/// The byte offset of every character of a text, and of its end.
pub fn byte_offsets(s: &[char]) -> (r: Vec<usize>)
    requires
        vstd::utf8::encode_utf8(s@).len() <= usize::MAX,
    ensures
        r@.len() == s@.len() + 1,
        forall|k: int| 0 <= k <= s@.len() ==> #[trigger] r@[k] == byte_offset(s@, k),
{
    let mut r: Vec<usize> = Vec::new();
    let mut offset: usize = 0;
    let mut k: usize = 0;
    proof {
        lemma_byte_offset_zero(s@);
    }
    r.push(0);
    while k < s.len()
        invariant
            k <= s@.len(),
            r@.len() == k + 1,
            offset == byte_offset(s@, k as int),
            forall|m: int| 0 <= m <= k ==> #[trigger] r@[m] == byte_offset(s@, m),
            vstd::utf8::encode_utf8(s@).len() <= usize::MAX,
        decreases s@.len() - k,
    {
        proof {
            lemma_byte_offset_step(s@, k as int);
            lemma_encode_concat(s@.take(k + 1), s@.skip(k + 1));
            assert(s@ =~= s@.take(k + 1) + s@.skip(k + 1));
        }
        offset = offset + char_len(s[k]);
        r.push(offset);
        k = k + 1;
    }
    r
}

/// How many times `c` occurs in `s`.
pub open spec fn occurrences(s: Seq<char>, c: char) -> nat
    decreases s.len(),
{
    if s.len() == 0 {
        0
    } else {
        occurrences(s.drop_last(), c) + if s.last() == c {
            1nat
        } else {
            0nat
        }
    }
}

/// How many times `c` occurs in `s`.
pub fn occurrences_of(s: &[char], c: char) -> (r: usize)
    ensures
        r == occurrences(s@, c),
{
    let mut count: usize = 0;
    let mut i: usize = 0;
    assert(s@.take(0) =~= Seq::<char>::empty());
    while i < s.len()
        invariant
            i <= s@.len(),
            count == occurrences(s@.take(i as int), c),
            count <= i,
        decreases s@.len() - i,
    {
        assert(s@.take(i + 1).drop_last() =~= s@.take(i as int));
        if s[i] == c {
            count = count + 1;
        }
        i = i + 1;
    }
    assert(s@.take(s@.len() as int) =~= s@);
    count
}

/// A character occurs no more often than the text is long.
pub proof fn lemma_occurrences_le(s: Seq<char>, c: char)
    ensures
        occurrences(s, c) <= s.len(),
    decreases s.len(),
{
    if s.len() > 0 {
        lemma_occurrences_le(s.drop_last(), c);
    }
}

/// Byte offsets rise with the character position.
pub proof fn lemma_byte_offset_rises(s: Seq<char>, i: int, j: int)
    requires
        0 <= i < j <= s.len(),
    ensures
        byte_offset(s, i) < byte_offset(s, j),
    decreases j - i,
{
    lemma_byte_offset_step(s, j - 1);
    vstd::utf8::char_is_scalar(s[j - 1]);
    assert(byte_len(s[j - 1]) >= 1);
    if i < j - 1 {
        lemma_byte_offset_rises(s, i, j - 1);
    }
}

/// A byte offset names at most one character position.
pub proof fn lemma_byte_offset_unique(s: Seq<char>, i: int, j: int)
    requires
        0 <= i <= s.len(),
        0 <= j <= s.len(),
        byte_offset(s, i) == byte_offset(s, j),
    ensures
        i == j,
{
    if i < j {
        lemma_byte_offset_rises(s, i, j);
    } else if j < i {
        lemma_byte_offset_rises(s, j, i);
    }
}

} // verus!
