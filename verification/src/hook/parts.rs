//! One batch of a message: what a batch may cost, what caching it found, and
//! the prefix replay that decides what to show in its place.
//!
//! A batch is not fixed on its own: the rules carry state from earlier lines,
//! so the whole message so far is fixed, prefix and batch together, and the
//! lines belonging to this batch are cut out of the result ([`replay_with`]).
//! Nothing here parses Markdown: whether a code span may still be open, and
//! what the fixed text is, are the fixer's answers.

use vstd::prelude::*;

use crate::hook::state::{Kind, Step, PART_SUFFIX};
use crate::text::{chars_of, slice_chars, vec_to_string};

verus! {

/// How long a batch waits for a slower sibling before it to land, in
/// milliseconds.
pub const SIBLING_WAIT_MILLIS: u64 = 2000;

/// How often the wait looks again, in milliseconds.
pub const SIBLING_POLL_MILLIS: u64 = 20;

/// The most bytes of original text one message may reach by default.
pub const DEFAULT_BYTES: usize = 262144;

/// The most batches one message may have by default.
pub const DEFAULT_BATCHES: usize = 1000;

/// The duration `std::time::Duration::from_millis` makes of a count of
/// milliseconds.
pub uninterp spec fn duration_of_millis(n: u64) -> std::time::Duration;

/// `std::time::Duration::from_millis`: the duration of `n` milliseconds.
#[verifier::external_body]
fn milliseconds(n: u64) -> (r: std::time::Duration)
    ensures
        r == duration_of_millis(n),
{
    std::time::Duration::from_millis(n)
}

/// How long a batch waits for a slower sibling before it to land.
pub fn sibling_wait() -> (r: std::time::Duration)
    ensures
        r == duration_of_millis(SIBLING_WAIT_MILLIS),
{
    milliseconds(SIBLING_WAIT_MILLIS)
}

/// How often the wait looks again.
pub fn sibling_poll() -> (r: std::time::Duration)
    ensures
        r == duration_of_millis(SIBLING_POLL_MILLIS),
{
    milliseconds(SIBLING_POLL_MILLIS)
}

/// What one message instance may cost before the hook stops fixing it.
#[derive(Clone, Copy, Debug, Eq, PartialEq)]
pub struct Limits {
    /// The most bytes of original text one message may reach, this batch
    /// included.
    pub bytes: usize,
    /// The most batches one message may have.
    pub batches: usize,
    /// How long one batch waits for the batches before it.
    pub wait: std::time::Duration,
}

impl Default for Limits {
    /// The limits a hook event runs under: 256 KiB, a thousand batches, and the
    /// sibling wait.
    fn default() -> (r: Self)
        ensures
            r.bytes == DEFAULT_BYTES,
            r.batches == DEFAULT_BATCHES,
            r.wait == duration_of_millis(SIBLING_WAIT_MILLIS),
    {
        Limits { bytes: DEFAULT_BYTES, batches: DEFAULT_BATCHES, wait: sibling_wait() }
    }
}

/// What caching one batch found already under its index.
#[derive(Clone, Copy, Debug, Eq, PartialEq, Structural)]
pub enum Stored {
    /// Nothing; the batch is now on disk, and it is the one under this index.
    Kept,
    /// The same batch, already there: the host sent it twice.
    Repeated,
    /// A different batch under the same index: this is not the same message
    /// instance any more, and nothing was overwritten.
    Conflict,
}

/// What caching one batch means, given whether the index was free and, when it
/// was not, whether the batch already there is this one.
pub fn stored(published: bool, same: bool) -> (r: Stored)
    ensures
        r == if published {
            Stored::Kept
        } else if same {
            Stored::Repeated
        } else {
            Stored::Conflict
        },
{
    if published {
        Stored::Kept
    } else if same {
        Stored::Repeated
    } else {
        Stored::Conflict
    }
}

/// What the prefix replay decided for one batch.
#[derive(Clone, Debug, Eq, PartialEq)]
pub enum Outcome {
    /// Show this in place of the batch.
    Fixed(String),
    /// The batch is already what the fixes would make it; the host shows it.
    Unchanged,
    /// The batch is shown as it came, and the diagnostics say why.
    Declined(Step, Kind),
}

/// An [`Outcome`], its text as characters.
pub enum Decision {
    Fixed(Seq<char>),
    Unchanged,
    Declined(Step, Kind),
}

impl View for Outcome {
    type V = Decision;

    open spec fn view(&self) -> Decision {
        match self {
            Outcome::Fixed(shown) => Decision::Fixed(shown@),
            Outcome::Unchanged => Decision::Unchanged,
            Outcome::Declined(step, kind) => Decision::Declined(*step, *kind),
        }
    }
}

/// How many line feeds a text holds, which is how the fixer counts lines.
pub open spec fn line_feed_count(s: Seq<char>) -> nat
    decreases s.len(),
{
    if s.len() == 0 {
        0
    } else {
        line_feed_count(s.drop_last()) + if s.last() == '\n' {
            1nat
        } else {
            0nat
        }
    }
}

/// What follows the `k`-th line feed of a text; the whole text for none.
pub open spec fn after_line_feeds(s: Seq<char>, k: nat) -> Seq<char>
    decreases s.len(),
{
    if k == 0 || s.len() == 0 {
        s
    } else if s[0] == '\n' {
        after_line_feeds(s.skip(1), (k - 1) as nat)
    } else {
        after_line_feeds(s.skip(1), k)
    }
}

/// Whether a text ends on a line feed.
pub open spec fn ends_in_line_feed(s: Seq<char>) -> bool {
    s.len() > 0 && s.last() == '\n'
}

/// This batch's lines cut out of the fixed whole: what follows as many line
/// feeds as the prefix holds, or `None` when the fixed whole no longer has the
/// lines the original had or ends differently from the batch.
pub open spec fn sliced(fixed: Seq<char>, prefix: Seq<char>, delta: Seq<char>) -> Option<Seq<char>> {
    if line_feed_count(fixed) != line_feed_count(prefix) + line_feed_count(delta) {
        None
    } else {
        let shown = after_line_feeds(fixed, line_feed_count(prefix));
        if ends_in_line_feed(shown) == ends_in_line_feed(delta) {
            Some(shown)
        } else {
            None
        }
    }
}

/// How many line feeds a text holds.
fn line_feeds(text: &[char]) -> (r: usize)
    ensures
        r == line_feed_count(text@),
{
    let mut count: usize = 0;
    let mut i: usize = 0;
    assert(text@.take(0) =~= Seq::<char>::empty());
    while i < text.len()
        invariant
            i <= text@.len(),
            count == line_feed_count(text@.take(i as int)),
            count <= i,
        decreases text@.len() - i,
    {
        assert(text@.take(i + 1).drop_last() =~= text@.take(i as int));
        if text[i] == '\n' {
            count = count + 1;
        }
        i = i + 1;
    }
    assert(text@.take(text@.len() as int) =~= text@);
    count
}

/// Where what follows the `k`-th line feed starts.
fn after_position(text: &[char], k: usize) -> (r: usize)
    ensures
        r <= text@.len(),
        text@.skip(r as int) == after_line_feeds(text@, k as nat),
{
    let mut i: usize = 0;
    let mut left = k;
    assert(text@.skip(0) =~= text@);
    while left > 0 && i < text.len()
        invariant
            i <= text@.len(),
            after_line_feeds(text@, k as nat) == after_line_feeds(text@.skip(i as int), left as nat),
        decreases text@.len() - i,
    {
        assert(text@.skip(i as int).skip(1) =~= text@.skip(i + 1));
        if text[i] == '\n' {
            left = left - 1;
        }
        i = i + 1;
    }
    i
}

fn ends_with_line_feed(text: &[char]) -> (r: bool)
    ensures
        r == ends_in_line_feed(text@),
{
    text.len() > 0 && text[text.len() - 1] == '\n'
}

/// Cut this batch's lines out of the fixed whole, or `None` when the fixed
/// whole no longer has the lines the original had.
pub fn slice(fixed: &str, prefix: &str, delta: &str) -> (r: Option<String>)
    ensures
        match r {
            Some(shown) => sliced(fixed@, prefix@, delta@) == Some(shown@),
            None => sliced(fixed@, prefix@, delta@) is None,
        },
{
    let fixed = chars_of(fixed);
    let prefix = chars_of(prefix);
    let delta = chars_of(delta);
    let skip = line_feeds(&prefix);
    let own = line_feeds(&delta);
    let total = line_feeds(&fixed);
    if total < skip || total - skip != own {
        return None;
    }
    let start = after_position(&fixed, skip);
    let shown = slice_chars(&fixed, start, fixed.len());
    assert(fixed@.subrange(start as int, fixed@.len() as int) =~= fixed@.skip(start as int));
    if ends_with_line_feed(&shown) == ends_with_line_feed(&delta) {
        Some(vec_to_string(&shown))
    } else {
        None
    }
}

/// The decision for one batch, from what the fixer says of the whole: whether
/// a code span may still be open in it (asked only of a batch that is not the
/// final one), and the fixed whole, or `None` when the fixer refused it.
pub open spec fn decided(
    prefix: Seq<char>,
    delta: Seq<char>,
    is_final: bool,
    unclosed: bool,
    fixed: Option<Seq<char>>,
) -> Decision {
    if delta.len() == 0 {
        Decision::Unchanged
    } else if (prefix.len() > 0 && !ends_in_line_feed(prefix)) || (!is_final && !ends_in_line_feed(delta)) {
        Decision::Declined(Step::Siblings, Kind::Partial)
    } else if !is_final && unclosed {
        Decision::Declined(Step::Siblings, Kind::Unclosed)
    } else {
        match fixed {
            None => Decision::Declined(Step::Fix, Kind::Misconfigured),
            Some(whole) => match sliced(whole, prefix, delta) {
                None => Decision::Declined(Step::Fix, Kind::Crashed),
                Some(shown) => if shown == delta {
                    Decision::Unchanged
                } else {
                    Decision::Fixed(shown)
                },
            },
        }
    }
}

/// Whether a batch boundary is not a line boundary: the prefix ends mid-line,
/// or a batch that is not the final one does.
pub open spec fn partial(prefix: Seq<char>, delta: Seq<char>, is_final: bool) -> bool {
    (prefix.len() > 0 && !ends_in_line_feed(prefix)) || (!is_final && !ends_in_line_feed(delta))
}

/// Whether `r` is what the replay makes of the fixer's answers about `whole`:
/// `unclosed` asked only of a batch that is not the final one, and `fixed`
/// only when that answer let the fix go ahead.
pub open spec fn answered<U: Fn(&str) -> bool, F: Fn(&str) -> Option<String>>(
    unclosed_span: U,
    fix: F,
    prefix: Seq<char>,
    delta: Seq<char>,
    is_final: bool,
    whole: &str,
    unclosed: bool,
    fixed: Option<String>,
    r: Decision,
) -> bool {
    &&& whole@ == prefix + delta
    &&& !is_final ==> call_ensures(unclosed_span, (whole,), unclosed)
    &&& (is_final || !unclosed) ==> call_ensures(fix, (whole,), fixed)
    &&& r == decided(
        prefix,
        delta,
        is_final,
        unclosed,
        match fixed {
            Some(text) => Some(text@),
            None => None,
        },
    )
}

/// Fix one batch in the light of everything before it, with the fixer's two
/// answers supplied: `unclosed_span` says whether the text so far may still be
/// inside an inline code span, and `fix` gives the fixed text or `None` when
/// it refuses it. An empty batch decides nothing; a batch boundary that is not
/// a line boundary, or a span a later batch could still close, leaves the batch
/// as it came; otherwise the whole is fixed and this batch's lines are cut out
/// of the result.
pub fn replay_with<U, F>(unclosed_span: U, fix: F, prefix: &str, delta: &str, is_final: bool) -> (r: Outcome)
    where
        U: Fn(&str) -> bool,
        F: Fn(&str) -> Option<String>,
    requires
        forall|text: &str| call_requires(unclosed_span, (text,)),
        forall|text: &str| call_requires(fix, (text,)),
    ensures
        delta@.len() == 0 ==> r@ == Decision::Unchanged,
        delta@.len() > 0 && partial(prefix@, delta@, is_final) ==> r@ == Decision::Declined(Step::Siblings, Kind::Partial),
        delta@.len() > 0 && !partial(prefix@, delta@, is_final) ==> exists|whole: &str, unclosed: bool, fixed: Option<String>|
            #[trigger] answered(unclosed_span, fix, prefix@, delta@, is_final, whole, unclosed, fixed, r@),
{
    if delta.is_empty() {
        return Outcome::Unchanged;
    }
    let prefix_chars = chars_of(prefix);
    let delta_chars = chars_of(delta);
    if (prefix_chars.len() > 0 && !ends_with_line_feed(&prefix_chars)) || (!is_final && !ends_with_line_feed(&delta_chars)) {
        return Outcome::Declined(Step::Siblings, Kind::Partial);
    }
    let mut joined = String::new();
    crate::text::push_str(&mut joined, prefix);
    crate::text::push_str(&mut joined, delta);
    let whole = joined.as_str();
    let unclosed = if is_final {
        false
    } else {
        unclosed_span(whole)
    };
    if unclosed {
        let ghost nothing: Option<String> = None;
        assert(answered(unclosed_span, fix, prefix@, delta@, is_final, whole, unclosed, nothing, Decision::Declined(Step::Siblings, Kind::Unclosed)));
        return Outcome::Declined(Step::Siblings, Kind::Unclosed);
    }
    let fixed = fix(whole);
    let r = match &fixed {
        None => Outcome::Declined(Step::Fix, Kind::Misconfigured),
        Some(text) => match slice(text.as_str(), prefix, delta) {
            None => Outcome::Declined(Step::Fix, Kind::Crashed),
            Some(shown) => {
                if crate::text::spells(shown.as_str(), delta) {
                    Outcome::Unchanged
                } else {
                    Outcome::Fixed(shown)
                }
            },
        },
    };
    assert(answered(unclosed_span, fix, prefix@, delta@, is_final, whole, unclosed, fixed, r@));
    r
}

/// The batch index a cached batch's file name holds: its digits before
/// [`PART_SUFFIX`], as `usize::from_str` reads them, or `None` when the name
/// is not a cached batch.
pub open spec fn indexed_as(name: Seq<char>) -> Option<nat> {
    if name.len() >= PART_SUFFIX@.len() && name.skip(name.len() - PART_SUFFIX@.len()) == PART_SUFFIX@ {
        parsed_index(name.take(name.len() - PART_SUFFIX@.len()))
    } else {
        None
    }
}

/// Some decimal digits without the optional `+` before them.
pub open spec fn unsigned_body(digits: Seq<char>) -> Seq<char> {
    if digits.len() > 0 && digits[0] == '+' {
        digits.skip(1)
    } else {
        digits
    }
}

/// Whether every character is an ASCII digit.
pub open spec fn all_digits(s: Seq<char>) -> bool {
    forall|i: int| 0 <= i < s.len() ==> '0' <= #[trigger] s[i] <= '9'
}

/// A whole number in decimal, an optional `+` before it, that fits a
/// `usize`, as `usize::from_str` reads it.
pub open spec fn parsed_index(digits: Seq<char>) -> Option<nat> {
    let body = unsigned_body(digits);
    if body.len() > 0 && all_digits(body) && decimal_value(body) <= usize::MAX {
        Some(decimal_value(body))
    } else {
        None
    }
}

/// The value of some decimal digits.
pub open spec fn decimal_value(digits: Seq<char>) -> nat
    decreases digits.len(),
{
    if digits.len() == 0 {
        0
    } else {
        decimal_value(digits.drop_last()) * 10 + (digits.last() as nat - '0' as nat) as nat
    }
}

proof fn lemma_decimal_value_grows(digits: Seq<char>, k: int)
    requires
        0 <= k <= digits.len(),
        forall|i: int| 0 <= i < digits.len() ==> '0' <= #[trigger] digits[i] <= '9',
    ensures
        decimal_value(digits.take(k)) <= decimal_value(digits),
    decreases digits.len() - k,
{
    if k < digits.len() {
        let d = digits.drop_last();
        assert(d.take(k) =~= digits.take(k));
        assert forall|i: int| 0 <= i < d.len() implies '0' <= #[trigger] d[i] <= '9' by {
            assert(d[i] == digits[i]);
        }
        if k < d.len() {
            lemma_decimal_value_grows(d, k);
        } else {
            assert(d.take(k) =~= d);
        }
        assert(decimal_value(digits) == decimal_value(d) * 10 + (digits.last() as nat - '0' as nat) as nat);
    } else {
        assert(digits.take(k) =~= digits);
    }
}

/// Read the batch index out of a cached batch's file name, or `None` when the
/// name is not a cached batch.
pub fn indexed(name: &str) -> (r: Option<usize>)
    ensures
        match r {
            Some(index) => indexed_as(name@) == Some(index as nat),
            None => indexed_as(name@) is None,
        },
{
    let chars = chars_of(name);
    let suffix = chars_of(PART_SUFFIX);
    if chars.len() < suffix.len() || !crate::text::same_chars(&slice_chars(&chars, chars.len() - suffix.len(), chars.len()), &suffix) {
        proof {
            if chars@.len() >= suffix@.len() {
                assert(chars@.subrange(chars@.len() - suffix@.len(), chars@.len() as int) =~= chars@.skip(chars@.len() - suffix@.len()));
            }
        }
        return None;
    }
    assert(chars@.subrange(chars@.len() - suffix@.len(), chars@.len() as int) =~= chars@.skip(chars@.len() - suffix@.len()));
    let digits = slice_chars(&chars, 0, chars.len() - suffix.len());
    assert(digits@ =~= chars@.take(chars@.len() - suffix@.len()));
    let from: usize = if digits.len() > 0 && digits[0] == '+' {
        1
    } else {
        0
    };
    let ghost body = digits@.skip(from as int);
    proof {
        let suffix_len = PART_SUFFIX@.len();
        assert(suffix@ == PART_SUFFIX@);
        assert(indexed_as(name@) == parsed_index(digits@));
        if from == 0 {
            assert(digits@.skip(0) =~= digits@);
        }
        assert(body == unsigned_body(digits@));
    }
    if from >= digits.len() {
        return None;
    }
    let mut value: usize = 0;
    let mut i = from;
    assert(body.take(0) =~= Seq::<char>::empty());
    while i < digits.len()
        invariant
            from <= i <= digits@.len(),
            body == digits@.skip(from as int),
            indexed_as(name@) == parsed_index(digits@),
            body == unsigned_body(digits@),
            forall|k: int| 0 <= k < i - from ==> '0' <= #[trigger] body[k] <= '9',
            value == decimal_value(body.take(i - from)),
        decreases digits@.len() - i,
    {
        let c = digits[i];
        if !('0' <= c && c <= '9') {
            assert(body[i - from] == c);
            assert(!all_digits(body));
            return None;
        }
        assert(body.take(i - from + 1).drop_last() =~= body.take(i - from));
        assert(body.take(i - from + 1).last() == c);
        let d = (c as u32 - '0' as u32) as usize;
        if value > (usize::MAX - d) / 10 {
            proof {
                assert(value * 10 + d > usize::MAX) by (nonlinear_arith)
                    requires
                        value > (usize::MAX - d) / 10,
                        d <= 9,
                ;
                if all_digits(body) {
                    lemma_decimal_value_grows(body, i - from + 1);
                }
            }
            return None;
        }
        value = value * 10 + d;
        i = i + 1;
    }
    assert(body.take(body.len() as int) =~= body);
    Some(value)
}

/// Whether the batches found, listed by index in index order, open with every
/// batch of a prefix of `batches` batches: the batch in slot `n` is batch `n`.
pub open spec fn opens_with(found: Seq<usize>, batches: nat) -> bool {
    found.len() >= batches && forall|slot: int| 0 <= slot < batches ==> #[trigger] found[slot] == slot
}

/// Return whether the batches found, by index in index order, open with
/// every batch of a prefix of `batches` batches. How many files there are does
/// not settle it: the batch asking, and any after it, are there too.
pub fn whole(found: &[usize], batches: usize) -> (r: bool)
    ensures
        r == opens_with(found@, batches as nat),
{
    if found.len() < batches {
        return false;
    }
    let mut slot: usize = 0;
    while slot < batches
        invariant
            found@.len() >= batches,
            slot <= batches,
            forall|k: int| 0 <= k < slot ==> #[trigger] found@[k] == k,
        decreases batches - slot,
    {
        if found[slot] != slot {
            return false;
        }
        slot = slot + 1;
    }
    true
}

proof fn lemma_line_feed_count_concat(a: Seq<char>, b: Seq<char>)
    ensures
        line_feed_count(a + b) == line_feed_count(a) + line_feed_count(b),
    decreases b.len(),
{
    if b.len() == 0 {
        assert(a + b =~= a);
    } else {
        assert((a + b).drop_last() =~= a + b.drop_last());
        assert((a + b).last() == b.last());
        lemma_line_feed_count_concat(a, b.drop_last());
    }
}

proof fn lemma_line_feed_count_front(s: Seq<char>)
    requires
        s.len() > 0,
    ensures
        line_feed_count(s) == line_feed_count(s.skip(1)) + if s[0] == '\n' {
            1nat
        } else {
            0nat
        },
{
    let head = seq![s[0]];
    assert(s =~= head + s.skip(1));
    lemma_line_feed_count_concat(head, s.skip(1));
    assert(head.drop_last() =~= Seq::<char>::empty());
    assert(line_feed_count(Seq::<char>::empty()) == 0);
    assert(head.last() == s[0]);
    assert(line_feed_count(head) == line_feed_count(head.drop_last()) + if head.last() == '\n' {
        1nat
    } else {
        0nat
    });
}

/// What follows the `k`-th line feed holds the line feeds after it.
proof fn lemma_after_line_feeds_count(s: Seq<char>, k: nat)
    requires
        k <= line_feed_count(s),
    ensures
        line_feed_count(after_line_feeds(s, k)) == line_feed_count(s) - k,
    decreases s.len(),
{
    if k > 0 && s.len() > 0 {
        lemma_line_feed_count_front(s);
        if s[0] == '\n' {
            lemma_after_line_feeds_count(s.skip(1), (k - 1) as nat);
        } else {
            lemma_after_line_feeds_count(s.skip(1), k);
        }
    }
}

/// Past the line feeds of a text that ends on one, what follows is what was
/// put after it.
proof fn lemma_after_whole_lines(p: Seq<char>, d: Seq<char>)
    requires
        p.len() == 0 || ends_in_line_feed(p),
    ensures
        after_line_feeds(p + d, line_feed_count(p)) == d,
    decreases p.len(),
{
    if p.len() == 0 {
        assert(p + d =~= d);
    } else {
        let rest = p.skip(1);
        lemma_line_feed_count_front(p);
        assert((p + d)[0] == p[0]);
        assert((p + d).skip(1) =~= rest + d);
        assert(line_feed_count(p) >= 1) by {
            assert(p.last() == '\n');
        }
        if rest.len() > 0 {
            assert(rest.last() == p.last());
        }
        lemma_after_whole_lines(rest, d);
    }
}

/// What slicing shows holds as many line feeds as the batch, and ends as the
/// batch ends: only the batch's own lines come back, ending byte for byte as
/// it did.
pub proof fn law_slice_keeps_the_batch_lines(fixed: Seq<char>, prefix: Seq<char>, delta: Seq<char>)
    requires
        sliced(fixed, prefix, delta) is Some,
    ensures
        line_feed_count(sliced(fixed, prefix, delta)->Some_0) == line_feed_count(delta),
        ends_in_line_feed(sliced(fixed, prefix, delta)->Some_0) == ends_in_line_feed(delta),
{
    lemma_after_line_feeds_count(fixed, line_feed_count(prefix));
}

/// A fix that changed nothing gives back the batch: when the prefix ends on
/// a line boundary, slicing the unchanged whole shows exactly the batch, and
/// a batch the replay goes on to fix is then left as it came.
pub proof fn law_an_unchanged_whole_shows_the_batch(prefix: Seq<char>, delta: Seq<char>, is_final: bool, unclosed: bool)
    requires
        prefix.len() == 0 || ends_in_line_feed(prefix),
    ensures
        sliced(prefix + delta, prefix, delta) == Some(delta),
        delta.len() > 0 && !partial(prefix, delta, is_final) && (is_final || !unclosed) ==> decided(
            prefix,
            delta,
            is_final,
            unclosed,
            Some(prefix + delta),
        ) == Decision::Unchanged,
{
    lemma_line_feed_count_concat(prefix, delta);
    lemma_after_whole_lines(prefix, delta);
}

} // verus!
