//! Where one session's hook state lives, and what is allowed to be in it.
//!
//! The state directory holds assistant replies, so every rule here is about
//! keeping them the user's own and keeping them short-lived. What is decided
//! here is what the names are: ids arrive from the host and become path
//! segments, so [`identifier`] folds away anything that is not a plain name, one
//! to one; [`instance`] joins two of them on the one character that folding
//! never produces; and a diagnostics line says when it was written in UTC
//! ([`timestamp`]). Creating, reading and sweeping the directories is the
//! caller's.

use vstd::prelude::*;

use vstd::utf8::encode_utf8;

use crate::hook::json::{json_quoted, quote};
use crate::text::{padded, push_char, push_padded, push_str};

verus! {

/// The one directory under the system's scratch directory that all of this
/// lives in.
pub const STATE_DIRECTORY: &'static str = "limae-hook";

/// Where a session keeps the batches of its messages, one directory per
/// message instance ([`instance`]).
pub const PARTS_DIRECTORY: &'static str = "parts";

/// Where a fail-open path says what it did.
pub const DIAGNOSTICS_FILENAME: &'static str = "diagnostics.jsonl";

/// What a batch is called once it is all there.
pub const PART_SUFFIX: &'static str = ".part";

/// What a batch is called while it is being written.
pub const TEMPORARY_SUFFIX: &'static str = ".writing";

/// The file that marks a message instance as abandoned: every later batch of
/// it is shown as it came.
pub const VOID_FILENAME: &'static str = "void";

/// The mode every directory here is created with.
pub const DIRECTORY_MODE: u32 = 0o700;

/// The mode every file here is created with.
pub const FILE_MODE: u32 = 0o600;

/// How long a session's state is kept, in seconds.
pub const RETENTION_SECONDS: u64 = 86400;

/// How long one message's cached batches are kept, in seconds.
pub const ORPHAN_RETENTION_SECONDS: u64 = 3600;

/// Whether state last touched `age` ago, in whole seconds and the
/// nanoseconds past them, has been kept longer than `keep`: strictly longer.
/// State whose age cannot be read, such as one stamped after now, has not.
pub fn outlived(age: Option<(u64, u32)>, keep: (u64, u32)) -> (r: bool)
    ensures
        r == match age {
            None => false,
            Some(age) => age.0 > keep.0 || (age.0 == keep.0 && age.1 > keep.1),
        },
{
    match age {
        None => false,
        Some(age) => age.0 > keep.0 || (age.0 == keep.0 && age.1 > keep.1),
    }
}

/// The longest an encoded id may be: two of them and a dot make an instance
/// name, and a file name is 255 bytes on the filesystems this runs on.
pub const NAME_LIMIT: usize = 120;

/// Which step of a batch failed open.
#[derive(Clone, Copy, Debug, Eq, PartialEq, Structural)]
pub enum Step {
    /// Waiting for the batches before this one and putting the prefix
    /// together, and the two signals read off that prefix.
    Siblings,
    /// This repository's own deterministic fixes over the prefix and the batch.
    Fix,
    /// Anything that got as far as the top of the hook and crashed.
    Display,
}

/// The name a step is written down under.
pub open spec fn step_name(step: Step) -> Seq<char> {
    match step {
        Step::Siblings => "siblings"@,
        Step::Fix => "fix"@,
        Step::Display => "display"@,
    }
}

impl Step {
    /// Return the name this step is written down under.
    #[must_use]
    pub fn as_str(self) -> (r: &'static str)
        ensures
            r@ == step_name(self),
    {
        match self {
            Step::Siblings => "siblings",
            Step::Fix => "fix",
            Step::Display => "display",
        }
    }
}

/// How a step failed.
#[derive(Clone, Copy, Debug, Eq, PartialEq, Structural)]
pub enum Kind {
    /// A batch before this one never arrived, or this message instance was
    /// abandoned.
    Incomplete,
    /// A line boundary is not where a batch boundary is.
    Partial,
    /// The text so far may still be inside an inline code span that a later
    /// batch could close.
    Unclosed,
    /// The rule configuration cannot be read, or the reply carries an inline
    /// directive naming a rule that does not exist.
    Misconfigured,
    /// A bug here, or a state directory that would not cooperate.
    Crashed,
}

/// The name a kind is written down under.
pub open spec fn kind_name(kind: Kind) -> Seq<char> {
    match kind {
        Kind::Incomplete => "incomplete"@,
        Kind::Partial => "partial"@,
        Kind::Unclosed => "unclosed"@,
        Kind::Misconfigured => "config"@,
        Kind::Crashed => "crashed"@,
    }
}

impl Kind {
    /// Return the name this kind is written down under.
    #[must_use]
    pub fn as_str(self) -> (r: &'static str)
        ensures
            r@ == kind_name(self),
    {
        match self {
            Kind::Incomplete => "incomplete",
            Kind::Partial => "partial",
            Kind::Unclosed => "unclosed",
            Kind::Misconfigured => "config",
            Kind::Crashed => "crashed",
        }
    }
}

/// Whether a byte stands for itself in an encoded id: an ASCII letter, digit
/// or hyphen.
pub open spec fn plain(b: u8) -> bool {
    (0x30 <= b <= 0x39) || (0x41 <= b <= 0x5A) || (0x61 <= b <= 0x7A) || b == 0x2D
}

/// The upper-case hexadecimal digit of a number below sixteen.
pub open spec fn hex_digit(n: int) -> char {
    if n < 10 {
        (0x30 + n) as char
    } else {
        (0x41 + n - 10) as char
    }
}

/// How one byte is written in an encoded id: itself when it is plain, else
/// `_` and its two hexadecimal digits.
pub open spec fn code(b: u8) -> Seq<char> {
    if plain(b) {
        seq![b as char]
    } else {
        seq!['_', hex_digit(b as int / 16), hex_digit(b as int % 16)]
    }
}

/// The encoding of some bytes, one code after another.
pub open spec fn encode(bytes: Seq<u8>) -> Seq<char>
    decreases bytes.len(),
{
    if bytes.len() == 0 {
        Seq::empty()
    } else {
        encode(bytes.drop_last()) + code(bytes.last())
    }
}

/// The path segment an id becomes: its UTF-8 bytes encoded, or nothing when
/// there is no id or the encoding is longer than [`NAME_LIMIT`].
pub open spec fn identified(value: Option<Seq<char>>) -> Seq<char> {
    let encoded = encode(
        encode_utf8(
            match value {
                Some(text) => text,
                None => Seq::empty(),
            },
        ),
    );
    if encoded.len() > NAME_LIMIT {
        Seq::empty()
    } else {
        encoded
    }
}

proof fn lemma_encode_concat(x: Seq<u8>, y: Seq<u8>)
    ensures
        encode(x + y) == encode(x) + encode(y),
    decreases y.len(),
{
    if y.len() == 0 {
        assert(x + y =~= x);
        assert(encode(x) + encode(y) =~= encode(x));
    } else {
        assert((x + y).drop_last() =~= x + y.drop_last());
        assert((x + y).last() == y.last());
        lemma_encode_concat(x, y.drop_last());
        assert(encode(x + y) =~= encode(x) + encode(y));
    }
}

/// The value of an upper-case hexadecimal digit.
pub open spec fn hex_value(c: char) -> int {
    if (c as int) < 0x41 {
        c as int - 0x30
    } else {
        c as int - 0x41 + 10
    }
}

/// The bytes an encoded id stands for, read back one code at a time.
pub open spec fn decode(cs: Seq<char>) -> Seq<u8>
    decreases cs.len(),
{
    if cs.len() == 0 {
        Seq::empty()
    } else if cs[0] == '_' && cs.len() >= 3 {
        seq![(hex_value(cs[1]) * 16 + hex_value(cs[2])) as u8] + decode(cs.skip(3))
    } else {
        seq![cs[0] as u8] + decode(cs.skip(1))
    }
}

proof fn lemma_decode_code(b: u8, rest: Seq<char>)
    ensures
        decode(code(b) + rest) == seq![b] + decode(rest),
{
    let cs = code(b) + rest;
    if plain(b) {
        assert(cs[0] == b as char);
        assert((b as char) as int == b as int);
        assert(cs.skip(1) =~= rest);
    } else {
        let hi = b as int / 16;
        let lo = b as int % 16;
        assert(hex_digit(hi) as int == if hi < 10 { 0x30 + hi } else { 0x41 + hi - 10 });
        assert(hex_digit(lo) as int == if lo < 10 { 0x30 + lo } else { 0x41 + lo - 10 });
        assert(hex_value(cs[1]) == hi);
        assert(hex_value(cs[2]) == lo);
        assert(cs.skip(3) =~= rest);
    }
}

proof fn lemma_decode_encode(bytes: Seq<u8>)
    ensures
        decode(encode(bytes)) == bytes,
    decreases bytes.len(),
{
    if bytes.len() > 0 {
        let first = seq![bytes[0]];
        let rest = bytes.drop_first();
        assert(bytes =~= first + rest);
        lemma_encode_concat(first, rest);
        assert(first.drop_last() =~= Seq::<u8>::empty());
        assert(first.last() == bytes[0]);
        assert(encode(Seq::<u8>::empty()) =~= Seq::<char>::empty());
        assert(encode(first) == encode(first.drop_last()) + code(first.last()));
        assert(encode(first) =~= code(bytes[0]));
        lemma_decode_code(bytes[0], encode(rest));
        lemma_decode_encode(rest);
        assert(seq![bytes[0]] + rest =~= bytes);
    } else {
        assert(encode(bytes) =~= Seq::<char>::empty());
    }
}

/// No two ids share a segment: two ids that come out as the same non-empty
/// segment are the same id.
pub proof fn law_identifier_one_to_one(x: Option<Seq<char>>, y: Option<Seq<char>>)
    requires
        identified(x) == identified(y),
        identified(x).len() > 0,
    ensures
        x == y,
{
    let tx = match x {
        Some(text) => text,
        None => Seq::empty(),
    };
    let ty = match y {
        Some(text) => text,
        None => Seq::empty(),
    };
    lemma_decode_encode(encode_utf8(tx));
    lemma_decode_encode(encode_utf8(ty));
    vstd::utf8::encode_utf8_decode_utf8(tx);
    vstd::utf8::encode_utf8_decode_utf8(ty);
    assert(tx == ty);
    if x is None || y is None {
        assert(encode_utf8(Seq::<char>::empty()) =~= Seq::<u8>::empty());
        assert(encode(Seq::<u8>::empty()) =~= Seq::<char>::empty());
    }
}

/// Whether a character may stand in a segment: an ASCII letter, digit,
/// hyphen or underscore.
pub open spec fn segment_char(c: char) -> bool {
    ('0' <= c <= '9') || ('A' <= c <= 'Z') || ('a' <= c <= 'z') || c == '-' || c == '_'
}

proof fn lemma_encode_plain(bytes: Seq<u8>)
    ensures
        forall|i: int| 0 <= i < encode(bytes).len() ==> segment_char(#[trigger] encode(bytes)[i]),
    decreases bytes.len(),
{
    if bytes.len() > 0 {
        lemma_encode_plain(bytes.drop_last());
        let b = bytes.last();
        let hi = b as int / 16;
        let lo = b as int % 16;
        assert(hex_digit(hi) as int == if hi < 10 { 0x30 + hi } else { 0x41 + hi - 10 });
        assert(hex_digit(lo) as int == if lo < 10 { 0x30 + lo } else { 0x41 + lo - 10 });
        assert(plain(b) ==> (b as char) as int == b as int);
        let front = encode(bytes.drop_last());
        assert forall|i: int| 0 <= i < encode(bytes).len() implies segment_char(#[trigger] encode(bytes)[i]) by {
            if i < front.len() {
                assert(encode(bytes)[i] == front[i]);
            } else {
                assert(encode(bytes)[i] == code(b)[i - front.len()]);
            }
        }
    }
}

/// A segment holds ASCII letters, digits, hyphens and underscores and nothing
/// else: no dot, no slash, nothing that could leave the directory.
pub proof fn law_identifier_is_one_segment(value: Option<Seq<char>>)
    ensures
        forall|i: int| 0 <= i < identified(value).len() ==> segment_char(#[trigger] identified(value)[i]),
{
    lemma_encode_plain(
        encode_utf8(
            match value {
                Some(text) => text,
                None => Seq::empty(),
            },
        ),
    );
}

/// No two pairs of ids share an instance name, so long as the message ids
/// carry no dot, as no segment does.
pub proof fn law_instance_one_to_one(m1: Seq<char>, t1: Seq<char>, m2: Seq<char>, t2: Seq<char>)
    requires
        !m1.contains('.'),
        !m2.contains('.'),
        m1 + seq!['.'] + t1 == m2 + seq!['.'] + t2,
    ensures
        m1 == m2,
        t1 == t2,
{
    let n1 = m1 + seq!['.'] + t1;
    let n2 = m2 + seq!['.'] + t2;
    if m1.len() < m2.len() {
        assert(n1[m1.len() as int] == '.');
        assert(n2[m1.len() as int] == m2[m1.len() as int]);
    } else if m2.len() < m1.len() {
        assert(n2[m2.len() as int] == '.');
        assert(n1[m2.len() as int] == m1[m2.len() as int]);
    }
    assert(m1 =~= n1.take(m1.len() as int));
    assert(m2 =~= n2.take(m2.len() as int));
    assert(t1 =~= n1.skip(m1.len() as int + 1));
    assert(t2 =~= n2.skip(m2.len() as int + 1));
}

/// The hexadecimal digit of a number below sixteen.
fn hex_char(n: u8) -> (r: char)
    requires
        n < 16,
    ensures
        r == hex_digit(n as int),
{
    if n < 10 {
        (0x30u8 + n) as char
    } else {
        (0x41u8 + n - 10) as char
    }
}

/// Append the code of one byte.
fn push_code(s: &mut String, b: u8) -> (r: usize)
    ensures
        final(s)@ == old(s)@ + code(b),
        r == code(b).len(),
{
    let alphanumeric = (0x30 <= b && b <= 0x39) || (0x41 <= b && b <= 0x5A) || (0x61 <= b && b <= 0x7A);
    if alphanumeric || b == 0x2D {
        push_char(s, b as char);
        assert(final(s)@ =~= old(s)@ + code(b));
        1
    } else {
        push_char(s, '_');
        push_char(s, hex_char(b / 16));
        push_char(s, hex_char(b % 16));
        assert(final(s)@ =~= old(s)@ + code(b));
        3
    }
}

/// Turn one id from the payload into a safe path segment, keeping it unique.
///
/// An ASCII letter, digit or hyphen stands for itself, and every other byte
/// becomes `_` and its two hex digits, the underscore included, so that no two
/// ids share an encoding. The result is empty when there was no usable id:
/// none, empty, or one so long its encoding could not be a file name.
#[must_use]
pub fn identifier(value: Option<&str>) -> (r: String)
    ensures
        r@ == identified(
            match value {
                Some(text) => Some(text@),
                None => None,
            },
        ),
{
    let text: &str = match value {
        Some(text) => text,
        None => "",
    };
    let bytes = text.as_bytes();
    let ghost all = bytes@;
    let mut encoded = String::new();
    let mut count: usize = 0;
    let mut k: usize = 0;
    proof {
        assert(bytes@.take(0) =~= Seq::<u8>::empty());
        assert(encode(Seq::<u8>::empty()) =~= Seq::<char>::empty());
        if value is None {
            assert(text@ =~= Seq::<char>::empty()) by {
                reveal_strlit("");
            }
        }
    }
    while k < bytes.len()
        invariant
            k <= bytes@.len(),
            all == bytes@,
            all == encode_utf8(
                match value {
                    Some(text) => text@,
                    None => Seq::empty(),
                },
            ),
            encoded@ == encode(bytes@.take(k as int)),
            count == encoded@.len(),
            count <= NAME_LIMIT,
        decreases bytes@.len() - k,
    {
        let width = push_code(&mut encoded, bytes[k]);
        count = count + width;
        proof {
            assert(bytes@.take(k + 1).drop_last() =~= bytes@.take(k as int));
            assert(bytes@.take(k + 1).last() == bytes@[k as int]);
        }
        if count > NAME_LIMIT {
            proof {
                assert(all =~= bytes@.take(k + 1) + bytes@.skip(k + 1));
                lemma_encode_concat(bytes@.take(k + 1), bytes@.skip(k + 1));
                assert(encode(all).len() > NAME_LIMIT);
            }
            return String::new();
        }
        k = k + 1;
    }
    proof {
        assert(bytes@.take(bytes@.len() as int) =~= bytes@);
    }
    encoded
}

/// Return the directory name of one message instance: the two ids joined on
/// a dot, which [`identifier`] never produces.
#[must_use]
pub fn instance(message: &str, turn: &str) -> (r: String)
    ensures
        r@ == message@ + seq!['.'] + turn@,
{
    let mut r = String::new();
    push_str(&mut r, message);
    push_char(&mut r, '.');
    push_str(&mut r, turn);
    r
}

/// The name one batch of a message is cached under: its index, six digits at
/// least, and [`PART_SUFFIX`].
#[must_use]
pub fn part_name(index: usize) -> (r: String)
    ensures
        r@ == padded(index as nat, 6) + PART_SUFFIX@,
{
    let mut r = String::new();
    push_padded(&mut r, index as u64, 6);
    push_str(&mut r, PART_SUFFIX);
    r
}


/// Where an instant lies from the epoch, as [`epoch_distance`] reads it:
/// whether it is at or after the epoch, whole seconds, and microseconds.
pub uninterp spec fn epoch_reading(now: std::time::SystemTime) -> (bool, u64, u32);

/// `std::time::SystemTime`, carried through to the one call that reads it.
#[verifier::external_type_specification]
#[verifier::external_body]
pub struct ExSystemTime(std::time::SystemTime);

/// Where an instant lies from the epoch, as `SystemTime::duration_since`
/// gives it: whether it is at or after the epoch, and the whole seconds and
/// the microseconds past them (`Duration::as_secs`, `Duration::subsec_micros`)
/// of its distance from the epoch either way. The microseconds are below a
/// million, as `subsec_micros` documents. The reading is named
/// [`epoch_reading`] of the instant.
#[verifier::external_body]
fn epoch_distance(now: &std::time::SystemTime) -> (r: (bool, u64, u32))
    ensures
        r == epoch_reading(*now),
        r.2 < 1_000_000,
{
    match now.duration_since(std::time::UNIX_EPOCH) {
        Ok(since) => (true, since.as_secs(), since.subsec_micros()),
        Err(before) => (false, before.duration().as_secs(), before.duration().subsec_micros()),
    }
}

/// Whole seconds as a signed count, the ones past its range at its top.
pub open spec fn clamped(seconds: u64) -> int {
    if seconds > i64::MAX {
        i64::MAX as int
    } else {
        seconds as int
    }
}

/// An instant as whole seconds since the epoch and microseconds after them,
/// the microseconds always counting forwards, from its distance to the epoch.
pub open spec fn epoch_split(after: bool, seconds: u64, micros: u32) -> (int, int) {
    if after {
        (clamped(seconds), micros as int)
    } else if micros == 0 {
        (-clamped(seconds), 0)
    } else {
        (-clamped(seconds) - 1, 1_000_000 - micros)
    }
}

/// Split one instant, given as its distance to the epoch, into whole seconds
/// and microseconds that always count forwards.
pub fn since_epoch(after: bool, seconds: u64, micros: u32) -> (r: (i64, u32))
    requires
        micros < 1_000_000,
    ensures
        (r.0 as int, r.1 as int) == epoch_split(after, seconds, micros),
        r.1 < 1_000_000,
{
    let whole: i64 = if seconds > i64::MAX as u64 {
        i64::MAX
    } else {
        seconds as i64
    };
    if after {
        (whole, micros)
    } else if micros == 0 {
        (-whole, 0)
    } else {
        (-whole - 1, 1_000_000 - micros)
    }
}

/// Euclidean division by a positive number: the quotient rounds down and the
/// remainder is never negative.
fn div_floor(a: i64, b: i64) -> (r: (i64, i64))
    requires
        b > 0,
    ensures
        r.0 == a as int / b as int,
        r.1 == a as int % b as int,
{
    if a >= 0 {
        (a / b, a % b)
    } else {
        let n = -(a + 1);
        let t = n / b;
        let u = n % b;
        proof {
            vstd::arithmetic::div_mod::lemma_fundamental_div_mod(n as int, b as int);
            assert(0 <= u < b);
        }
        let q = -t - 1;
        let m = b - 1 - u;
        proof {
            assert(a == q * b + m) by (nonlinear_arith)
                requires
                    m == b - 1 - u,
                    q == -t - 1,
                    n == b * t + u,
                    n == -(a + 1),
            ;
            vstd::arithmetic::div_mod::lemma_fundamental_div_mod_converse(a as int, b as int, q as int, m as int);
        }
        (q, m)
    }
}

/// The civil year, month and day of a count of days since 1970-01-01, by
/// Howard Hinnant's `civil_from_days`.
pub open spec fn civil_of(days: int) -> (int, int, int) {
    let shifted = days + 719468;
    let era = shifted / 146097;
    let day_of_era = shifted % 146097;
    let year_of_era = (day_of_era - day_of_era / 1460 + day_of_era / 36524 - day_of_era / 146096) / 365;
    let year = year_of_era + era * 400;
    let day_of_year = day_of_era - (365 * year_of_era + year_of_era / 4 - year_of_era / 100);
    let shifted_month = (5 * day_of_year + 2) / 153;
    let day = day_of_year - (153 * shifted_month + 2) / 5 + 1;
    let month = if shifted_month < 10 {
        shifted_month + 3
    } else {
        shifted_month - 9
    };
    (
        if month <= 2 {
            year + 1
        } else {
            year
        },
        if 0 <= month <= u32::MAX {
            month
        } else {
            0
        },
        if 0 <= day <= u32::MAX {
            day
        } else {
            0
        },
    )
}

/// The days this can be handed: those of an instant a signed count of
/// seconds can hold.
pub open spec fn day_in_range(days: int) -> bool {
    -106751991167301 <= days <= 106751991167300
}

/// Return the civil year, month and day of a count of days since 1970-01-01.
fn civil(days: i64) -> (r: (i64, u32, u32))
    requires
        day_in_range(days as int),
    ensures
        (r.0 as int, r.1 as int, r.2 as int) == civil_of(days as int),
{
    let shifted = days + 719468;
    let (era, day_of_era) = div_floor(shifted, 146097);
    assert(0 <= day_of_era < 146097);
    let year_of_era = (day_of_era - day_of_era / 1460 + day_of_era / 36524 - day_of_era / 146096) / 365;
    assert(0 <= year_of_era <= 400);
    let year = year_of_era + era * 400;
    let day_of_year = day_of_era - (365 * year_of_era + year_of_era / 4 - year_of_era / 100);
    let shifted_month = (5 * day_of_year + 2) / 153;
    let day = day_of_year - (153 * shifted_month + 2) / 5 + 1;
    let month = if shifted_month < 10 {
        shifted_month + 3
    } else {
        shifted_month - 9
    };
    let month_out: u32 = if 0 <= month && month <= u32::MAX as i64 {
        month as u32
    } else {
        0
    };
    let day_out: u32 = if 0 <= day && day <= u32::MAX as i64 {
        day as u32
    } else {
        0
    };
    (
        if month <= 2 {
            year + 1
        } else {
            year
        },
        month_out,
        day_out,
    )
}

/// A signed number in decimal, zero-padded after its sign to `width`
/// characters in all, as `{:0width$}` writes it.
pub open spec fn signed_padded(n: int, width: nat) -> Seq<char> {
    if n < 0 {
        seq!['-'] + padded((-n) as nat, (width - 1) as nat)
    } else {
        padded(n as nat, width)
    }
}

/// One instant in UTC, ISO 8601: the fractional part left out when there is
/// none, the offset spelled out.
pub open spec fn iso_utc(seconds: int, micros: int) -> Seq<char> {
    let (year, month, day) = civil_of(seconds / 86400);
    let time = seconds % 86400;
    let fraction = if micros == 0 {
        Seq::empty()
    } else {
        seq!['.'] + padded(micros as nat, 6)
    };
    signed_padded(year, 4) + seq!['-'] + padded(month as nat, 2) + seq!['-'] + padded(day as nat, 2)
        + seq!['T'] + padded((time / 3600) as nat, 2) + seq![':'] + padded(((time % 3600) / 60) as nat, 2)
        + seq![':'] + padded((time % 60) as nat, 2) + fraction + seq!['+', '0', '0', ':', '0', '0']
}

/// Append a date as `{year:04}-{month:02}-{day:02}`.
fn push_date(r: &mut String, days: i64)
    requires
        day_in_range(days as int),
    ensures
        ({
            let (year, month, day) = civil_of(days as int);
            final(r)@ == old(r)@ + signed_padded(year, 4) + seq!['-'] + padded(month as nat, 2) + seq!['-']
                + padded(day as nat, 2)
        }),
{
    let (year, month, day) = civil(days);
    let ghost start = r@;
    if year < 0 {
        push_char(r, '-');
        push_padded(r, (-year) as u64, 3);
    } else {
        push_padded(r, year as u64, 4);
    }
    let ghost middle = r@;
    assert(middle =~= start + signed_padded(year as int, 4));
    push_char(r, '-');
    push_padded(r, month as u64, 2);
    push_char(r, '-');
    push_padded(r, day as u64, 2);
    assert(r@ =~= start + signed_padded(year as int, 4) + seq!['-'] + padded(month as nat, 2) + seq!['-']
        + padded(day as nat, 2));
}

/// Append a time of day, given in seconds, as `{hour:02}:{minute:02}:{second:02}`.
fn push_clock(r: &mut String, time: i64)
    requires
        0 <= time < 86400,
    ensures
        final(r)@ == old(r)@ + padded((time / 3600) as nat, 2) + seq![':'] + padded(((time % 3600) / 60) as nat, 2)
            + seq![':'] + padded((time % 60) as nat, 2),
{
    let ghost start = r@;
    push_padded(r, (time / 3600) as u64, 2);
    push_char(r, ':');
    push_padded(r, ((time % 3600) / 60) as u64, 2);
    push_char(r, ':');
    push_padded(r, (time % 60) as u64, 2);
    assert(r@ =~= start + padded((time / 3600) as nat, 2) + seq![':'] + padded(((time % 3600) / 60) as nat, 2)
        + seq![':'] + padded((time % 60) as nat, 2));
}

/// Render one instant, as seconds since the epoch and microseconds after
/// them, the way the diagnostics file writes it.
pub fn iso_timestamp(seconds: i64, micros: u32) -> (r: String)
    requires
        micros < 1_000_000,
    ensures
        r@ == iso_utc(seconds as int, micros as int),
{
    let (days, time) = div_floor(seconds, 86400);
    assert(day_in_range(days as int)) by (nonlinear_arith)
        requires
            days == seconds as int / 86400,
            i64::MIN <= seconds <= i64::MAX,
    ;
    let mut r = String::new();
    push_date(&mut r, days);
    push_char(&mut r, 'T');
    push_clock(&mut r, time);
    let ghost clock = r@;
    if micros != 0 {
        push_char(&mut r, '.');
        push_padded(&mut r, micros as u64, 6);
    }
    let ghost fraction = if micros == 0 {
        Seq::<char>::empty()
    } else {
        seq!['.'] + padded(micros as nat, 6)
    };
    assert(r@ =~= clock + fraction);
    push_str(&mut r, "+00:00");
    proof {
        reveal_strlit("+00:00");
    }
    r
}

/// Render one instant the way the diagnostics file writes it: UTC, ISO 8601,
/// the fractional part left out when there is none and the offset spelled out.
/// What instant a `SystemTime` holds is read by the one call in
/// [`epoch_distance`], so the rendering is stated for that reading.
pub fn timestamp(now: std::time::SystemTime) -> (r: String)
    ensures
        r@ == iso_utc(
            epoch_split(epoch_reading(now).0, epoch_reading(now).1, epoch_reading(now).2).0,
            epoch_split(epoch_reading(now).0, epoch_reading(now).1, epoch_reading(now).2).1,
        ),
{
    let (after, seconds, micros) = epoch_distance(&now);
    let (whole, forwards) = since_epoch(after, seconds, micros);
    iso_timestamp(whole, forwards)
}

/// One diagnostics line: a JSON object of the time it was written, the kind,
/// the message id and the step, and nothing else; keys in `serde_json`'s
/// order, which sorts them.
pub open spec fn diagnostic_text(at: Seq<char>, message: Seq<char>, step: Step, kind: Kind) -> Seq<char> {
    seq!['{'] + json_quoted("at"@) + seq![':'] + json_quoted(at) + seq![','] + json_quoted("kind"@) + seq![':']
        + json_quoted(kind_name(kind)) + seq![','] + json_quoted("message_id"@) + seq![':'] + json_quoted(message)
        + seq![','] + json_quoted("step"@) + seq![':'] + json_quoted(step_name(step)) + seq!['}']
}

/// The line that writes down one fail-open path: when (`at`, a
/// [`timestamp`]), which message, which step and which kind. Never the
/// prose, never a credential.
pub fn diagnostic_line(at: &str, message: &str, step: Step, kind: Kind) -> (r: String)
    ensures
        r@ == diagnostic_text(at@, message@, step, kind),
{
    let mut r = String::new();
    push_char(&mut r, '{');
    push_str(&mut r, quote("at").as_str());
    push_char(&mut r, ':');
    push_str(&mut r, quote(at).as_str());
    push_char(&mut r, ',');
    push_str(&mut r, quote("kind").as_str());
    push_char(&mut r, ':');
    push_str(&mut r, quote(kind.as_str()).as_str());
    push_char(&mut r, ',');
    push_str(&mut r, quote("message_id").as_str());
    push_char(&mut r, ':');
    push_str(&mut r, quote(message).as_str());
    push_char(&mut r, ',');
    push_str(&mut r, quote("step").as_str());
    push_char(&mut r, ':');
    push_str(&mut r, quote(step.as_str()).as_str());
    push_char(&mut r, '}');
    assert(r@ =~= diagnostic_text(at@, message@, step, kind));
    r
}

} // verus!
