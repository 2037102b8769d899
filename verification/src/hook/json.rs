//! Texts as JSON strings, quoted and escaped by `serde_json`.

use vstd::prelude::*;

verus! {

/// A hexadecimal digit, in lower case.
pub open spec fn lower_hex_digit(n: nat) -> char {
    if n < 10 {
        (('0' as nat) + n) as char
    } else {
        (('a' as nat) + n - 10) as char
    }
}

/// How JSON writes one character inside a string: the quote and the
/// backslash behind a backslash, the five controls with a short escape by it,
/// the other controls below U+0020 as `\u00XX`, everything else as itself.
pub open spec fn json_escaped(c: char) -> Seq<char> {
    if c == '"' {
        seq!['\\', '"']
    } else if c == '\\' {
        seq!['\\', '\\']
    } else if c == '\u{8}' {
        seq!['\\', 'b']
    } else if c == '\t' {
        seq!['\\', 't']
    } else if c == '\n' {
        seq!['\\', 'n']
    } else if c == '\u{c}' {
        seq!['\\', 'f']
    } else if c == '\r' {
        seq!['\\', 'r']
    } else if (c as nat) < 0x20 {
        seq!['\\', 'u', '0', '0', lower_hex_digit((c as nat) / 16), lower_hex_digit((c as nat) % 16)]
    } else {
        seq![c]
    }
}

/// Every character of a text as JSON writes it inside a string.
pub open spec fn json_escaped_text(text: Seq<char>) -> Seq<char>
    decreases text.len(),
{
    if text.len() == 0 {
        Seq::empty()
    } else {
        json_escaped_text(text.drop_last()) + json_escaped(text.last())
    }
}

/// A text as a JSON string, as `serde_json` writes a `Value::String`: in
/// double quotes, each character escaped as [`json_escaped`] says.
pub open spec fn json_quoted(text: Seq<char>) -> Seq<char> {
    seq!['"'] + json_escaped_text(text) + seq!['"']
}

/// `serde_json::Value::String(text).to_string()`: the text quoted and escaped
/// as [`json_quoted`] states, which is how `serde_json`'s compact writer
/// escapes a string.
#[verifier::external_body]
pub(crate) fn quote(text: &str) -> (r: String)
    ensures
        r@ == json_quoted(text@),
{
    serde_json::Value::String(text.to_owned()).to_string()
}

} // verus!
