//! One hook event: what its process is asked, what the payload on stdin
//! holds, and the JSON it answers with.
use vstd::prelude::*;

use super::batch::BatchEvent;
use super::json::{json_quoted, quote};
use super::state::{identified, identifier};
use crate::text::{push_str, spells};
use vstd::utf8::encode_utf8;

verus! {

/// The host's per-batch display event, the one event a hook acts on.
pub const MESSAGE_DISPLAY: &'static str = "MessageDisplay";

/// What a hook event exits with, whatever happened.
pub const OK: u8 = 0;

/// What a person who ran the hook by hand with arguments gets.
pub const BAD_USAGE: u8 = 2;

/// How a hook process starts.
#[derive(Clone, Copy, Debug, PartialEq, Eq, Structural)]
pub enum HookStart {
    /// It was run by hand with arguments: print the usage and exit with
    /// [`BAD_USAGE`].
    Usage,
    /// The session switched the hook off: exit at once, before stdin is read.
    Off,
    /// Read the event on stdin.
    Read,
}

/// How a hook process starts, given how many arguments followed the
/// subcommand and whether the session switched the hook off.
pub fn hook_start(arguments: usize, disabled: bool) -> (r: HookStart)
    ensures
        r == (if arguments > 0 {
            HookStart::Usage
        } else if disabled {
            HookStart::Off
        } else {
            HookStart::Read
        }),
{
    if arguments > 0 {
        HookStart::Usage
    } else if disabled {
        HookStart::Off
    } else {
        HookStart::Read
    }
}

/// The fields of one hook event that the display reads, as the JSON object
/// on stdin holds them: each string field where it is a string, the batch
/// index where it is a whole number that fits in 64 bits, and whether
/// `final` is `true`.
#[derive(Clone, Debug, PartialEq, Eq)]
pub struct HookPayload {
    pub event: Option<String>,
    pub session_id: Option<String>,
    pub message_id: Option<String>,
    pub turn_id: Option<String>,
    pub delta: Option<String>,
    pub cwd: Option<String>,
    pub index: Option<u64>,
    pub is_final: bool,
}

/// A [`HookPayload`], its texts as characters.
pub struct PayloadFields {
    pub event: Option<Seq<char>>,
    pub session_id: Option<Seq<char>>,
    pub message_id: Option<Seq<char>>,
    pub turn_id: Option<Seq<char>>,
    pub delta: Option<Seq<char>>,
    pub cwd: Option<Seq<char>>,
    pub index: Option<u64>,
    pub is_final: bool,
}

/// An optional text as characters.
pub open spec fn text_view(text: Option<String>) -> Option<Seq<char>> {
    match text {
        Some(text) => Some(text@),
        None => None,
    }
}

impl View for HookPayload {
    type V = PayloadFields;

    open spec fn view(&self) -> PayloadFields {
        PayloadFields {
            event: text_view(self.event),
            session_id: text_view(self.session_id),
            message_id: text_view(self.message_id),
            turn_id: text_view(self.turn_id),
            delta: text_view(self.delta),
            cwd: text_view(self.cwd),
            index: self.index,
            is_final: self.is_final,
        }
    }
}

/// What `serde_json::from_slice` reads from a hook's stdin, as the display
/// reads its fields; `None` where the bytes are not JSON or not an object.
pub uninterp spec fn json_payload(input: Seq<u8>) -> Option<PayloadFields>;

/// `serde_json::from_slice` into a `Value`, and the fields of the object it
/// holds, each picked as [`HookPayload`] says; named [`json_payload`] of the
/// bytes.
#[verifier::external_body]
fn payload_of(input: &[u8]) -> (r: Option<HookPayload>)
    ensures
        match r {
            None => json_payload(input@) is None,
            Some(payload) => json_payload(input@) == Some(payload@),
        },
{
    let Ok(serde_json::Value::Object(object)) = serde_json::from_slice::<serde_json::Value>(input) else {
        return None;
    };
    let text = |key: &str| object.get(key).and_then(serde_json::Value::as_str).map(str::to_owned);
    Some(HookPayload {
        event: text("hook_event_name"),
        session_id: text("session_id"),
        message_id: text("message_id"),
        turn_id: text("turn_id"),
        delta: text("delta"),
        cwd: text("cwd"),
        index: object.get("index").and_then(serde_json::Value::as_u64),
        is_final: object.get("final") == Some(&serde_json::Value::Bool(true)),
    })
}

/// Whether a payload is a display event.
pub open spec fn displays(fields: PayloadFields) -> bool {
    fields.event == Some(MESSAGE_DISPLAY@)
}

/// The display event on a hook's stdin: the payload when the bytes hold a
/// JSON object whose `hook_event_name` is [`MESSAGE_DISPLAY`]. Anything else
/// (not JSON, not an object, another event) is left alone.
pub fn display_event(input: &[u8]) -> (r: Option<HookPayload>)
    ensures
        match r {
            None => !(json_payload(input@) matches Some(fields) && displays(fields)),
            Some(payload) => json_payload(input@) == Some(payload@) && displays(payload@),
        },
{
    match payload_of(input) {
        None => None,
        Some(payload) => {
            let is_display = match &payload.event {
                Some(event) => spells(event.as_str(), MESSAGE_DISPLAY),
                None => false,
            };
            if is_display {
                Some(payload)
            } else {
                None
            }
        },
    }
}

/// The batch index of a payload, where it fits in a `usize`.
pub open spec fn batch_index(index: Option<u64>) -> Option<usize> {
    match index {
        Some(index) => if index <= usize::MAX {
            Some(index as usize)
        } else {
            None
        },
        None => None,
    }
}

/// The first answer a display batch hands its decisions: complete when the
/// payload carries a batch, the session has a state root, and the session,
/// message and turn ids each encode to a usable name.
pub open spec fn payload_event(fields: PayloadFields, has_root: bool) -> BatchEvent {
    BatchEvent::Payload {
        complete: fields.delta is Some && has_root && identified(fields.session_id).len() > 0 && identified(
            fields.message_id,
        ).len() > 0 && identified(fields.turn_id).len() > 0,
        index: batch_index(fields.index),
        delta_bytes: match fields.delta {
            Some(delta) => encode_utf8(delta).len() as usize,
            None => 0,
        },
    }
}

/// An optional text, borrowed.
fn borrowed(text: &Option<String>) -> (r: Option<&str>)
    ensures
        match r {
            Some(s) => text_view(*text) == Some(s@),
            None => text_view(*text) is None,
        },
{
    match text {
        Some(text) => Some(text.as_str()),
        None => None,
    }
}

/// The first answer a display batch hands its decisions; `has_root` says
/// whether the session has a state root.
pub fn batch_payload(payload: &HookPayload, has_root: bool) -> (r: BatchEvent)
    ensures
        r == payload_event(payload@, has_root),
{
    let session = identifier(borrowed(&payload.session_id));
    let message = identifier(borrowed(&payload.message_id));
    let turn = identifier(borrowed(&payload.turn_id));
    let index = match payload.index {
        Some(index) => if index as u128 <= usize::MAX as u128 {
            Some(index as usize)
        } else {
            None
        },
        None => None,
    };
    let (has_delta, delta_bytes) = match &payload.delta {
        Some(delta) => (true, delta.as_str().len()),
        None => (false, 0),
    };
    let complete = has_delta && has_root && !session.as_str().is_empty() && !message.as_str().is_empty()
        && !turn.as_str().is_empty();
    BatchEvent::Payload { complete, index, delta_bytes }
}

/// What a display event prints: nothing for an empty answer, which leaves the
/// batch on screen as it came; otherwise the JSON object that hands the
/// answer to the host as the batch's display content.
pub open spec fn display_answer(answer: Seq<char>) -> Option<Seq<char>> {
    if answer.len() == 0 {
        None
    } else {
        Some(
            "{\"hookSpecificOutput\":{\"displayContent\":"@ + json_quoted(answer)
                + ",\"hookEventName\":\"MessageDisplay\"}}"@,
        )
    }
}

/// The JSON a display event prints for its answer, if any.
pub fn hook_answer(answer: &str) -> (r: Option<String>)
    ensures
        match r {
            None => display_answer(answer@) is None,
            Some(text) => display_answer(answer@) == Some(text@),
        },
{
    if answer.is_empty() {
        return None;
    }
    let mut text = String::new();
    push_str(&mut text, "{\"hookSpecificOutput\":{\"displayContent\":");
    let quoted = quote(answer);
    push_str(&mut text, quoted.as_str());
    push_str(&mut text, ",\"hookEventName\":\"MessageDisplay\"}}");
    Some(text)
}

} // verus!
