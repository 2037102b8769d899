use limae::hook::batch::{batch_step, BatchAction, BatchEvent, BatchState};
use limae::hook::parts::{sibling_wait, Limits};
use limae::hook::event::{
    batch_payload, display_event, hook_answer, hook_start, HookStart, MESSAGE_DISPLAY,
};

#[test]
fn a_hook_run_by_hand_with_arguments_gets_the_usage_and_a_disabled_one_reads_nothing() {
    assert_eq!(hook_start(1, false), HookStart::Usage);
    assert_eq!(hook_start(2, true), HookStart::Usage);
    assert_eq!(hook_start(0, true), HookStart::Off);
    assert_eq!(hook_start(0, false), HookStart::Read);
}

#[test]
fn only_a_json_object_naming_the_display_event_is_served() {
    let event = br#"{"hook_event_name":"MessageDisplay","session_id":"s","message_id":"m","turn_id":"t","delta":"x\n","index":2,"final":true}"#;
    let payload = display_event(event).expect("a display event is served");
    assert_eq!(payload.event.as_deref(), Some(MESSAGE_DISPLAY));
    assert_eq!(payload.delta.as_deref(), Some("x\n"));
    assert_eq!(payload.index, Some(2));
    assert!(payload.is_final);
    assert!(display_event(br#"{"hook_event_name":"Stop"}"#).is_none());
    assert!(display_event(b"[1, 2]").is_none());
    assert!(display_event(b"not json").is_none());
    let odd = display_event(br#"{"hook_event_name":"MessageDisplay","index":-1,"final":"true","delta":3}"#)
        .expect("a display event is served");
    assert_eq!((odd.index, odd.is_final, odd.delta), (None, false, None));
}

#[test]
fn a_batch_is_complete_only_with_its_delta_a_root_and_three_usable_ids() {
    let event = r#"{"hook_event_name":"MessageDisplay","session_id":"s","message_id":"m","turn_id":"t","delta":"中\n","index":0}"#;
    let payload = display_event(event.as_bytes()).expect("a display event is served");
    assert_eq!(
        batch_payload(&payload, true),
        BatchEvent::Payload { complete: true, index: Some(0), delta_bytes: 4 }
    );
    assert_eq!(
        batch_payload(&payload, false),
        BatchEvent::Payload { complete: false, index: Some(0), delta_bytes: 4 }
    );
    let no_turn = br#"{"hook_event_name":"MessageDisplay","session_id":"s","message_id":"m","delta":"a","index":0}"#;
    let payload = display_event(no_turn).expect("a display event is served");
    assert_eq!(
        batch_payload(&payload, true),
        BatchEvent::Payload { complete: false, index: Some(0), delta_bytes: 1 }
    );
}

#[test]
fn an_answer_is_handed_over_as_display_content_and_an_empty_one_prints_nothing() {
    assert_eq!(hook_answer(""), None);
    assert_eq!(
        hook_answer("修好的\"一行\"\n").as_deref(),
        Some(r#"{"hookSpecificOutput":{"displayContent":"修好的\"一行\"\n","hookEventName":"MessageDisplay"}}"#)
    );
}

const LINE: &str = "中文English混排。\n";

/// One display batch, as the host sends it, with one field replaced or
/// left out.
fn batch(field: &str, value: Option<&str>) -> String {
    let mut fields = vec![
        ("session_id", "\"session\"".to_owned()),
        ("transcript_path", "\"/dev/null\"".to_owned()),
        ("hook_event_name", format!("\"{MESSAGE_DISPLAY}\"")),
        ("turn_id", "\"turn\"".to_owned()),
        ("message_id", "\"message\"".to_owned()),
        ("delta", "\"中文English混排。\\n\"".to_owned()),
        ("index", "0".to_owned()),
        ("final", "true".to_owned()),
    ];
    fields.retain(|(key, _)| *key != field);
    if let Some(value) = value {
        fields.push((field, value.to_owned()));
    }
    let body: Vec<String> = fields.iter().map(|(key, value)| format!("\"{key}\":{value}")).collect();
    format!("{{{}}}", body.join(","))
}

/// What the first decision of a display event is for these bytes: `None`
/// when the event is not served at all.
fn first_action(input: &str) -> Option<BatchAction> {
    let payload = display_event(input.as_bytes())?;
    Some(batch_step(BatchState::Begin, batch_payload(&payload, true), &Limits::default()).1)
}

#[test]
fn a_payload_that_is_not_a_json_object_is_ignored() {
    for refused in ["", "not json", "[]", "\"a string\"", "null"] {
        assert_eq!(first_action(refused), None, "{refused:?}");
    }
    // The same stdin as an object is served, and goes on to the disk work.
    let payload = display_event(batch("", None).as_bytes()).expect("a display event is served");
    assert_eq!(payload.delta.as_deref(), Some(LINE));
    assert_eq!(first_action(&batch("", None)), Some(BatchAction::CheckVoided));
}

#[test]
fn a_payload_missing_what_its_event_needs_is_left_alone() {
    for missing in ["session_id", "message_id", "turn_id", "delta", "index"] {
        // Left alone before any state is created: the first decision is silence.
        assert_eq!(first_action(&batch(missing, None)), Some(BatchAction::Silent), "{missing}");
    }
    assert_eq!(first_action(&batch("", None)), Some(BatchAction::CheckVoided));
}

#[test]
fn an_index_that_is_not_a_whole_number_is_not_an_index() {
    for refused in ["true", "-1", "1.5", "\"0\""] {
        assert_eq!(first_action(&batch("index", Some(refused))), Some(BatchAction::Silent), "index {refused}");
    }
    assert_eq!(first_action(&batch("index", Some("0"))), Some(BatchAction::CheckVoided));
}

#[test]
fn a_hook_event_runs_under_the_default_limits() {
    assert_eq!(Limits::default().wait, sibling_wait());
}
