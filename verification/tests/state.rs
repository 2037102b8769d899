use std::time::{Duration, SystemTime, UNIX_EPOCH};

use limae::hook::state::{diagnostic_line, identifier, instance, outlived, part_name, timestamp, Kind, Step, PART_SUFFIX};

/// A fixed clock reading, so that no assertion here depends on the wall clock.
const NOW: Duration = Duration::from_secs(1_700_000_000);

fn now() -> SystemTime {
    UNIX_EPOCH + NOW
}

/// A UUID has to survive, or the encoding below is just renaming everything
/// and no arm here can tell the two apart.
#[test]
fn a_well_formed_id_is_left_exactly_as_it_arrived() {
    assert_eq!(
        identifier(Some("aaaaaaaa-bbbb-cccc-dddd-eeeeeeeeeeee")),
        "aaaaaaaa-bbbb-cccc-dddd-eeeeeeeeeeee"
    );
}

/// Everything that is not a letter, a digit or a hyphen is spelled out as
/// bytes, the underscore included, so that no two ids share a name.
#[test]
fn an_id_that_names_a_parent_directory_is_encoded_into_one_segment() {
    assert_eq!(identifier(Some("../../escape")), "_2E_2E_2F_2E_2E_2Fescape");
    assert_eq!(identifier(Some("a/b")), "a_2Fb");
    assert_eq!(identifier(Some("a?b")), "a_3Fb");
    assert_eq!(identifier(Some("a_b")), "a_5Fb");
    assert_eq!(identifier(Some("..")), "_2E_2E");
    assert_eq!(identifier(Some("甲")), "_E7_94_B2");
    assert_ne!(identifier(Some("a/b")), identifier(Some("a?b")));
    assert_ne!(identifier(Some("a_2Fb")), identifier(Some("a/b")));
}

/// An id too long to be a file name is no id at all, rather than the first
/// part of one.
#[test]
fn an_id_too_long_to_name_a_file_is_empty_and_so_is_a_missing_one() {
    assert_eq!(identifier(Some(&"x".repeat(120))), "x".repeat(120));
    assert_eq!(identifier(Some(&"x".repeat(121))), "");
    assert_eq!(identifier(Some(&"甲".repeat(41))), "");
    assert_eq!(identifier(None), "");
    assert_eq!(identifier(Some("")), "");
}

/// The turn is part of the key, and the join is on the one character
/// `identifier` never lets through, so no two pairs of ids share a name.
#[test]
fn an_instance_is_named_by_its_message_and_its_turn() {
    assert_eq!(instance("m", "t"), "m.t");
    assert_ne!(instance("m", "t1"), instance("m", "t2"));
    assert_ne!(instance("a-b", "c"), instance("a", "b-c"));
    assert!(!identifier(Some("a.b")).contains('.'));
}

#[test]
fn every_step_and_kind_is_written_down_under_the_name_it_is_documented_by() {
    assert_eq!(
        [Step::Siblings, Step::Fix, Step::Display].map(Step::as_str),
        ["siblings", "fix", "display"],
    );
    assert_eq!(
        [
            Kind::Incomplete,
            Kind::Partial,
            Kind::Unclosed,
            Kind::Misconfigured,
            Kind::Crashed,
        ]
        .map(Kind::as_str),
        ["incomplete", "partial", "unclosed", "config", "crashed"],
    );
}

#[test]
fn a_line_says_when_it_was_written_in_utc() {
    // 2023-11-14T22:13:20+00:00 is 1_700_000_000 seconds after the epoch.
    assert_eq!(timestamp(now()), "2023-11-14T22:13:20+00:00");
    assert_eq!(
        timestamp(now() + Duration::from_micros(1)),
        "2023-11-14T22:13:20.000001+00:00"
    );
    assert_eq!(timestamp(UNIX_EPOCH), "1970-01-01T00:00:00+00:00");
    assert_eq!(
        timestamp(UNIX_EPOCH + Duration::from_secs(1_709_164_800)),
        "2024-02-29T00:00:00+00:00"
    );
}

#[test]
fn an_instant_before_the_epoch_counts_its_microseconds_forwards() {
    assert_eq!(
        timestamp(UNIX_EPOCH - Duration::from_micros(1)),
        "1969-12-31T23:59:59.999999+00:00"
    );
    assert_eq!(
        timestamp(UNIX_EPOCH - Duration::from_secs(86_400)),
        "1969-12-31T00:00:00+00:00"
    );
}

#[test]
fn a_batch_is_named_by_its_index_in_six_digits_at_least() {
    assert_eq!(part_name(7), format!("000007{PART_SUFFIX}"));
    assert_eq!(part_name(0), "000000.part");
    assert_eq!(part_name(1_234_567), "1234567.part");
}

#[test]
fn every_encoded_character_is_a_letter_a_digit_a_hyphen_or_an_underscore() {
    for id in ["../x", "a b", "甲.乙", "\u{0}\u{7f}", "-_-"] {
        let encoded = identifier(Some(id));
        assert!(!encoded.is_empty());
        assert!(encoded
            .chars()
            .all(|c| c.is_ascii_alphanumeric() || c == '-' || c == '_'));
    }
}

#[test]
fn a_diagnostics_line_holds_the_time_the_message_the_step_and_the_kind() {
    let line = diagnostic_line("2026-09-01T12:00:00.000000+00:00", "msg_1", Step::Fix, Kind::Misconfigured);
    assert_eq!(
        line,
        r#"{"at":"2026-09-01T12:00:00.000000+00:00","kind":"config","message_id":"msg_1","step":"fix"}"#
    );
    let quoted = diagnostic_line("t", "a\"b", Step::Display, Kind::Crashed);
    assert_eq!(quoted, r#"{"at":"t","kind":"crashed","message_id":"a\"b","step":"display"}"#);
}

#[test]
fn a_message_id_is_escaped_as_json_writes_a_string() {
    let line = diagnostic_line("t", "a\\b\n\t\u{1}\u{1f}é\u{7f}", Step::Display, Kind::Crashed);
    assert_eq!(
        line,
        "{\"at\":\"t\",\"kind\":\"crashed\",\"message_id\":\"a\\\\b\\n\\t\\u0001\\u001fé\u{7f}\",\"step\":\"display\"}"
    );
}

#[test]
fn state_is_stale_only_when_kept_strictly_longer_than_its_retention() {
    assert!(!outlived(None, (3600, 0)));
    assert!(!outlived(Some((3600, 0)), (3600, 0)));
    assert!(outlived(Some((3600, 1)), (3600, 0)));
    assert!(outlived(Some((3601, 0)), (3600, 5)));
    assert!(!outlived(Some((3599, 999_999_999)), (3600, 0)));
}
