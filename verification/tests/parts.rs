use std::time::Duration;

use limae::hook::parts::{
    indexed, replay_with, sibling_poll, sibling_wait, slice, stored, Limits, Outcome, Stored,
};
use limae::hook::state::{Kind, Step};

/// Both values are spelled out here because both are load-bearing and neither
/// is derivable.
#[test]
fn the_wait_and_the_poll_are_the_values_the_host_behaviour_calls_for() {
    assert_eq!(sibling_wait(), Duration::from_secs(2));
    assert_eq!(sibling_poll(), Duration::from_millis(20));
    assert!(sibling_poll() * 10 < sibling_wait());
}

/// The values are spelled out because they are what a message is held to, and
/// the wait is the sibling wait and not a second number.
#[test]
fn the_default_limits_are_the_values_the_cost_analysis_calls_for() {
    assert_eq!(
        Limits::default(),
        Limits {
            bytes: 256 * 1024,
            batches: 1000,
            wait: sibling_wait(),
        }
    );
}

/// A stand-in fixer that widens ASCII commas, and says a span is open while a
/// backtick is unpaired.
fn widen(text: &str) -> Option<String> {
    Some(text.replace(',', "，"))
}

fn unpaired(text: &str) -> bool {
    text.matches('`').count() % 2 == 1
}

#[test]
fn only_the_batch_s_own_lines_come_back_from_the_fixed_whole() {
    assert_eq!(
        replay_with(unpaired, widen, "甲,乙\n", "丙,丁\n戊,己\n", false),
        Outcome::Fixed("丙，丁\n戊，己\n".to_owned())
    );
    assert_eq!(
        replay_with(unpaired, widen, "甲,乙\n", "丙，丁\n", false),
        Outcome::Unchanged
    );
    assert_eq!(replay_with(unpaired, widen, "甲,乙\n", "", true), Outcome::Unchanged);
    assert_eq!(
        replay_with(unpaired, widen, "甲,乙\r\n", "丙,丁\r\n", false),
        Outcome::Fixed("丙，丁\r\n".to_owned())
    );
}

#[test]
fn a_boundary_inside_a_line_or_an_open_span_leaves_the_batch_alone() {
    let partial = Outcome::Declined(Step::Siblings, Kind::Partial);
    assert_eq!(replay_with(unpaired, widen, "甲,乙", "丙,丁\n", false), partial);
    assert_eq!(replay_with(unpaired, widen, "甲,乙\n", "丙,丁", false), partial);
    assert_eq!(
        replay_with(unpaired, widen, "甲,乙\n", "丙,丁", true),
        Outcome::Fixed("丙，丁".to_owned())
    );
    assert_eq!(
        replay_with(unpaired, widen, "", "`丙,丁\n", false),
        Outcome::Declined(Step::Siblings, Kind::Unclosed)
    );
    // The final batch has nothing after it, so the span question is not asked.
    assert_eq!(
        replay_with(unpaired, widen, "", "`丙,丁", true),
        Outcome::Fixed("`丙，丁".to_owned())
    );
}

#[test]
fn a_fixer_that_refuses_or_moves_a_line_is_declined_and_named() {
    assert_eq!(
        replay_with(unpaired, |_: &str| None, "", "丙\n", false),
        Outcome::Declined(Step::Fix, Kind::Misconfigured)
    );
    assert_eq!(
        replay_with(unpaired, |text: &str| Some(format!("{text}\n")), "", "丙\n", false),
        Outcome::Declined(Step::Fix, Kind::Crashed)
    );
}

#[test]
fn a_slice_is_what_follows_the_prefix_s_line_feeds() {
    assert_eq!(slice("a\nb\nc\n", "x\n", "y\nz\n"), Some("b\nc\n".to_owned()));
    assert_eq!(slice("a\nb", "x\n", "y"), Some("b".to_owned()));
    assert_eq!(slice("a\nb\n", "x\n", "y"), None);
    assert_eq!(slice("a\nb\nc", "x\n", "y"), None);
}

#[test]
fn a_cached_batch_is_named_by_its_index_and_nothing_else_is_one() {
    assert_eq!(indexed("000007.part"), Some(7));
    assert_eq!(indexed("12.part"), Some(12));
    assert_eq!(indexed("+3.part"), Some(3));
    assert_eq!(indexed("void"), None);
    assert_eq!(indexed(".part"), None);
    assert_eq!(indexed("000001.4242.0.writing"), None);
    assert_eq!(indexed("1a.part"), None);
    assert_eq!(indexed("99999999999999999999999.part"), None);
}

#[test]
fn caching_a_batch_is_kept_repeated_or_a_conflict() {
    assert_eq!(stored(true, false), Stored::Kept);
    assert_eq!(stored(false, true), Stored::Repeated);
    assert_eq!(stored(false, false), Stored::Conflict);
}

#[test]
fn a_fixer_that_changes_nothing_leaves_the_batch_as_it_came() {
    assert_eq!(slice("甲\n乙,丙\n", "甲\n", "乙,丙\n"), Some("乙,丙\n".to_owned()));
    let unchanged = |text: &str| Some(text.to_owned());
    assert_eq!(replay_with(unpaired, unchanged, "甲\n", "乙,丙\n", false), Outcome::Unchanged);
    assert_eq!(replay_with(unpaired, unchanged, "", "乙", true), Outcome::Unchanged);
}
