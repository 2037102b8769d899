use limae::hook::batch::{batch_step, BatchAction, BatchEvent, BatchState};
use limae::hook::parts::{Limits, Stored};

fn limits() -> Limits {
    Limits { bytes: 100, batches: 3, wait: std::time::Duration::from_millis(10) }
}

fn named(index: usize, delta_bytes: usize) -> (BatchState, BatchAction) {
    batch_step(
        BatchState::Begin,
        BatchEvent::Payload { complete: true, index: Some(index), delta_bytes },
        &limits(),
    )
}

#[test]
fn a_whole_batch_goes_through_every_step_to_the_replay() {
    let (state, action) = named(1, 10);
    assert_eq!(action, BatchAction::CheckVoided);
    let (state, action) = batch_step(state, BatchEvent::Voided(false), &limits());
    assert_eq!(action, BatchAction::Store);
    let (state, action) = batch_step(state, BatchEvent::Cached(Stored::Kept), &limits());
    assert_eq!(action, BatchAction::Assemble);
    let (state, action) = batch_step(state, BatchEvent::Assembled(Some(90)), &limits());
    assert_eq!((state, action), (BatchState::Done, BatchAction::Replay));
}

#[test]
fn an_incomplete_payload_is_left_alone_without_a_note() {
    let missing_ids = batch_step(
        BatchState::Begin,
        BatchEvent::Payload { complete: false, index: Some(0), delta_bytes: 4 },
        &limits(),
    );
    assert_eq!(missing_ids, (BatchState::Done, BatchAction::Silent));
    let no_index = batch_step(
        BatchState::Begin,
        BatchEvent::Payload { complete: true, index: None, delta_bytes: 4 },
        &limits(),
    );
    assert_eq!(no_index, (BatchState::Done, BatchAction::Silent));
}

#[test]
fn a_message_given_up_on_is_declined_without_voiding_it_again() {
    let (state, _) = named(0, 4);
    assert_eq!(
        batch_step(state, BatchEvent::Voided(true), &limits()),
        (BatchState::Done, BatchAction::Decline)
    );
}

#[test]
fn an_index_at_the_batch_limit_gives_the_message_up() {
    let (state, _) = named(3, 4);
    assert_eq!(
        batch_step(state, BatchEvent::Voided(false), &limits()),
        (BatchState::Done, BatchAction::VoidAndDecline)
    );
    let (state, _) = named(2, 4);
    assert_eq!(batch_step(state, BatchEvent::Voided(false), &limits()).1, BatchAction::Store);
}

#[test]
fn a_different_batch_under_the_same_index_gives_the_message_up() {
    let (state, _) = named(0, 4);
    let (state, _) = batch_step(state, BatchEvent::Voided(false), &limits());
    assert_eq!(
        batch_step(state, BatchEvent::Cached(Stored::Conflict), &limits()),
        (BatchState::Done, BatchAction::VoidAndDecline)
    );
    let (state, _) = named(0, 4);
    let (state, _) = batch_step(state, BatchEvent::Voided(false), &limits());
    assert_eq!(batch_step(state, BatchEvent::Cached(Stored::Repeated), &limits()).1, BatchAction::Assemble);
}

#[test]
fn an_empty_final_batch_has_nothing_to_show_or_wait_for() {
    let (state, _) = named(2, 0);
    let (state, _) = batch_step(state, BatchEvent::Voided(false), &limits());
    assert_eq!(
        batch_step(state, BatchEvent::Cached(Stored::Kept), &limits()),
        (BatchState::Done, BatchAction::Silent)
    );
}

#[test]
fn batches_that_do_not_arrive_in_time_leave_this_one_alone() {
    let (state, _) = named(1, 4);
    let (state, _) = batch_step(state, BatchEvent::Voided(false), &limits());
    let (state, _) = batch_step(state, BatchEvent::Cached(Stored::Kept), &limits());
    assert_eq!(
        batch_step(state, BatchEvent::Assembled(None), &limits()),
        (BatchState::Done, BatchAction::Silent)
    );
}

#[test]
fn one_byte_past_the_limit_gives_the_message_up() {
    let (state, _) = named(1, 11);
    let (state, _) = batch_step(state, BatchEvent::Voided(false), &limits());
    let (state, _) = batch_step(state, BatchEvent::Cached(Stored::Kept), &limits());
    assert_eq!(
        batch_step(state, BatchEvent::Assembled(Some(90)), &limits()),
        (BatchState::Done, BatchAction::VoidAndDecline)
    );
    assert_eq!(
        batch_step(state, BatchEvent::Assembled(Some(usize::MAX)), &limits()).1,
        BatchAction::VoidAndDecline
    );
}

#[test]
fn an_answer_out_of_turn_ends_the_batch_quietly() {
    assert_eq!(
        batch_step(BatchState::Begin, BatchEvent::Voided(false), &limits()),
        (BatchState::Done, BatchAction::Silent)
    );
    assert_eq!(
        batch_step(BatchState::Done, BatchEvent::Assembled(Some(0)), &limits()),
        (BatchState::Done, BatchAction::Silent)
    );
}
