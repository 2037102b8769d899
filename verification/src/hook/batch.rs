//! The order in which one display event decides about its batch.
//!
//! Serving a batch alternates between work on disk (is the message given up,
//! cache the batch, wait for the batches before it) and a decision on what
//! came back. The decisions are here, as a step from the state and the answer
//! of the last piece of work to the next state and the next piece of work;
//! the caller performs that work and hands its answer back.
use vstd::prelude::*;

use super::parts::{Limits, Stored};

verus! {

/// Where one batch stands on its way through the display event.
#[derive(Clone, Copy, Debug, PartialEq, Eq, Structural)]
pub enum BatchState {
    /// Nothing read yet.
    Begin,
    /// The payload names a batch; whether its message was given up on is
    /// asked next.
    Named { index: usize, delta_bytes: usize },
    /// The batch is being cached under its index.
    Storing { delta_bytes: usize },
    /// The batches before this one are being waited for.
    Assembling { delta_bytes: usize },
    /// Nothing more is to be done.
    Done,
}

/// The answer to the last piece of work.
#[derive(Clone, Copy, Debug, PartialEq, Eq, Structural)]
pub enum BatchEvent {
    /// What the payload holds: `complete` when it carries a batch, a state
    /// root and the session, message and turn ids; the batch's index where it
    /// is a whole number that fits; and the batch's length in bytes.
    Payload { complete: bool, index: Option<usize>, delta_bytes: usize },
    /// Whether the message was given up on before.
    Voided(bool),
    /// What caching the batch found under its index.
    Cached(Stored),
    /// The length in bytes of the batches before this one, joined, or nothing
    /// where they did not all arrive in time.
    Assembled(Option<usize>),
}

/// The next piece of work.
#[derive(Clone, Copy, Debug, PartialEq, Eq, Structural)]
pub enum BatchAction {
    /// Show the batch as it came, and note nothing.
    Silent,
    /// Ask whether the message was given up on.
    CheckVoided,
    /// Cache the batch under its index.
    Store,
    /// Wait for the batches before this one and join them.
    Assemble,
    /// Replay the joined batches and this one through the fixes.
    Replay,
    /// Show the batch as it came, and note that its message is incomplete.
    Decline,
    /// Give the message up, then decline as above.
    VoidAndDecline,
}

/// What the display event does next, from where the batch stands and the
/// answer to the last piece of work.
///
/// An incomplete payload is shown as it came. A message given up on before is
/// declined; one whose batch index reaches the limit, whose index holds a
/// different batch, or that would grow past the byte limit is given up and
/// declined. An empty batch, and one whose earlier batches did not all arrive,
/// is shown as it came. Everything else is replayed.
pub open spec fn batch_decision(state: BatchState, event: BatchEvent, limits: Limits) -> (
    BatchState,
    BatchAction,
) {
    match (state, event) {
        (BatchState::Begin, BatchEvent::Payload { complete, index, delta_bytes }) => {
            match index {
                Some(index) if complete => (
                    BatchState::Named { index, delta_bytes },
                    BatchAction::CheckVoided,
                ),
                _ => (BatchState::Done, BatchAction::Silent),
            }
        },
        (BatchState::Named { index, delta_bytes }, BatchEvent::Voided(voided)) => {
            if voided {
                (BatchState::Done, BatchAction::Decline)
            } else if index >= limits.batches {
                (BatchState::Done, BatchAction::VoidAndDecline)
            } else {
                (BatchState::Storing { delta_bytes }, BatchAction::Store)
            }
        },
        (BatchState::Storing { delta_bytes }, BatchEvent::Cached(stored)) => {
            if stored == Stored::Conflict {
                (BatchState::Done, BatchAction::VoidAndDecline)
            } else if delta_bytes == 0 {
                (BatchState::Done, BatchAction::Silent)
            } else {
                (BatchState::Assembling { delta_bytes }, BatchAction::Assemble)
            }
        },
        (BatchState::Assembling { delta_bytes }, BatchEvent::Assembled(prefix)) => {
            match prefix {
                None => (BatchState::Done, BatchAction::Silent),
                Some(prefix_bytes) => if prefix_bytes + delta_bytes > limits.bytes {
                    (BatchState::Done, BatchAction::VoidAndDecline)
                } else {
                    (BatchState::Done, BatchAction::Replay)
                },
            }
        },
        _ => (BatchState::Done, BatchAction::Silent),
    }
}

/// One decision of the display event: the next state and the next piece of
/// work, from where the batch stands and the answer to the last one.
pub fn batch_step(state: BatchState, event: BatchEvent, limits: &Limits) -> (r: (
    BatchState,
    BatchAction,
))
    ensures
        r == batch_decision(state, event, *limits),
{
    match (state, event) {
        (BatchState::Begin, BatchEvent::Payload { complete, index, delta_bytes }) => {
            match index {
                Some(index) if complete => (
                    BatchState::Named { index, delta_bytes },
                    BatchAction::CheckVoided,
                ),
                _ => (BatchState::Done, BatchAction::Silent),
            }
        },
        (BatchState::Named { index, delta_bytes }, BatchEvent::Voided(voided)) => {
            if voided {
                (BatchState::Done, BatchAction::Decline)
            } else if index >= limits.batches {
                (BatchState::Done, BatchAction::VoidAndDecline)
            } else {
                (BatchState::Storing { delta_bytes }, BatchAction::Store)
            }
        },
        (BatchState::Storing { delta_bytes }, BatchEvent::Cached(stored)) => {
            if stored == Stored::Conflict {
                (BatchState::Done, BatchAction::VoidAndDecline)
            } else if delta_bytes == 0 {
                (BatchState::Done, BatchAction::Silent)
            } else {
                (BatchState::Assembling { delta_bytes }, BatchAction::Assemble)
            }
        },
        (BatchState::Assembling { delta_bytes }, BatchEvent::Assembled(prefix)) => {
            match prefix {
                None => (BatchState::Done, BatchAction::Silent),
                Some(prefix_bytes) => if prefix_bytes > limits.bytes || delta_bytes > limits.bytes
                    - prefix_bytes {
                    (BatchState::Done, BatchAction::VoidAndDecline)
                } else {
                    (BatchState::Done, BatchAction::Replay)
                },
            }
        },
        _ => (BatchState::Done, BatchAction::Silent),
    }
}

/// Once the batch is done, every answer leaves it done and asks for nothing.
pub proof fn done_stays_done(event: BatchEvent, limits: Limits)
    ensures
        batch_decision(BatchState::Done, event, limits) == (BatchState::Done, BatchAction::Silent),
{
}

/// Every answer either ends the batch or moves it one stage on: a batch is
/// decided in at most four steps.
pub proof fn each_step_moves_on(state: BatchState, event: BatchEvent, limits: Limits)
    ensures
        ({
            let (next, _) = batch_decision(state, event, limits);
            next == BatchState::Done || stage(next) == stage(state) + 1
        }),
{
}

/// How far along the batch is.
pub open spec fn stage(state: BatchState) -> nat {
    match state {
        BatchState::Begin => 0,
        BatchState::Named { .. } => 1,
        BatchState::Storing { .. } => 2,
        BatchState::Assembling { .. } => 3,
        BatchState::Done => 4,
    }
}

} // verus!
