//! Reading the output of `git ls-files -z`, and the decisions of polling a
//! child process for its output under a time and a size limit.

use vstd::prelude::*;

verus! {

/// Where the first NUL of some bytes is, or their length when there is none.
pub open spec fn first_nul(s: Seq<u8>, from: int) -> int
    decreases s.len() - from,
{
    if from >= s.len() || from < 0 {
        s.len() as int
    } else if s[from] == 0 {
        from
    } else {
        first_nul(s, from + 1)
    }
}

pub proof fn lemma_first_nul(s: Seq<u8>, from: int)
    requires
        0 <= from <= s.len(),
    ensures
        from <= first_nul(s, from) <= s.len(),
        first_nul(s, from) < s.len() ==> s[first_nul(s, from)] == 0,
        forall|k: int| from <= k < first_nul(s, from) ==> s[k] != 0,
    decreases s.len() - from,
{
    if from < s.len() && s[from] != 0 {
        lemma_first_nul(s, from + 1);
    }
}

/// Bytes split at every NUL, as `<[u8]>::split` does: one more piece than
/// there are NULs.
pub open spec fn nul_pieces(s: Seq<u8>) -> Seq<Seq<u8>>
    decreases s.len(),
{
    let k = first_nul(s, 0);
    if k >= s.len() {
        seq![s]
    } else {
        proof {
            lemma_first_nul(s, 0);
        }
        seq![s.take(k)] + nul_pieces(s.skip(k + 1))
    }
}

/// The paths of `git ls-files -z` output, or `None` when it is not a sequence
/// of nonempty, NUL-terminated paths. No output is no paths.
pub open spec fn listed_paths(output: Seq<u8>) -> Option<Seq<Seq<u8>>> {
    if output.len() == 0 {
        Some(Seq::empty())
    } else if output.last() != 0 {
        None
    } else if exists|k: int| 0 <= k < nul_pieces(output.drop_last()).len() && #[trigger] nul_pieces(
        output.drop_last(),
    )[k].len() == 0 {
        None
    } else {
        Some(nul_pieces(output.drop_last()))
    }
}

/// Read the paths out of `git ls-files -z` output.
pub fn paths(output: &[u8]) -> (r: Option<Vec<Vec<u8>>>)
    ensures
        match r {
            Some(found) => listed_paths(output@) == Some(found@.map_values(|path: Vec<u8>| path@)),
            None => listed_paths(output@) is None,
        },
{
    if output.len() == 0 {
        let found: Vec<Vec<u8>> = Vec::new();
        assert(found@.map_values(|path: Vec<u8>| path@) =~= Seq::<Seq<u8>>::empty());
        return Some(found);
    }
    if output[output.len() - 1] != 0 {
        return None;
    }
    let end = output.len() - 1;
    let ghost body = output@.take(end as int);
    let mut found: Vec<Vec<u8>> = Vec::new();
    let mut start: usize = 0;
    let mut done = false;
    proof {
        assert(output@.drop_last() =~= body);
        assert(body.skip(0) =~= body);
    }
    while !done
        invariant
            end + 1 == output@.len(),
            body == output@.take(end as int),
            start <= end,
            forall|k: int| 0 <= k < found@.len() ==> (#[trigger] found@[k])@.len() > 0,
            !done ==> nul_pieces(body) == found@.map_values(|path: Vec<u8>| path@) + nul_pieces(body.skip(start as int)),
            done ==> nul_pieces(body) == found@.map_values(|path: Vec<u8>| path@),
        decreases end - start + if done { 0int } else { 1int },
    {
        let ghost rest = body.skip(start as int);
        let mut k = start;
        while k < end && output[k] != 0
            invariant
                start <= k <= end,
                end + 1 == output@.len(),
                body == output@.take(end as int),
                forall|m: int| start <= m < k ==> output@[m] != 0,
            decreases end - k,
        {
            k = k + 1;
        }
        proof {
            lemma_first_nul(rest, 0);
            assert forall|m: int| 0 <= m < k - start implies rest[m] != 0 by {
                assert(rest[m] == output@[start + m]);
            }
            if k < end {
                assert(rest[k - start] == output@[k as int]);
            }
            if first_nul(rest, 0) < k - start {
                assert(rest[first_nul(rest, 0)] == 0);
            }
            assert(first_nul(rest, 0) == k - start);
        }
        let mut piece: Vec<u8> = Vec::new();
        let mut m = start;
        while m < k
            invariant
                start <= m <= k <= end,
                end + 1 == output@.len(),
                piece@ == output@.subrange(start as int, m as int),
            decreases k - m,
        {
            piece.push(output[m]);
            m = m + 1;
            assert(piece@ =~= output@.subrange(start as int, m as int));
        }
        if piece.len() == 0 {
            proof {
                assert(rest.take(0) =~= piece@);
                let pieces = nul_pieces(body);
                let at = found@.len() as int;
                assert(nul_pieces(rest)[0] == rest.take(k - start));
                assert(pieces[at] == nul_pieces(rest)[0]);
            }
            return None;
        }
        let ghost before = found@;
        found.push(piece);
        proof {
            assert(rest.take(k - start) =~= piece@);
            if k == end {
                assert(rest.take(k - start) =~= rest);
                assert(nul_pieces(rest) == seq![rest]);
            } else {
                assert(nul_pieces(rest) == seq![rest.take(k - start)] + nul_pieces(rest.skip(k - start + 1)));
            }
            assert(found@.map_values(|path: Vec<u8>| path@) =~= before.map_values(|path: Vec<u8>| path@).push(piece@));
        }
        if k < end {
            proof {
                assert(rest.skip(k - start + 1) =~= body.skip(k + 1));
            }
            start = k + 1;
        } else {
            done = true;
        }
    }
    proof {
        let pieces = nul_pieces(body);
        assert forall|k: int| 0 <= k < pieces.len() implies #[trigger] pieces[k].len() != 0 by {
            assert(pieces[k] == found@[k]@);
        }
    }
    Some(found)
}


/// What a capture of a child's output is held to.
#[derive(Clone, Copy, Debug, PartialEq, Eq, Structural)]
pub struct CaptureLimits {
    /// How long the child may run, in nanoseconds.
    pub timeout_nanos: u128,
    /// The most bytes of standard output kept.
    pub stdout: usize,
    /// The most bytes of standard error read.
    pub stderr: usize,
}

/// Which answer one round of polling waits for next.
#[derive(Clone, Copy, Debug, PartialEq, Eq, Structural)]
pub enum Phase {
    /// How long the child has run.
    Clock,
    /// A read of standard output.
    Stdout,
    /// A read of standard error.
    Stderr,
    /// Whether the child has exited.
    Exit,
}

/// Where a capture stands.
#[derive(Clone, Copy, Debug, PartialEq, Eq, Structural)]
pub struct CaptureState {
    /// The answer awaited.
    pub phase: Phase,
    /// The bytes of standard output kept so far.
    pub stdout_held: usize,
    /// The bytes of standard error read so far.
    pub stderr_seen: usize,
    /// The bytes of standard output this round read.
    pub stdout_read: usize,
    /// The bytes of standard error this round read.
    pub stderr_read: usize,
    /// Whether standard output has ended.
    pub stdout_done: bool,
    /// Whether standard error has ended.
    pub stderr_done: bool,
}

/// The answer to the last piece of work.
#[derive(Clone, Copy, Debug, PartialEq, Eq, Structural)]
pub enum CaptureEvent {
    /// How long the child has run, in nanoseconds.
    Clock(u128),
    /// How many bytes one read of standard output gave, and whether the
    /// stream has ended.
    Stdout { count: usize, ended: bool },
    /// The same for standard error.
    Stderr { count: usize, ended: bool },
    /// Whether the child has exited.
    Exited(bool),
}

/// The next piece of work, or how the capture ends.
#[derive(Clone, Copy, Debug, PartialEq, Eq, Structural)]
pub enum CaptureAction {
    /// Read the clock again at once.
    Poll,
    /// Sleep a moment, then read the clock again: nothing came this round.
    Pause,
    /// Read one chunk of standard output, and keep it.
    ReadStdout,
    /// Read one chunk of standard error.
    ReadStderr,
    /// Ask whether the child has exited.
    AskExited,
    /// The child ran out of time.
    TimedOut,
    /// Standard output went past its limit.
    StdoutOverLimit,
    /// Standard error went past its limit.
    StderrOverLimit,
    /// Both streams ended and the child exited: the output kept is all of it.
    Finished,
}

/// A capture that has read nothing yet.
pub open spec fn capture_start() -> CaptureState {
    CaptureState {
        phase: Phase::Clock,
        stdout_held: 0,
        stderr_seen: 0,
        stdout_read: 0,
        stderr_read: 0,
        stdout_done: false,
        stderr_done: false,
    }
}

/// Whether `count` more bytes would take a stream past `limit`, `held` bytes
/// having come before: more than what is left of the limit, none being left
/// once the limit is reached.
pub open spec fn past_limit(count: usize, held: usize, limit: usize) -> bool {
    count > (if held >= limit {
        0
    } else {
        limit - held
    })
}

/// The end of a round: the exit is asked once both streams ended; otherwise
/// the next round starts, after a pause where nothing came.
pub open spec fn round_end(state: CaptureState) -> (CaptureState, CaptureAction) {
    if state.stdout_done && state.stderr_done {
        (CaptureState { phase: Phase::Exit, ..state }, CaptureAction::AskExited)
    } else if state.stdout_read == 0 && state.stderr_read == 0 {
        (CaptureState { phase: Phase::Clock, ..state }, CaptureAction::Pause)
    } else {
        (CaptureState { phase: Phase::Clock, ..state }, CaptureAction::Poll)
    }
}

/// What the capture does next. Each round reads the clock, then one chunk of
/// standard output, then one of standard error; a stream past its limit or a
/// child past its time ends the capture at once. An answer out of turn leaves
/// the state as it was and asks again for what it waits for.
pub open spec fn capture_decision(state: CaptureState, event: CaptureEvent, limits: CaptureLimits) -> (
    CaptureState,
    CaptureAction,
) {
    match (state.phase, event) {
        (Phase::Clock, CaptureEvent::Clock(elapsed)) => if elapsed >= limits.timeout_nanos {
            (state, CaptureAction::TimedOut)
        } else {
            (CaptureState { phase: Phase::Stdout, ..state }, CaptureAction::ReadStdout)
        },
        (Phase::Stdout, CaptureEvent::Stdout { count, ended }) => if past_limit(
            count,
            state.stdout_held,
            limits.stdout,
        ) {
            (state, CaptureAction::StdoutOverLimit)
        } else {
            (
                CaptureState {
                    phase: Phase::Stderr,
                    stdout_held: (state.stdout_held + count) as usize,
                    stdout_read: count,
                    stdout_done: state.stdout_done || ended,
                    ..state
                },
                CaptureAction::ReadStderr,
            )
        },
        (Phase::Stderr, CaptureEvent::Stderr { count, ended }) => if past_limit(
            count,
            state.stderr_seen,
            limits.stderr,
        ) {
            (state, CaptureAction::StderrOverLimit)
        } else {
            round_end(
                CaptureState {
                    stderr_seen: (state.stderr_seen + count) as usize,
                    stderr_read: count,
                    stderr_done: state.stderr_done || ended,
                    ..state
                },
            )
        },
        (Phase::Exit, CaptureEvent::Exited(exited)) => if exited {
            (state, CaptureAction::Finished)
        } else if state.stdout_read == 0 && state.stderr_read == 0 {
            (CaptureState { phase: Phase::Clock, ..state }, CaptureAction::Pause)
        } else {
            (CaptureState { phase: Phase::Clock, ..state }, CaptureAction::Poll)
        },
        _ => (state, awaited(state.phase)),
    }
}

/// The work whose answer a phase waits for.
pub open spec fn awaited(phase: Phase) -> CaptureAction {
    match phase {
        Phase::Clock => CaptureAction::Poll,
        Phase::Stdout => CaptureAction::ReadStdout,
        Phase::Stderr => CaptureAction::ReadStderr,
        Phase::Exit => CaptureAction::AskExited,
    }
}

/// A capture that has read nothing yet.
pub fn start_capture() -> (r: CaptureState)
    ensures
        r == capture_start(),
{
    CaptureState {
        phase: Phase::Clock,
        stdout_held: 0,
        stderr_seen: 0,
        stdout_read: 0,
        stderr_read: 0,
        stdout_done: false,
        stderr_done: false,
    }
}

fn exceeds(count: usize, held: usize, limit: usize) -> (r: bool)
    ensures
        r == past_limit(count, held, limit),
{
    count > if held >= limit {
        0
    } else {
        limit - held
    }
}

/// One decision of a capture: the next state and the next piece of work, from
/// where the capture stands and the answer to the last piece.
pub fn capture_step(state: CaptureState, event: CaptureEvent, limits: &CaptureLimits) -> (r: (
    CaptureState,
    CaptureAction,
))
    ensures
        r == capture_decision(state, event, *limits),
{
    let end_round = |next: CaptureState| -> (r: (CaptureState, CaptureAction))
        ensures
            r == round_end(next),
        {
            if next.stdout_done && next.stderr_done {
                (CaptureState { phase: Phase::Exit, ..next }, CaptureAction::AskExited)
            } else if next.stdout_read == 0 && next.stderr_read == 0 {
                (CaptureState { phase: Phase::Clock, ..next }, CaptureAction::Pause)
            } else {
                (CaptureState { phase: Phase::Clock, ..next }, CaptureAction::Poll)
            }
        };
    match (state.phase, event) {
        (Phase::Clock, CaptureEvent::Clock(elapsed)) => if elapsed >= limits.timeout_nanos {
            (state, CaptureAction::TimedOut)
        } else {
            (CaptureState { phase: Phase::Stdout, ..state }, CaptureAction::ReadStdout)
        },
        (Phase::Stdout, CaptureEvent::Stdout { count, ended }) => if exceeds(
            count,
            state.stdout_held,
            limits.stdout,
        ) {
            (state, CaptureAction::StdoutOverLimit)
        } else {
            (
                CaptureState {
                    phase: Phase::Stderr,
                    stdout_held: state.stdout_held + count,
                    stdout_read: count,
                    stdout_done: state.stdout_done || ended,
                    ..state
                },
                CaptureAction::ReadStderr,
            )
        },
        (Phase::Stderr, CaptureEvent::Stderr { count, ended }) => if exceeds(
            count,
            state.stderr_seen,
            limits.stderr,
        ) {
            (state, CaptureAction::StderrOverLimit)
        } else {
            end_round(
                CaptureState {
                    stderr_seen: state.stderr_seen + count,
                    stderr_read: count,
                    stderr_done: state.stderr_done || ended,
                    ..state
                },
            )
        },
        (Phase::Exit, CaptureEvent::Exited(exited)) => if exited {
            (state, CaptureAction::Finished)
        } else if state.stdout_read == 0 && state.stderr_read == 0 {
            (CaptureState { phase: Phase::Clock, ..state }, CaptureAction::Pause)
        } else {
            (CaptureState { phase: Phase::Clock, ..state }, CaptureAction::Poll)
        },
        (Phase::Clock, _) => (state, CaptureAction::Poll),
        (Phase::Stdout, _) => (state, CaptureAction::ReadStdout),
        (Phase::Stderr, _) => (state, CaptureAction::ReadStderr),
        (Phase::Exit, _) => (state, CaptureAction::AskExited),
    }
}

/// A capture never keeps more standard output than its limit, nor reads more
/// standard error: a step that would take a stream past it ends the capture
/// instead.
pub proof fn law_capture_stays_within_limits(state: CaptureState, event: CaptureEvent, limits: CaptureLimits)
    requires
        state.stdout_held <= limits.stdout,
        state.stderr_seen <= limits.stderr,
    ensures
        capture_decision(state, event, limits).0.stdout_held <= limits.stdout,
        capture_decision(state, event, limits).0.stderr_seen <= limits.stderr,
{
}

} // verus!
