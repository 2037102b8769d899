use limae::files::git::{
    capture_step, start_capture, CaptureAction, CaptureEvent, CaptureLimits, CaptureState, Phase,
};

fn limits() -> CaptureLimits {
    CaptureLimits { timeout_nanos: 1_000, stdout: 10, stderr: 4 }
}

fn step(state: CaptureState, event: CaptureEvent) -> (CaptureState, CaptureAction) {
    capture_step(state, event, &limits())
}

#[test]
fn a_round_reads_the_clock_then_stdout_then_stderr() {
    let (state, action) = step(start_capture(), CaptureEvent::Clock(0));
    assert_eq!(action, CaptureAction::ReadStdout);
    let (state, action) = step(state, CaptureEvent::Stdout { count: 6, ended: false });
    assert_eq!(action, CaptureAction::ReadStderr);
    let (state, action) = step(state, CaptureEvent::Stderr { count: 1, ended: false });
    assert_eq!(action, CaptureAction::Poll);
    assert_eq!((state.stdout_held, state.stderr_seen, state.phase), (6, 1, Phase::Clock));
}

#[test]
fn a_round_that_read_nothing_pauses() {
    let (state, _) = step(start_capture(), CaptureEvent::Clock(5));
    let (state, _) = step(state, CaptureEvent::Stdout { count: 0, ended: false });
    assert_eq!(step(state, CaptureEvent::Stderr { count: 0, ended: false }).1, CaptureAction::Pause);
}

#[test]
fn the_time_limit_is_reached_at_the_timeout_itself() {
    assert_eq!(step(start_capture(), CaptureEvent::Clock(999)).1, CaptureAction::ReadStdout);
    assert_eq!(step(start_capture(), CaptureEvent::Clock(1_000)).1, CaptureAction::TimedOut);
}

#[test]
fn output_up_to_the_limit_is_kept_and_one_byte_more_is_refused() {
    let (state, _) = step(start_capture(), CaptureEvent::Clock(0));
    let (state, action) = step(state, CaptureEvent::Stdout { count: 10, ended: false });
    assert_eq!(action, CaptureAction::ReadStderr);
    let (state, action) = step(state, CaptureEvent::Stderr { count: 4, ended: false });
    assert_eq!(action, CaptureAction::Poll);
    let (state, _) = step(state, CaptureEvent::Clock(1));
    assert_eq!(
        step(state, CaptureEvent::Stdout { count: 1, ended: false }).1,
        CaptureAction::StdoutOverLimit
    );
    let (state, _) = step(state, CaptureEvent::Stdout { count: 0, ended: false });
    assert_eq!(
        step(state, CaptureEvent::Stderr { count: 1, ended: false }).1,
        CaptureAction::StderrOverLimit
    );
}

#[test]
fn the_capture_finishes_once_both_streams_ended_and_the_child_exited() {
    let (state, _) = step(start_capture(), CaptureEvent::Clock(0));
    let (state, _) = step(state, CaptureEvent::Stdout { count: 3, ended: true });
    let (state, action) = step(state, CaptureEvent::Stderr { count: 0, ended: true });
    assert_eq!(action, CaptureAction::AskExited);
    let (waiting, action) = step(state, CaptureEvent::Exited(false));
    assert_eq!((waiting.phase, action), (Phase::Clock, CaptureAction::Poll));
    assert_eq!(step(state, CaptureEvent::Exited(true)).1, CaptureAction::Finished);
}

#[test]
fn an_answer_out_of_turn_asks_again_for_the_one_awaited() {
    let (state, _) = step(start_capture(), CaptureEvent::Clock(0));
    assert_eq!(step(state, CaptureEvent::Exited(true)), (state, CaptureAction::ReadStdout));
}
