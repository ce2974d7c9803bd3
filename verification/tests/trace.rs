use patchquilt::trace::{exit_code, first_stop, trace_step, TraceStep};

#[test]
fn exit_codes_follow_the_child() {
    assert_eq!(exit_code(0), 0);
    assert_eq!(exit_code(3 << 8), 3);
    assert_eq!(exit_code(255 << 8), 255);
    // Killed by SIGKILL.
    assert_eq!(exit_code(9), 1);
    // A stopped child is no exit.
    assert_eq!(exit_code(0x137f), 1);
}

#[test]
fn wait_statuses_drive_the_trace_loop() {
    assert_eq!(trace_step(0), TraceStep::Finished);
    assert_eq!(trace_step(7 << 8), TraceStep::Finished);
    assert_eq!(trace_step(15), TraceStep::Finished);
    assert_eq!(trace_step(0x137f), TraceStep::Resume);
    // Continued (0xffff) is neither.
    assert_eq!(trace_step(0xffff), TraceStep::WaitAgain);
}

#[test]
fn first_stop_must_be_a_stop() {
    assert_eq!(first_stop(0x857f), Ok(()));
    assert_eq!(
        first_stop(0),
        Err("child exited before ptrace could be resumed".to_string())
    );
    assert_eq!(
        first_stop(9),
        Err("child exited before ptrace could be resumed".to_string())
    );
    assert_eq!(first_stop(0xffff), Err("child did not enter a ptrace stop".to_string()));
}
