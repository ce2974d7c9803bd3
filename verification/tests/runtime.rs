use patchquilt::runtime::{
    classpath, join, launcher_arguments, on_output, readiness, runtime_layout, shutdown_step,
    stop_command, OutputEvent, ShutdownStep,
};

#[test]
fn paths_join_like_unix_paths() {
    assert_eq!(join("/srv", "patchquilt"), "/srv/patchquilt");
    assert_eq!(join("/srv/", "patchquilt"), "/srv/patchquilt");
    assert_eq!(join("", "lib"), "lib");
    assert_eq!(join("/srv", "/abs"), "/abs");
    assert_eq!(classpath("/srv/patchquilt/runtime"), "/srv/patchquilt/runtime/lib/*");
}

#[test]
fn layout_lives_below_the_server_root() {
    let layout = runtime_layout("/srv/pumpkin");
    assert_eq!(layout.base, "/srv/pumpkin/patchquilt");
    assert_eq!(layout.mods, "/srv/pumpkin/patchquilt/mods");
    assert_eq!(layout.runtime, "/srv/pumpkin/patchquilt/runtime");
    assert_eq!(layout.lib, "/srv/pumpkin/patchquilt/runtime/lib");
}

#[test]
fn launcher_gets_classpath_main_class_and_game_dir() {
    let arguments = launcher_arguments("/g", "/g/runtime");
    assert_eq!(
        arguments,
        vec!["-cp", "/g/runtime/lib/*", "org.patchquilt.host.PatchQuiltLauncher", "--gameDir", "/g"]
    );
}

#[test]
fn ready_line_is_reported_once_and_not_logged() {
    let first = on_output(true, OutputEvent::Line("PATCHQUILT_READY".into()));
    assert!(!first.waiting);
    assert_eq!(first.report, Some(Ok(())));
    assert_eq!(first.log, None);
    assert!(!first.stop);
    let again = on_output(false, OutputEvent::Line("PATCHQUILT_READY".into()));
    assert_eq!(again.report, None);
    assert_eq!(again.log, None);
    let other = on_output(true, OutputEvent::Line("loading mods".into()));
    assert!(other.waiting);
    assert_eq!(other.report, None);
    assert_eq!(other.log.as_deref(), Some("loading mods"));
}

#[test]
fn output_ending_early_explains_why() {
    let closed = on_output(true, OutputEvent::Closed);
    assert!(closed.stop);
    assert_eq!(
        closed.report,
        Some(Err("PatchQuilt Java runtime exited before becoming ready".to_string()))
    );
    let failed = on_output(true, OutputEvent::ReadFailed("broken pipe".into()));
    assert!(failed.stop);
    assert_eq!(
        failed.report,
        Some(Err("failed to read PatchQuilt output: broken pipe".to_string()))
    );
    let closed_after_ready = on_output(false, OutputEvent::Closed);
    assert!(closed_after_ready.stop);
    assert_eq!(closed_after_ready.report, None);
}

#[test]
fn readiness_times_out_with_a_message() {
    assert_eq!(readiness(Some(Ok(()))), Ok(()));
    assert_eq!(readiness(Some(Err("x".into()))), Err("x".to_string()));
    assert_eq!(
        readiness(None),
        Err("PatchQuilt Java runtime did not become ready within 60 seconds".to_string())
    );
}

#[test]
fn shutdown_polls_a_hundred_times_then_kills() {
    assert_eq!(stop_command(), b"STOP\n".to_vec());
    assert_eq!(shutdown_step(1, true), ShutdownStep::Exited);
    assert_eq!(shutdown_step(1, false), ShutdownStep::PollAgain);
    assert_eq!(shutdown_step(99, false), ShutdownStep::PollAgain);
    assert_eq!(shutdown_step(100, false), ShutdownStep::Kill);
    assert_eq!(shutdown_step(100, true), ShutdownStep::Exited);
}
