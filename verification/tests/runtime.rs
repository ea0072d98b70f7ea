use woab::event_loops_bridge::{
    block_on, close_actix_runtime, is_runtime_running, run_actix_inside_gtk_event_loop, try_block_on, BlockOnRoute,
    RuntimeCell, RuntimeStopError,
};

#[test]
fn closing_a_runtime_that_was_not_started_fails() {
    assert_eq!(close_actix_runtime(RuntimeCell::Vacant), Err(RuntimeStopError::RuntimeNotStarted));
    assert!(!is_runtime_running(RuntimeCell::Vacant));
}

#[test]
fn test_teardown() {
    // Before the start: closing fails and nothing runs.
    let cell = RuntimeCell::Vacant;
    assert_eq!(close_actix_runtime(cell), Err(RuntimeStopError::RuntimeNotStarted));
    assert!(!is_runtime_running(cell));

    // Started: the runtime runs.
    let cell = run_actix_inside_gtk_event_loop(cell);
    assert_eq!(cell, RuntimeCell::Idle);
    assert!(is_runtime_running(cell));

    // While a signal handler runs inside it, it cannot be closed and still runs.
    let busy = RuntimeCell::InUse;
    assert_eq!(close_actix_runtime(busy), Err(RuntimeStopError::RuntimeInUse));
    assert!(is_runtime_running(busy));

    // Closed after GTK returned: it no longer runs.
    let cell = close_actix_runtime(cell).unwrap();
    assert_eq!(cell, RuntimeCell::Vacant);
    assert!(!is_runtime_running(cell));
}

#[test]
fn futures_run_in_an_idle_runtime_and_are_given_back_from_inside_it() {
    assert_eq!(try_block_on(RuntimeCell::Idle), BlockOnRoute::RunInRuntime);
    assert_eq!(try_block_on(RuntimeCell::InUse), BlockOnRoute::GiveBack);
    assert_eq!(block_on(RuntimeCell::Idle), BlockOnRoute::RunInRuntime);
}
