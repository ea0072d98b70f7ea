use woab::error::{WakerPerished, WoabError};
use woab::gtk_app_helpers::{exit_code_result, startup_outcome, ActivationState};
use woab::waking_helpers::wake_result;

#[test]
fn startup_delegate_is_handed_out_once_and_its_result_taken_back() {
    let mut state: ActivationState<u32, &str> = ActivationState::new("dlg");
    assert!(state.is_before_startup());
    assert_eq!(state.take_startup_dlg(), Some("dlg"));
    assert!(!state.is_before_startup());
    state.set_startup_result(Ok(7));
    assert_eq!(state.take_startup_dlg(), None);
    assert!(matches!(state.take_startup_result(), Some(Ok(7))));
}

#[test]
fn a_failed_startup_is_reported() {
    let mut state: ActivationState<u32, ()> = ActivationState::new(());
    assert_eq!(state.take_startup_dlg(), Some(()));
    state.set_startup_result(Err(WoabError::WidgetMissingInBuilder("win".to_owned())));
    match state.take_startup_result() {
        Some(Err(WoabError::WidgetMissingInBuilder(id))) => assert_eq!(id, "win"),
        _ => panic!("expected the startup error"),
    }
}

#[test]
fn no_result_when_the_application_never_started_up() {
    let mut state: ActivationState<u32, ()> = ActivationState::new(());
    assert!(state.take_startup_result().is_none());
}

#[test]
fn exit_codes() {
    assert!(exit_code_result(0).is_ok());
    assert!(matches!(exit_code_result(3), Err(WoabError::GtkBadExitCode(3))));
}

#[test]
fn startup_outcome_orders_close_failure_exit_code_and_result() {
    let mut state: ActivationState<u32, ()> = ActivationState::new(());
    state.take_startup_dlg();
    state.set_startup_result(Ok(5));
    assert!(matches!(startup_outcome(&mut state, Ok(()), 2), Err(WoabError::GtkBadExitCode(2))));
    assert!(matches!(
        startup_outcome(&mut state, Err(WoabError::IoError("boom".to_owned())), 0),
        Err(WoabError::IoError(_))
    ));
    assert!(matches!(startup_outcome(&mut state, Ok(()), 0), Ok(5)));
}

#[test]
fn waking_gives_the_value_or_reports_a_perished_waker() {
    assert_eq!(wake_result(Some(12)), Ok(12));
    assert_eq!(wake_result::<i32>(None), Err(WakerPerished));
}
