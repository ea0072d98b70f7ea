//! The state of an application's startup: the startup delegate runs once, inside the
//! application's `startup` signal, and its result is taken once the application has run.
use vstd::prelude::*;
use crate::error::WoabError;

verus! {

/// Where the startup of an application is.
pub enum ActivationState<S, F> {
    /// The startup delegate has not run yet.
    BeforeStartup(F),
    /// The startup delegate was taken out to run.
    WaitingForStartupResult,
    /// The startup delegate succeeded.
    StartupSucceeded(S),
    /// The startup delegate failed.
    StartupFailed(WoabError),
    /// The result of the startup was taken out.
    ResultTakenOut,
}

/// Taking out the startup delegate: the delegate and the state left behind.
pub open spec fn spec_take_startup_dlg<S, F>(st: ActivationState<S, F>) -> (Option<F>, ActivationState<S, F>) {
    match st {
        ActivationState::BeforeStartup(f) => (Some(f), ActivationState::WaitingForStartupResult),
        _ => (None, st),
    }
}

/// Recording the result of the startup delegate.
pub open spec fn spec_set_startup_result<S, F>(result: Result<S, WoabError>) -> ActivationState<S, F> {
    match result {
        Ok(s) => ActivationState::StartupSucceeded(s),
        Err(e) => ActivationState::StartupFailed(e),
    }
}

/// Taking out the result of the startup: `None` when the delegate never ran.
pub open spec fn spec_take_startup_result<S, F>(st: ActivationState<S, F>) -> Option<Result<S, WoabError>> {
    match st {
        ActivationState::StartupSucceeded(s) => Some(Ok(s)),
        ActivationState::StartupFailed(e) => Some(Err(e)),
        _ => None,
    }
}

impl<S, F> ActivationState<S, F> {
    /// A state before the startup, holding the delegate.
    pub fn new(dlg: F) -> (r: Self)
        ensures
            r == ActivationState::<S, F>::BeforeStartup(dlg),
    {
        ActivationState::BeforeStartup(dlg)
    }

    /// Whether the startup delegate has not run yet.
    pub fn is_before_startup(&self) -> (r: bool)
        ensures
            r == (*self is BeforeStartup),
    {
        match self {
            ActivationState::BeforeStartup(_) => true,
            _ => false,
        }
    }

    /// Takes out the startup delegate to run it; `None` once the startup has a result. Not to be
    /// called while the delegate runs or after the result was taken out.
    pub fn take_startup_dlg(&mut self) -> (r: Option<F>)
        requires
            !(*old(self) is WaitingForStartupResult),
            !(*old(self) is ResultTakenOut),
        ensures
            (r, *final(self)) == spec_take_startup_dlg(*old(self)),
    {
        match self {
            ActivationState::BeforeStartup(_) => {
                let mut taken = ActivationState::WaitingForStartupResult;
                std::mem::swap(self, &mut taken);
                match taken {
                    ActivationState::BeforeStartup(dlg) => Some(dlg),
                    _ => None,
                }
            },
            _ => None,
        }
    }

    /// Records the result of the startup delegate; only while it is awaited.
    pub fn set_startup_result(&mut self, result: Result<S, WoabError>)
        requires
            *old(self) is WaitingForStartupResult,
        ensures
            *final(self) == spec_set_startup_result::<S, F>(result),
    {
        *self = match result {
            Ok(ok) => ActivationState::StartupSucceeded(ok),
            Err(err) => ActivationState::StartupFailed(err),
        };
    }

    /// Takes out the result of the startup (`None` if the delegate never ran). Not to be called
    /// while the delegate runs or after the result was taken out.
    pub fn take_startup_result(&mut self) -> (r: Option<Result<S, WoabError>>)
        requires
            !(*old(self) is WaitingForStartupResult),
            !(*old(self) is ResultTakenOut),
        ensures
            r == spec_take_startup_result(*old(self)),
            *final(self) is ResultTakenOut,
    {
        let mut taken = ActivationState::ResultTakenOut;
        std::mem::swap(self, &mut taken);
        match taken {
            ActivationState::StartupSucceeded(ok) => Some(Ok(ok)),
            ActivationState::StartupFailed(err) => Some(Err(err)),
            _ => None,
        }
    }
}

/// The outcome of the exit code of a GTK application: `0` is success.
pub fn exit_code_result(exit_code: i32) -> (r: Result<(), WoabError>)
    ensures
        exit_code == 0 ==> r is Ok,
        exit_code != 0 ==> (r matches Err(WoabError::GtkBadExitCode(c)) && c == exit_code),
{
    if exit_code == 0 {
        Ok(())
    } else {
        Err(WoabError::GtkBadExitCode(exit_code))
    }
}

/// What an application's `main` returns once GTK exited with `exit_code`, after the startup
/// delegate ran and the runtime was closed with the outcome `closed`: the failure to close first,
/// then a bad exit code, and otherwise the result of the startup, which is taken out.
pub fn startup_outcome<S, F>(state: &mut ActivationState<S, F>, closed: Result<(), WoabError>, exit_code: i32) -> (r:
    Result<S, WoabError>)
    requires
        *old(state) is StartupSucceeded || *old(state) is StartupFailed,
    ensures
        match closed {
            Err(e) => r matches Err(e2) && e2 == e && *final(state) == *old(state),
            Ok(()) => if exit_code != 0 {
                r matches Err(WoabError::GtkBadExitCode(c)) && c == exit_code && *final(state) == *old(state)
            } else {
                Some(r) == spec_take_startup_result(*old(state)) && *final(state) is ResultTakenOut
            },
        },
{
    if let Err(e) = closed {
        return Err(e);
    }
    if exit_code != 0 {
        return Err(WoabError::GtkBadExitCode(exit_code));
    }
    match state.take_startup_result() {
        Some(result) => result,
        None => {
            assert(false);
            Err(WoabError::GtkBadExitCode(exit_code))
        },
    }
}

/// The startup delegate is handed out exactly once, and the result taken afterwards is the one
/// that was recorded for it.
pub proof fn lemma_startup_round_trip<S, F>(dlg: F, result: Result<S, WoabError>)
    ensures
        spec_take_startup_dlg(ActivationState::<S, F>::BeforeStartup(dlg)) == (
            Some(dlg),
            ActivationState::<S, F>::WaitingForStartupResult,
        ),
        spec_take_startup_dlg(spec_set_startup_result::<S, F>(result)).0 is None,
        spec_take_startup_result(spec_set_startup_result::<S, F>(result)) == Some(result),
{
}

/// If the application never started up, there is no result to take.
pub proof fn lemma_no_result_before_startup<S, F>(dlg: F)
    ensures
        spec_take_startup_result(ActivationState::<S, F>::BeforeStartup(dlg)) is None,
{
}

} // verus!
