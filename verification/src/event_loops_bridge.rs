//! The life cycle of the Actix runtime that runs inside the GTK thread.
//!
//! The runtime lives in a thread-local cell that is either vacant, holds an idle runtime, or is
//! borrowed while the runtime runs a future. The functions here decide, from the state of that
//! cell, what each operation does and what state it leaves behind.
use vstd::prelude::*;

verus! {

/// The state of the thread-local cell that holds the runtime.
#[derive(Clone, Copy, Debug, PartialEq, Eq, Structural)]
pub enum RuntimeCell {
    /// No runtime was started, or it was closed.
    Vacant,
    /// A runtime is held and nothing is using it.
    Idle,
    /// The runtime is borrowed, e.g. because a future is running inside it.
    InUse,
}

/// Why the runtime could not be stopped.
#[derive(Clone, Copy, Debug, PartialEq, Eq, Structural)]
pub enum RuntimeStopError {
    /// Cannot stop the WoAB runtime because it was not started.
    RuntimeNotStarted,
    /// Cannot stop the WoAB runtime because it is currently in use.
    RuntimeInUse,
}

/// Where a future given to [`try_block_on`] goes.
#[derive(Clone, Copy, Debug, PartialEq, Eq, Structural)]
pub enum BlockOnRoute {
    /// It runs to completion inside the runtime, which is in use meanwhile.
    RunInRuntime,
    /// The runtime is already in use (the call comes from inside it); the future is given back.
    GiveBack,
}

pub open spec fn spec_is_runtime_running(cell: RuntimeCell) -> bool {
    cell != RuntimeCell::Vacant
}

pub open spec fn spec_try_block_on(cell: RuntimeCell) -> BlockOnRoute {
    if cell == RuntimeCell::Idle {
        BlockOnRoute::RunInRuntime
    } else {
        BlockOnRoute::GiveBack
    }
}

/// The cell after an attempt to close the runtime, or why it failed.
pub open spec fn spec_close_actix_runtime(cell: RuntimeCell) -> Result<RuntimeCell, RuntimeStopError> {
    match cell {
        RuntimeCell::Vacant => Err(RuntimeStopError::RuntimeNotStarted),
        RuntimeCell::InUse => Err(RuntimeStopError::RuntimeInUse),
        RuntimeCell::Idle => Ok(RuntimeCell::Vacant),
    }
}

/// Whether the runtime is running: true from the start of the runtime until it is successfully
/// closed. While the cell is borrowed the runtime is in use, hence running.
pub fn is_runtime_running(cell: RuntimeCell) -> (r: bool)
    ensures
        r == spec_is_runtime_running(cell),
{
    match cell {
        RuntimeCell::Vacant => false,
        RuntimeCell::Idle => true,
        RuntimeCell::InUse => true,
    }
}

/// Where a future goes when it is to run inside the runtime. Calling it before the runtime was
/// started is a usage error (the runtime must have been started).
pub fn try_block_on(cell: RuntimeCell) -> (r: BlockOnRoute)
    requires
        cell != RuntimeCell::Vacant,
    ensures
        r == spec_try_block_on(cell),
        r == BlockOnRoute::RunInRuntime <==> cell == RuntimeCell::Idle,
{
    match cell {
        RuntimeCell::Idle => BlockOnRoute::RunInRuntime,
        _ => BlockOnRoute::GiveBack,
    }
}

/// Like [`try_block_on`], for callers outside the runtime: the runtime must be started and idle,
/// and the future then runs in it.
pub fn block_on(cell: RuntimeCell) -> (r: BlockOnRoute)
    requires
        cell == RuntimeCell::Idle,
    ensures
        r == BlockOnRoute::RunInRuntime,
{
    try_block_on(cell)
}

/// Starting the runtime inside the GTK event loop: only from a vacant cell (starting it twice is
/// a usage error); the cell then holds an idle runtime.
pub fn run_actix_inside_gtk_event_loop(cell: RuntimeCell) -> (next: RuntimeCell)
    requires
        cell == RuntimeCell::Vacant,
    ensures
        next == RuntimeCell::Idle,
{
    RuntimeCell::Idle
}

/// Closing the runtime: fails while it is in use or when it was not started; otherwise the
/// runtime is taken out of the cell, which becomes vacant.
pub fn close_actix_runtime(cell: RuntimeCell) -> (r: Result<RuntimeCell, RuntimeStopError>)
    ensures
        r == spec_close_actix_runtime(cell),
{
    match cell {
        RuntimeCell::Vacant => Err(RuntimeStopError::RuntimeNotStarted),
        RuntimeCell::InUse => Err(RuntimeStopError::RuntimeInUse),
        RuntimeCell::Idle => Ok(RuntimeCell::Vacant),
    }
}

/// The runtime runs exactly between its start and its first successful close: it runs right
/// after a start, it does not run after a successful close, and a failed close leaves it as it
/// was.
pub proof fn lemma_running_between_start_and_close(cell: RuntimeCell)
    ensures
        spec_is_runtime_running(RuntimeCell::Idle),
        spec_close_actix_runtime(cell) matches Ok(next) ==> !spec_is_runtime_running(next),
        spec_close_actix_runtime(cell) is Err ==> spec_is_runtime_running(cell) == (cell
            == RuntimeCell::InUse),
        spec_close_actix_runtime(cell) is Ok <==> cell == RuntimeCell::Idle,
{
}

/// A future given from inside the runtime (while it is in use) is always given back, and one
/// given to an idle runtime always runs.
pub proof fn lemma_block_on_inside_runtime_gives_back(cell: RuntimeCell)
    requires
        cell != RuntimeCell::Vacant,
    ensures
        cell == RuntimeCell::InUse ==> spec_try_block_on(cell) == BlockOnRoute::GiveBack,
        cell == RuntimeCell::Idle ==> spec_try_block_on(cell) == BlockOnRoute::RunInRuntime,
{
}

} // verus!
