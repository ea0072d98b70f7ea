//! Waking futures from signals.
use vstd::prelude::*;
use crate::error::WakerPerished;

verus! {

/// The outcome of waiting for a value that a signal handler was to send: the value, or
/// [`WakerPerished`] when the sender was dropped without sending one.
pub fn wake_result<T>(received: Option<T>) -> (r: Result<T, WakerPerished>)
    ensures
        match received {
            Some(v) => r == Ok::<T, WakerPerished>(v),
            None => r == Err::<T, WakerPerished>(WakerPerished),
        },
{
    match received {
        Some(v) => Ok(v),
        None => Err(WakerPerished),
    }
}

} // verus!
