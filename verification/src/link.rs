//! Transport links.
use crate::item::Progress;
use core::task::Waker;
use vstd::prelude::*;

verus! {

/// Executor-neutral driver for a transport link.
///
/// A link owns its socket or peer state and is polled by the application. The router never
/// spawns it and never chooses an executor.
pub trait Link: Send {
    /// Driver-specific failure.
    type Error;

    /// Advances the link driver. `waker` is woken when it can advance further.
    fn poll(&mut self, waker: &Waker) -> Progress<Result<(), Self::Error>>;
}

} // verus!
