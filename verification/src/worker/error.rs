//! What the reactor refuses.

use vstd::prelude::*;

verus! {

/// A request that the reactor does not carry out. The state of the worker is
/// then as it was before the request.
#[derive(Clone, Copy, Debug, PartialEq, Eq, Structural)]
pub enum ReactorError {
    /// A data object that local tasks still read was to be removed.
    DataStillNeeded,
    /// A task was assigned that the worker already has.
    TaskAlreadyKnown,
    /// A task was assigned that names a dependency twice.
    DependencyRepeated,
    /// A task was reported as finished by a subworker that does not run it.
    TaskNotRunning,
}

} // verus!
