use vstd::prelude::*;

verus! {

/// Error returned when sending a message fails.
#[derive(Debug, Clone, Copy, PartialEq, Eq, Structural)]
pub enum SendError {
    /// The target actor no longer exists in the system.
    ActorNotRunning,
    /// The runtime has been shut down.
    RuntimeShutdown,
}

} // verus!
