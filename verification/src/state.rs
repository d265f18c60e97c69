//! The lifecycle of a language server session.
use vstd::prelude::*;

verus! {

/// Where a session is in its lifecycle: created, initialized by the client, or shut down.
#[derive(Debug, Clone, Copy, PartialEq, Eq, Structural)]
pub enum LifecyclePhase {
    Created,
    Initialized,
    Shutdown,
}

impl Default for LifecyclePhase {
    fn default() -> (phase: Self)
        ensures
            phase == LifecyclePhase::Created,
    {
        LifecyclePhase::Created
    }
}

/// Whether the session has been shut down.
pub fn is_shutdown(phase: LifecyclePhase) -> (r: bool)
    ensures
        r == (phase == LifecyclePhase::Shutdown),
{
    match phase {
        LifecyclePhase::Shutdown => true,
        _ => false,
    }
}

} // verus!
