//! Process-level control events: the typed control stream the supervisor
//! derives from OS signals and forwards to the dispatcher.

use vstd::prelude::*;

verus! {

/// A control event for the running agent.
#[derive(Clone, Copy, Debug, PartialEq, Eq, Structural)]
pub enum Signal {
    /// Stop cleanly: the dispatcher exits, the sender drains and closes.
    Shutdown,
    /// Rebuild the module registry; probes pause during the rebuild.
    Reload,
}

/// An OS signal the agent subscribes to.
#[derive(Clone, Copy, Debug, PartialEq, Eq, Structural)]
pub enum OsSignal {
    Interrupt,
    Terminate,
    HangUp,
}

/// The default control policy: interrupt and terminate ask for shutdown, and
/// hang-up asks for a registry reload.
pub fn map_signal(sig: OsSignal) -> (r: Signal)
    ensures
        r == (match sig {
            OsSignal::Interrupt => Signal::Shutdown,
            OsSignal::Terminate => Signal::Shutdown,
            OsSignal::HangUp => Signal::Reload,
        }),
{
    match sig {
        OsSignal::Interrupt => Signal::Shutdown,
        OsSignal::Terminate => Signal::Shutdown,
        OsSignal::HangUp => Signal::Reload,
    }
}

} // verus!
