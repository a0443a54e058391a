//! Scheduler and shutdown decisions.
//!
//! The runtime drives a fixed-interval tick loop: the first tick fires at
//! once, a cycle runs per tick, and a failed cycle is logged and skipped —
//! the loop never stops because one cycle failed. Shutdown is cooperative:
//! a broadcast flag is observed between cycles, never mid-cycle. Every
//! shutdown event ends the process, including the failure to install a
//! signal listener at all: running unsupervised is not an option.

use vstd::prelude::*;

verus! {

/// An event the signal listener can observe.
pub enum ShutdownSignal {
    /// The OS asked the process to terminate.
    Term,
    /// The controlling terminal hung up.
    Hangup,
    /// The OS delivered an interrupt.
    Interrupt,
    /// The user pressed the interrupt key.
    CtrlC,
    /// No listener could be installed; fail safe by shutting down.
    ListenerFailure,
}

/// What the sync loop does next.
pub enum LoopStep {
    /// Run one more cycle, then look again.
    RunCycle,
    /// Exit cleanly.
    Stop,
}

/// Every observable shutdown event triggers shutdown — the listener
/// failing to install is itself a reason to stop, not to run unwatched.
pub fn shutdown_on(sig: &ShutdownSignal) -> (b: bool)
    ensures
        b,
{
    match sig {
        ShutdownSignal::Term => true,
        ShutdownSignal::Hangup => true,
        ShutdownSignal::Interrupt => true,
        ShutdownSignal::CtrlC => true,
        ShutdownSignal::ListenerFailure => true,
    }
}

/// The loop's decision between ticks: stop exactly when shutdown has been
/// observed. Whether the last cycle failed plays no part — a transient
/// failure must not kill the loop.
pub fn next_step(cycle_failed: bool, shutdown_seen: bool) -> (s: LoopStep)
    ensures
        shutdown_seen ==> s is Stop,
        !shutdown_seen ==> s is RunCycle,
{
    if shutdown_seen {
        LoopStep::Stop
    } else {
        let _ = cycle_failed;
        LoopStep::RunCycle
    }
}

} // verus!
