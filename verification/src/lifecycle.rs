//! The life of the process: it runs until a shutdown signal arrives, then
//! drains and exits.

use vstd::prelude::*;

verus! {

/// A signal that asks the process to shut down.
#[derive(Clone, Copy, Debug, PartialEq, Eq, Structural)]
pub enum Signal {
    /// The interactive interrupt (Ctrl-C).
    Interrupt,
    /// The termination signal, where the operating system has one.
    Terminate,
}

/// Where the process stands.
#[derive(Clone, Copy, Debug, PartialEq, Eq, Structural)]
pub enum Phase {
    /// Accepting connections and serving requests.
    Running,
    /// No longer accepting connections; requests in flight run to their
    /// end. There is no way back.
    Draining,
}

/// How the process ends.
#[derive(Clone, Copy, Debug, PartialEq, Eq, Structural)]
pub enum Exit {
    /// The service drained after a shutdown signal.
    Clean,
    /// The configuration could not be loaded.
    ConfigFailure,
}

/// The phase after a run of signals, taken in order.
pub open spec fn phase_after(phase: Phase, signals: Seq<Signal>) -> Phase
    decreases signals.len(),
{
    if signals.len() == 0 {
        phase
    } else {
        phase_after(phase, signals.drop_last()).next(signals.last())
    }
}

impl Phase {
    /// The phase that follows when `signal` arrives: draining, whichever
    /// signal it is and whatever the phase was.
    pub open spec fn next(self, signal: Signal) -> Phase {
        Phase::Draining
    }

    /// The phase a process starts in.
    pub fn start() -> (phase: Phase)
        ensures
            phase == Phase::Running,
    {
        Phase::Running
    }

    /// Takes note of a shutdown signal.
    pub fn on_signal(self, signal: Signal) -> (phase: Phase)
        ensures
            phase == self.next(signal),
            phase == Phase::Draining,
    {
        match signal {
            Signal::Interrupt => Phase::Draining,
            Signal::Terminate => Phase::Draining,
        }
    }

    /// Whether new connections are accepted in this phase.
    pub fn accepts_connections(&self) -> (r: bool)
        ensures
            r == (*self == Phase::Running),
    {
        match self {
            Phase::Running => true,
            Phase::Draining => false,
        }
    }
}

impl Exit {
    /// The exit code of the process: 0 after a clean shutdown, 1 where the
    /// configuration could not be loaded.
    pub fn code(&self) -> (code: i32)
        ensures
            code == match *self {
                Exit::Clean => 0i32,
                Exit::ConfigFailure => 1i32,
            },
    {
        match self {
            Exit::Clean => 0,
            Exit::ConfigFailure => 1,
        }
    }
}

/// Draining is terminal: no run of signals leads out of it.
pub proof fn lemma_draining_is_terminal(signals: Seq<Signal>)
    ensures
        phase_after(Phase::Draining, signals) == Phase::Draining,
    decreases signals.len(),
{
    if signals.len() > 0 {
        lemma_draining_is_terminal(signals.drop_last());
    }
}

/// After the first shutdown signal, whatever follows, the process is
/// draining.
pub proof fn lemma_any_signal_drains(phase: Phase, signals: Seq<Signal>)
    requires
        signals.len() > 0,
    ensures
        phase_after(phase, signals) == Phase::Draining,
{
}

} // verus!
