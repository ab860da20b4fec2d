//! Control-state bookkeeping for the concurrent parts of the server:
//! the control-channel signals, the worker pool's lifecycle, and the
//! server's own lifecycle. The tasks and channels themselves live
//! with the caller; these types fix what each step of coordinated
//! teardown must do.

use vstd::prelude::*;

verus! {

/// A signal on the server's control channel.
#[derive(Clone, Copy, PartialEq, Eq, Structural, Debug)]
pub enum Message {
    /// A generic numeric code, free for callers to interpret.
    Code(u32),
    /// Tells the driver to stop accepting and drain the pool.
    Shutdown,
}

/// Failures of the worker pool, returned to the caller, never retried.
#[derive(Clone, Copy, PartialEq, Eq, Structural, Debug)]
pub enum ConcurrencyError {
    /// The consuming side of the job channel is already torn down.
    SubmissionFailed,
    /// A termination signal could not be delivered.
    ShutdownSendFailed,
    /// A worker task could not be joined.
    WorkerJoinFailed,
}

/// Failures of the server lifecycle.
#[derive(Clone, Copy, PartialEq, Eq, Structural, Debug)]
pub enum LifecycleError {
    /// The listening resource could not be bound; fatal, no retry.
    BindFailed,
    /// The driver task ended abnormally, reported at join.
    DriverPanicked,
}

/// The lifecycle states of a worker pool.
#[derive(Clone, Copy, PartialEq, Eq, Structural, Debug)]
pub enum PoolPhase {
    /// Workers consume jobs; submission is open.
    Running,
    /// Termination signals are out; workers drain and exit.
    ShuttingDown,
    /// Every worker has been joined.
    Terminated,
}

/// The control state of a worker pool: how many workers it owns and
/// where in its lifecycle it stands. Shutdown sends exactly one
/// termination signal per worker, once; a second shutdown would send
/// surplus signals that are never consumed, so the state machine
/// rules it out.
pub struct PoolControl {
    /// The number of worker tasks the pool owns; at least one.
    pub workers: usize,
    /// Where in its lifecycle the pool stands.
    pub phase: PoolPhase,
}

impl PoolControl {
    /// The control state of a freshly built pool of `workers` tasks.
    pub fn new(workers: usize) -> (s: PoolControl)
        requires
            workers >= 1,
        ensures
            s.workers == workers,
            s.phase == PoolPhase::Running,
    {
        PoolControl { workers, phase: PoolPhase::Running }
    }

    /// Whether a job may be submitted: only while running.
    pub fn may_submit(&self) -> (b: bool)
        ensures
            b == (self.phase == PoolPhase::Running),
    {
        match self.phase {
            PoolPhase::Running => true,
            _ => false,
        }
    }

    /// Begins coordinated shutdown. The caller must send exactly the
    /// returned number of termination signals: one per worker.
    pub fn begin_shutdown(&mut self) -> (n: usize)
        requires
            old(self).phase == PoolPhase::Running,
        ensures
            final(self).phase == PoolPhase::ShuttingDown,
            final(self).workers == old(self).workers,
            n == old(self).workers,
    {
        self.phase = PoolPhase::ShuttingDown;
        self.workers
    }

    /// Records that every worker has consumed its termination signal
    /// and has been joined.
    pub fn finish(&mut self)
        requires
            old(self).phase == PoolPhase::ShuttingDown,
        ensures
            final(self).phase == PoolPhase::Terminated,
            final(self).workers == old(self).workers,
    {
        self.phase = PoolPhase::Terminated;
    }
}

/// The lifecycle states of the server.
#[derive(Clone, Copy, PartialEq, Eq, Structural, Debug)]
pub enum ServerPhase {
    /// The listener is bound and the driver task is starting.
    Starting,
    /// The driver accepts connections and dispatches jobs.
    Running,
    /// A shutdown signal has been sent to the driver.
    ShutdownRequested,
    /// The driver task has been joined.
    Joined,
}

/// The control state of a running server: where in its lifecycle the
/// driver stands. One step per transition; the caller performs the
/// matching outside action between steps.
pub struct ServerControl {
    /// Where in its lifecycle the server stands.
    pub phase: ServerPhase,
}

impl ServerControl {
    /// The control state at start: listener bound, driver starting.
    pub fn new() -> (s: ServerControl)
        ensures
            s.phase == ServerPhase::Starting,
    {
        ServerControl { phase: ServerPhase::Starting }
    }

    /// Records that the driver task has been spawned and runs.
    pub fn started(&mut self)
        requires
            old(self).phase == ServerPhase::Starting,
        ensures
            final(self).phase == ServerPhase::Running,
    {
        self.phase = ServerPhase::Running;
    }

    /// Records that a shutdown signal went out to the driver.
    pub fn shutdown_requested(&mut self)
        requires
            old(self).phase == ServerPhase::Running,
        ensures
            final(self).phase == ServerPhase::ShutdownRequested,
    {
        self.phase = ServerPhase::ShutdownRequested;
    }

    /// Records that the driver task has been joined.
    pub fn joined(&mut self)
        requires
            old(self).phase == ServerPhase::Running || old(self).phase
                == ServerPhase::ShutdownRequested,
        ensures
            final(self).phase == ServerPhase::Joined,
    {
        self.phase = ServerPhase::Joined;
    }
}

} // verus!
