//! The worker pool: what a pool offers, the messages that a shared-queue
//! pool sends to its workers, and what a worker does with each.
//!
//! The library starts no thread. A pool's threads run the steps that this
//! module decides.

use vstd::prelude::*;
use crate::error::KvsError;

verus! {

/// A pool of workers that run jobs.
pub trait ThreadPool {
    /// A pool of `num` workers.
    fn new(num: u32) -> Result<Self, KvsError> where Self: Sized;

    /// Hands `job` to the pool: it runs to its end on some worker.
    fn spawn<F>(&self, job: F) where F: FnOnce() + Send + 'static;
}

/// What travels on the queue of a shared-queue pool. `J` is the type of a
/// job: a boxed closure in a running pool.
pub enum ThreadPoolMessage<J> {
    /// A job to run.
    RunJob(J),
    /// The worker that takes this stops.
    Shutdown,
}

/// What a worker of a shared-queue pool does next.
pub enum WorkerStep<J> {
    /// Run the job, then wait for the next message.
    Run(J),
    /// Wait for the next message.
    Wait,
    /// Leave the loop.
    Stop,
}

/// What a worker does with what it received: it runs a job, stops on
/// `Shutdown`, and goes on waiting where receiving failed.
pub fn worker_step<J>(received: Option<ThreadPoolMessage<J>>) -> (step: WorkerStep<J>)
    ensures
        step == match received {
            Some(ThreadPoolMessage::RunJob(job)) => WorkerStep::Run(job),
            Some(ThreadPoolMessage::Shutdown) => WorkerStep::Stop,
            None => WorkerStep::Wait,
        },
{
    match received {
        Some(ThreadPoolMessage::RunJob(job)) => WorkerStep::Run(job),
        Some(ThreadPoolMessage::Shutdown) => WorkerStep::Stop,
        None => WorkerStep::Wait,
    }
}

/// Whether a worker that leaves is replaced: it is when it leaves because
/// its job panicked, so that the pool keeps its number of workers.
pub fn replaces_worker(panicking: bool) -> (replace: bool)
    ensures
        replace == panicking,
{
    panicking
}

} // verus!
