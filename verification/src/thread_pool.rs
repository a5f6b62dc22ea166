//! Worker pools: the interface that a server hands its jobs to, the pool
//! that runs every job at once, and the rules of the shared-queue pool.

use crate::error::KvsError;
use vstd::prelude::*;

verus! {

/// A pool that runs jobs.
pub trait ThreadPool: Sized {
    /// Makes a pool of `num_threads` workers.
    fn new(num_threads: u32) -> (pool: Result<Self, KvsError>);

    /// Hands `job` to the pool.
    fn spawn<F>(&self, job: F) where F: FnOnce() + Send + 'static
        requires
            job.requires(()),
    ;
}

/// Which pool a server runs its jobs on.
#[derive(Debug, Clone, Copy, PartialEq, Eq, Structural)]
pub enum ThreadPoolType {
    Rayon,
    SharedQ,
}

/// The pool without workers of its own: a job is run to its end before
/// `spawn` returns.
pub struct NaiveThreadPool {}

impl ThreadPool for NaiveThreadPool {
    fn new(num_threads: u32) -> (pool: Result<NaiveThreadPool, KvsError>)
        ensures
            pool is Ok,
    {
        Ok(NaiveThreadPool {  })
    }

    fn spawn<F>(&self, job: F) where F: FnOnce() + Send + 'static
        ensures
            job.ensures((), ()),
    {
        job();
    }
}

/// What travels through the queue of the shared-queue pool.
pub enum Message<T> {
    /// A job to run.
    Task(T),
    /// The order to stop, one for each worker.
    Shutdown,
}

/// What a worker does after it took a message from the queue.
pub enum WorkerStep<T> {
    /// Run the job, then take the next message.
    Run(T),
    /// Leave the loop.
    Exit,
}

/// How many messages the queue of a pool of `num_threads` workers holds
/// before `spawn` blocks: four for each worker.
pub open spec fn spec_queue_capacity(num_threads: u32) -> int {
    4 * num_threads
}

/// How many messages the queue of a pool of `num_threads` workers holds
/// before `spawn` blocks.
pub fn queue_capacity(num_threads: u32) -> (capacity: u64)
    ensures
        capacity == spec_queue_capacity(num_threads),
{
    4 * (num_threads as u64)
}

/// What a worker does with a message: it runs a task and goes on, and it
/// stops on `Shutdown`.
pub fn worker_step<T>(message: Message<T>) -> (step: WorkerStep<T>)
    ensures
        step == match message {
            Message::Task(task) => WorkerStep::<T>::Run(task),
            Message::Shutdown => WorkerStep::<T>::Exit,
        },
{
    match message {
        Message::Task(task) => WorkerStep::Run(task),
        Message::Shutdown => WorkerStep::Exit,
    }
}

/// Whether a worker that leaves its loop is replaced: only one that leaves
/// because its job panicked. One that was told to stop is not.
pub fn replace_worker(panicking: bool) -> (replace: bool)
    ensures
        replace == panicking,
{
    panicking
}

/// How many `Shutdown` messages a pool sends when it is dropped: one for
/// each worker.
pub fn shutdown_messages(num_threads: u32) -> (count: u32)
    ensures
        count == num_threads,
{
    num_threads
}

} // verus!
