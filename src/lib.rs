//! Concurrency primitives modelled as verified state machines: a Treiber
//! stack with deferred reclamation, a sentinel-headed FIFO queue, an
//! exponential backoff helper, a queued synchronizer engine and the
//! semaphore, reentrant lock and countdown latch built on it.
//!
//! Every operation here is one atomic step on plain data. Code that shares
//! an instance between threads performs the actions the steps ask for
//! (park a waiter, unpark a waiter, yield) and feeds the results back.

pub mod backoff;
pub mod lock;
pub mod queue;
pub mod stack;
pub mod sync;

pub use backoff::{Backoff, STEP_LIMIT};
pub use lock::{CountDownLatch, ReentrantLock, Semaphore, WaitStep};
pub use queue::Queue;
pub use stack::{NodeState, PopStage, PopStep, PopTicket, Stack};
pub use sync::{Attempt, IdGenerator, Policy, QueuedLock, Step, WaitNode, WaitStatus};
