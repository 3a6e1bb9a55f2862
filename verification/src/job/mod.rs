//! Files, the jobs that they are cut into, and the queue that the jobs wait in.

pub mod chunks;
pub mod queue;
pub mod scheduler;
pub mod types;

pub use queue::JobQueue;
pub use scheduler::JobScheduler;
pub use types::{Direction, FileMeta, Job, JobResult};
