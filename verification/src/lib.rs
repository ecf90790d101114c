//! Durable job queue: the verified core.
//!
//! The crate holds every decision of the queue as plain, synchronous code: the
//! write-ahead log format, the job store, crash recovery and the coordinator
//! that schedules, leases, retries and retires jobs. Files, clocks, channels
//! and tasks belong to the program around it.

pub mod admission;
pub mod config;
pub mod coordinator;
pub mod demo;
pub mod error;
pub mod handler;
pub mod history;
pub mod recovery;
pub mod stats;
pub mod store;
pub mod types;
pub mod wal;

pub use config::{Jitter, QueueConfig, RetryConfig, RuntimeConfig};
pub use coordinator::model::{ActiveLease, Clock, WorkerOutcome};
pub use coordinator::state::{Applied, Command, Coordinator, Step};
pub use error::{Error, Result};
pub use handler::{Execution, JobContext, JobError, LeasedJob};
pub use stats::{QueueStats, StatsSnapshot};
pub use store::{MemoryStore, Storage, StorageConfig, TestableStorage};
pub use types::{JobId, JobRecord, JobSpec, JobState, LeaseId, QueueName, UnixMillis};
