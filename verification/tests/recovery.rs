use rust_durable_queue::admission::{judge_try_submit, Place};
use rust_durable_queue::config::SECOND;
use rust_durable_queue::coordinator::model::MILLISECOND;
use rust_durable_queue::recovery::{
    count_records, rebuild, recover, validate_recovered_state, RecordCounts,
};
use rust_durable_queue::wal::{
    scan_wal, TestableWalWriter, WalError, WalFrame, WalHeader, WalRecord,
};
use rust_durable_queue::{
    Clock, Command, Coordinator, Error, JobId, JobRecord, JobSpec, JobState, LeaseId, LeasedJob,
    QueueConfig, QueueName, QueueStats, RetryConfig, RuntimeConfig, StatsSnapshot, Step, StorageConfig,
    UnixMillis, WorkerOutcome,
};

const WALL: i64 = 1_700_000_000_000;

fn queue_name(s: &str) -> QueueName {
    QueueName::new(s).unwrap()
}

fn wal_config(name: &str, capacity: usize) -> RuntimeConfig {
    RuntimeConfig::new(vec![QueueConfig::new(queue_name(name), capacity)], 64).with_storage(
        StorageConfig::Wal {
            path: "data".into(),
        },
    )
}

fn spec(payload: &[u8]) -> JobSpec {
    JobSpec::new(payload.to_vec())
}

fn submitted(id: u128, queue: &str, max_attempts: u32) -> WalRecord {
    WalRecord::JobSubmitted {
        id: JobId::from_uuid(id),
        queue: queue_name(queue),
        spec: spec(b"p").with_max_attempts(max_attempts),
        created_at: UnixMillis::from_millis(1),
    }
}

fn leased(id: u128, epoch: u64, attempt: u32) -> WalRecord {
    WalRecord::JobLeased {
        id: JobId::from_uuid(id),
        lease_id: LeaseId::new(epoch),
        attempt,
        leased_at: UnixMillis::from_millis(2),
    }
}

fn scheduled(id: u128, epoch: u64, attempt: u32, at: i64) -> WalRecord {
    WalRecord::JobRetryScheduled {
        id: JobId::from_uuid(id),
        lease_id: LeaseId::new(epoch),
        attempt,
        available_at: UnixMillis::from_millis(at),
    }
}

fn cancelled(id: u128) -> WalRecord {
    WalRecord::JobCancelled {
        id: JobId::from_uuid(id),
        cancelled_at: UnixMillis::from_millis(3),
    }
}

fn log_of(records: &[WalRecord]) -> Vec<u8> {
    let mut log = WalHeader::new().encode().to_vec();
    for (i, record) in records.iter().enumerate() {
        let frame = WalFrame::new(i as u64 + 1, record.clone());
        log.extend_from_slice(&frame.encode().unwrap());
    }
    log
}

/// A durable queue over a log in memory.
struct Rt {
    coordinator: Coordinator,
    writer: TestableWalWriter,
    clock: Clock,
}

impl Rt {
    fn start_at(config: &RuntimeConfig, mut log: Vec<u8>, wall: i64) -> Result<Rt, Error> {
        let clock = Clock {
            now: 77 * SECOND,
            wall: UnixMillis::from_millis(wall),
        };
        let coordinator = Coordinator::start(config, &mut log, clock)?;
        let writer = TestableWalWriter::open(log).unwrap();
        Ok(Rt {
            coordinator,
            writer,
            clock,
        })
    }

    fn start(config: &RuntimeConfig, log: Vec<u8>) -> Result<Rt, Error> {
        Rt::start_at(config, log, WALL)
    }

    /// The process ends; only the log is left.
    fn crash(self) -> Vec<u8> {
        self.writer.contents().clone()
    }

    fn durably(&mut self, command: Command) -> Result<JobRecord, Error> {
        match self.coordinator.handle(command, self.clock, u32::MAX) {
            Step::Persist(record) => {
                self.writer.append(record.clone()).map_err(Error::Storage)?;
                Ok(self.coordinator.apply(&record, self.clock).job)
            }
            Step::Refuse(error) => Err(error),
            other => panic!("unexpected: {:?}", other),
        }
    }

    fn submit(&mut self, queue: &str, spec: JobSpec) -> JobId {
        let queue = queue_name(queue);
        let id = JobId::new();
        self.durably(Command::Submit { id, queue, spec }).unwrap().id
    }

    /// Submits a job if its queue, of the given capacity, has a place.
    fn try_submit(
        &mut self,
        queue: &str,
        capacity: u64,
        spec: JobSpec,
    ) -> Result<JobRecord, Error> {
        let figures = self.of_queue(queue);
        let queue = queue_name(queue);
        let taken = figures.queued + figures.running + figures.retrying;
        let place = if taken < capacity {
            Place::Granted
        } else {
            Place::Full
        };
        judge_try_submit(place, &queue)?;
        let id = JobId::new();
        self.durably(Command::Submit { id, queue, spec })
    }

    fn of_queue(&self, queue: &str) -> QueueStats {
        let stats = self.stats();
        stats.per_queue.iter().find(|q| q.0 == queue).unwrap().1
    }

    fn status(&self, id: JobId) -> JobRecord {
        self.coordinator.do_status(id).unwrap()
    }

    fn stats(&self) -> StatsSnapshot {
        self.coordinator.do_stats()
    }

    fn advance(&mut self, span: u128) {
        self.clock.now += span;
        self.clock.wall = UnixMillis::from_millis(
            self.clock.wall.as_millis() + (span / MILLISECOND) as i64,
        );
        while let Some(record) = self.coordinator.check_lease_timeouts(self.clock, u32::MAX) {
            self.writer.append(record.clone()).unwrap();
            self.coordinator.apply(&record, self.clock);
        }
        self.coordinator.process_due_retries(self.clock.now);
    }

    fn run(&mut self) -> Option<LeasedJob> {
        self.coordinator
            .handle(Command::FetchWork { worker: 1 }, self.clock, 0);
        let (_, record) = self.coordinator.do_fetch_work(self.clock.wall).unwrap()?;
        self.writer.append(record.clone()).unwrap();
        Some(self.coordinator.lease(&record, self.clock))
    }

    fn report(&mut self, leased: &LeasedJob, outcome: WorkerOutcome) {
        self.durably(Command::WorkerOutcome {
            id: leased.context.id,
            lease_id: leased.lease_id,
            outcome,
        })
        .unwrap();
    }

    /// Runs every job that is ready, with success.
    fn work_off(&mut self) -> Vec<LeasedJob> {
        let mut done = Vec::new();
        while let Some(leased) = self.run() {
            self.report(&leased, WorkerOutcome::Success);
            done.push(leased);
        }
        done
    }
}

#[test]
fn queued_job_restored_after_restart() {
    let config = wal_config("test", 10);
    let mut rt = Rt::start(&config, Vec::new()).unwrap();
    let job_id = rt.submit("test", spec(b"payload1"));
    rt.work_off();
    assert_eq!(rt.status(job_id).state, JobState::Completed);

    let rt = Rt::start(&config, rt.crash()).unwrap();
    assert_eq!(rt.status(job_id).state, JobState::Completed);
}

#[test]
fn queued_job_executes_after_restart() {
    let config = wal_config("test", 10);
    let mut rt = Rt::start(&config, Vec::new()).unwrap();
    let job_id = rt.submit("test", spec(b"test_payload"));
    // The handler hangs, and the queue is shut down.
    rt.run().unwrap();
    rt.coordinator.begin_shutdown(rt.clock.now);
    rt.coordinator.abandon_leases();

    let mut rt = Rt::start(&config, rt.crash()).unwrap();
    rt.advance(0);
    assert_eq!(rt.work_off().len(), 1);
    assert_eq!(rt.status(job_id).state, JobState::Completed);
}

#[test]
fn payload_preserved_after_restart() {
    let config = wal_config("test", 10);
    let expected_payload = b"my_unique_payload_data_12345";
    let mut rt = Rt::start(&config, Vec::new()).unwrap();
    let job_id = rt.submit("test", spec(expected_payload));
    rt.run().unwrap();

    let mut rt = Rt::start(&config, rt.crash()).unwrap();
    rt.advance(0);
    let received = rt.work_off();
    assert_eq!(received.len(), 1);
    assert_eq!(received[0].context.payload, expected_payload.to_vec());
    assert_eq!(rt.status(job_id).state, JobState::Completed);
}

#[test]
fn max_attempts_preserved_after_restart() {
    let config = wal_config("test", 10);
    let mut rt = Rt::start(&config, Vec::new()).unwrap();
    let job_id = rt.submit("test", spec(b"test").with_max_attempts(1));
    rt.run().unwrap();

    let rt = Rt::start(&config, rt.crash()).unwrap();
    // One attempt was used, and one was allowed.
    assert_eq!(rt.status(job_id).state, JobState::Dead);
    assert_eq!(rt.stats().dead, 1);
}

#[test]
fn completed_job_remains_completed_after_restart() {
    let config = wal_config("test", 10);
    let mut rt = Rt::start(&config, Vec::new()).unwrap();
    let job_id = rt.submit("test", spec(b"test"));
    rt.work_off();

    let mut rt = Rt::start(&config, rt.crash()).unwrap();
    assert_eq!(rt.status(job_id).state, JobState::Completed);
    // Should not have executed again.
    rt.advance(100 * SECOND);
    assert!(rt.work_off().is_empty());
}

#[test]
fn completed_job_does_not_consume_capacity() {
    let config = wal_config("test", 1);
    let mut rt = Rt::start(&config, Vec::new()).unwrap();
    rt.submit("test", spec(b"job1"));
    rt.work_off();

    let mut rt = Rt::start(&config, rt.crash()).unwrap();
    // Should succeed despite capacity 1, because a completed job has no place.
    let result = rt.try_submit("test", 1, spec(b"new_job"));
    assert!(result.is_ok());
    let result = rt.try_submit("test", 1, spec(b"another"));
    assert!(matches!(result, Err(Error::QueueFull(_))));
}

#[test]
fn dead_job_remains_dead_after_restart() {
    let config = wal_config("test", 10);
    let mut rt = Rt::start(&config, Vec::new()).unwrap();
    let job_id = rt.submit("test", spec(b"test").with_max_attempts(1));
    let leased = rt.run().unwrap();
    rt.report(&leased, WorkerOutcome::Retryable);
    assert_eq!(rt.status(job_id).state, JobState::Dead);

    let mut rt = Rt::start(&config, rt.crash()).unwrap();
    assert_eq!(rt.status(job_id).state, JobState::Dead);
    assert!(rt.work_off().is_empty());
}

#[test]
fn cancelled_job_remains_cancelled_after_restart() {
    let config = wal_config("test", 10);
    let mut rt = Rt::start(&config, Vec::new()).unwrap();
    let job_id = rt.submit("test", spec(b"test"));
    rt.durably(Command::Cancel { id: job_id }).unwrap();

    let mut rt = Rt::start(&config, rt.crash()).unwrap();
    assert_eq!(rt.status(job_id).state, JobState::Cancelled);
    assert!(rt.work_off().is_empty());
}

#[test]
fn retry_waiting_job_remains_waiting_if_deadline_in_future() {
    let config = wal_config("test", 10).with_retry(RetryConfig::new(3600 * SECOND, 3600 * SECOND));
    let mut rt = Rt::start(&config, Vec::new()).unwrap();
    let job_id = rt.submit("test", spec(b"test").with_max_attempts(3));
    let leased = rt.run().unwrap();
    rt.report(&leased, WorkerOutcome::Retryable);

    // Ten minutes of the hour pass while the queue is down.
    let mut rt = Rt::start_at(&config, rt.crash(), WALL + 600_000).unwrap();
    assert_eq!(rt.status(job_id).state, JobState::RetryWaiting);
    assert!(rt.work_off().is_empty());
    let now = rt.clock.now;
    assert_eq!(
        rt.coordinator.next_retry_deadline(),
        Some(now + 3000 * SECOND)
    );
    rt.advance(3000 * SECOND - 1);
    assert!(rt.work_off().is_empty());
    rt.advance(1);
    assert_eq!(rt.work_off().len(), 1);
}

#[test]
fn overdue_retry_becomes_immediately_ready() {
    let config =
        wal_config("test", 10).with_retry(RetryConfig::new(50 * MILLISECOND, 50 * MILLISECOND));
    let mut rt = Rt::start(&config, Vec::new()).unwrap();
    rt.submit("test", spec(b"test").with_max_attempts(3));
    let leased = rt.run().unwrap();
    rt.report(&leased, WorkerOutcome::Retryable);

    let mut rt = Rt::start_at(&config, rt.crash(), WALL + 100).unwrap();
    rt.advance(0);
    assert_eq!(rt.work_off().len(), 1);
}

#[test]
fn running_job_never_restored_as_running() {
    let config = wal_config("test", 10);
    let mut rt = Rt::start(&config, Vec::new()).unwrap();
    let job_id = rt.submit("test", spec(b"test").with_max_attempts(3));
    let lost = rt.run().unwrap();
    assert_eq!(rt.status(job_id).state, JobState::Running);

    let mut rt = Rt::start(&config, rt.crash()).unwrap();
    assert_eq!(rt.status(job_id).state, JobState::RetryWaiting);
    assert_eq!(rt.stats().running, 0);
    // The lost worker's lease counts for nothing.
    let step = rt.coordinator.handle(
        Command::WorkerOutcome {
            id: job_id,
            lease_id: lost.lease_id,
            outcome: WorkerOutcome::Success,
        },
        rt.clock,
        0,
    );
    assert_eq!(step, Step::Stale);
}

#[test]
fn crash_lost_running_with_attempts_remaining_is_retried() {
    let config = wal_config("test", 10);
    let mut rt = Rt::start(&config, Vec::new()).unwrap();
    let job_id = rt.submit("test", spec(b"test").with_max_attempts(3));
    rt.run().unwrap();

    let mut rt = Rt::start(&config, rt.crash()).unwrap();
    // The retry is due at once.
    rt.advance(0);
    let done = rt.work_off();
    assert_eq!(done.len(), 1);
    assert_eq!(done[0].context.attempt, 2);
    // Leases go on from where they were.
    assert_eq!(done[0].lease_id, LeaseId::new(2));
    assert_eq!(rt.status(job_id).state, JobState::Completed);
}

#[test]
fn recovery_does_not_increment_attempts() {
    let config = wal_config("test", 10);
    let mut rt = Rt::start(&config, Vec::new()).unwrap();
    let job_id = rt.submit("test", spec(b"test").with_max_attempts(3));
    rt.work_off();
    assert_eq!(rt.status(job_id).attempts, 1); // Executed once.

    let mut log = rt.crash();
    // Restart multiple times - attempts should stay 1, not increase.
    for _ in 0..3 {
        let rt = Rt::start(&config, log).unwrap();
        assert_eq!(rt.status(job_id).attempts, 1);
        assert_eq!(rt.status(job_id).state, JobState::Completed);
        log = rt.crash();
    }
}

#[test]
fn sequence_continues_after_restart() {
    let config = wal_config("test", 10);
    let mut rt = Rt::start(&config, Vec::new()).unwrap();
    for i in 0..5 {
        rt.submit("test", JobSpec::new(format!("job{}", i).into_bytes()));
    }
    rt.work_off();
    let log = rt.crash();
    let before = scan_wal(&log).unwrap().last_sequence;
    assert_eq!(before, 15);

    let mut rt = Rt::start(&config, log).unwrap();
    for i in 5..10 {
        rt.submit("test", JobSpec::new(format!("job{}", i).into_bytes()));
    }
    assert_eq!(scan_wal(&rt.crash()).unwrap().last_sequence, before + 5);
}

#[test]
fn missing_queue_fails_startup() {
    let config = wal_config("test", 10);
    let mut rt = Rt::start(&config, Vec::new()).unwrap();
    rt.submit("test", spec(b"test"));
    let error = Rt::start(&wal_config("different", 10), rt.crash()).err();
    assert_eq!(
        error,
        Some(Error::Storage(WalError::RecoveryQueueNotFound(
            "test".to_string()
        )))
    );
}

#[test]
fn reduced_capacity_below_live_jobs_fails_startup() {
    let config = wal_config("test", 10);
    let mut rt = Rt::start(&config, Vec::new()).unwrap();
    for i in 0..5 {
        rt.submit("test", JobSpec::new(format!("job{}", i).into_bytes()));
    }
    rt.run().unwrap();
    let error = Rt::start(&wal_config("test", 2), rt.crash()).err();
    assert_eq!(
        error,
        Some(Error::Storage(WalError::RecoveryCapacityExceeded {
            queue: "test".to_string(),
            recovered: 5,
            capacity: 2
        }))
    );
}

#[test]
fn exact_capacity_restart_succeeds() {
    let config = wal_config("test", 10);
    let mut rt = Rt::start(&config, Vec::new()).unwrap();
    for i in 0..5 {
        rt.submit("test", JobSpec::new(format!("job{}", i).into_bytes()));
    }
    let rt = Rt::start(&wal_config("test", 5), rt.crash()).unwrap();
    assert_eq!(rt.stats().queued, 5);
}

#[test]
fn store_can_reopen_after_clean_shutdown() {
    let config = wal_config("test", 10);
    let rt = Rt::start(&config, Vec::new()).unwrap();
    let log = rt.crash();
    assert_eq!(log, WalHeader::new().encode().to_vec());
    let rt = Rt::start(&config, log.clone()).unwrap();
    assert_eq!(rt.crash(), log);
}

#[test]
fn truncated_wal_recovered() {
    let record = WalRecord::JobSubmitted {
        id: JobId::default(),
        queue: queue_name("test"),
        spec: spec(b"payload"),
        created_at: UnixMillis::default(),
    };
    let whole = log_of(&[record]);
    let mut log = whole.clone();
    // Append partial frame (truncated).
    log.extend_from_slice(&[50, 0, 0, 0, 1, 1, 0, 0]);
    let rt = Rt::start(&wal_config("test", 10), log).unwrap();
    assert_eq!(rt.stats().queued, 1);
    assert_eq!(rt.crash(), whole);
}

#[test]
fn writer_can_append_after_truncation_repair() {
    let config = wal_config("test", 10);
    let record = WalRecord::JobSubmitted {
        id: JobId::default(),
        queue: queue_name("test"),
        spec: spec(b"original"),
        created_at: UnixMillis::default(),
    };
    let original_id = record.job_id();
    let mut log = log_of(&[record]);
    log.extend_from_slice(&[50, 0, 0, 0]);

    let mut rt = Rt::start(&config, log).unwrap();
    let new_job_id = rt.submit("test", spec(b"new_job"));
    rt.work_off();

    let rt = Rt::start(&config, rt.crash()).unwrap();
    assert_eq!(rt.status(new_job_id).state, JobState::Completed);
    assert_eq!(rt.status(original_id).state, JobState::Completed);
}

#[test]
fn stats_reflect_recovered_state() {
    let config = wal_config("test", 10);
    let mut rt = Rt::start(&config, Vec::new()).unwrap();
    for i in 0..3 {
        rt.submit("test", JobSpec::new(format!("job{}", i).into_bytes()));
    }
    rt.work_off();
    let stats = rt.stats();
    assert_eq!(stats.submitted, 3);
    assert_eq!(stats.completed, 3);
    assert_eq!(stats.running, 0);

    let rt = Rt::start(&config, rt.crash()).unwrap();
    let stats = rt.stats();
    assert_eq!(stats.submitted, 3);
    assert_eq!(stats.completed, 3);
    assert_eq!(stats.running, 0);
}

#[test]
fn figures_of_queues_are_rebuilt() {
    let queues = ["a", "b"]
        .iter()
        .map(|name| QueueConfig::new(queue_name(name), 10))
        .collect();
    let config = RuntimeConfig::new(queues, 64).with_storage(StorageConfig::Wal {
        path: "data".into(),
    });
    let mut rt = Rt::start(&config, Vec::new()).unwrap();
    for name in ["a", "a", "b"] {
        rt.submit(name, spec(b"1"));
    }
    rt.work_off();
    let fatal = rt.submit("b", spec(b"2"));
    let leased = rt.run().unwrap();
    assert_eq!(leased.context.id, fatal);
    rt.report(&leased, WorkerOutcome::Fatal);
    let cancelled = rt.submit("a", spec(b"3"));
    rt.durably(Command::Cancel { id: cancelled }).unwrap();
    rt.submit("b", spec(b"4"));
    let leased = rt.run().unwrap();
    rt.report(&leased, WorkerOutcome::Retryable);
    rt.submit("b", spec(b"5"));

    let before = rt.stats();
    let rt = Rt::start(&config, rt.crash()).unwrap();
    let stats = rt.stats();
    assert_eq!(stats, before);
    assert_eq!(
        rt.of_queue("a"),
        QueueStats {
            submitted: 3,
            completed: 2,
            cancelled: 1,
            ..QueueStats::default()
        }
    );
    assert_eq!(
        rt.of_queue("b"),
        QueueStats {
            submitted: 4,
            queued: 1,
            retrying: 1,
            completed: 1,
            dead: 1,
            ..QueueStats::default()
        }
    );
    assert_eq!(
        (stats.submitted, stats.completed, stats.dead, stats.cancelled),
        (7, 3, 1, 1)
    );
}

#[test]
fn wal_rejects_oversized_payload() {
    let mut rt = Rt::start(&wal_config("q", 10), Vec::new()).unwrap();
    let result = rt.durably(Command::Submit {
        id: JobId::new(),
        queue: queue_name("q"),
        spec: JobSpec::new(vec![0u8; 2 * 1024 * 1024]),
    });
    assert!(matches!(result, Err(Error::PayloadTooLarge(_, _))));
    // The first length that is too large.
    let result = rt.durably(Command::Submit {
        id: JobId::new(),
        queue: queue_name("q"),
        spec: JobSpec::new(vec![0u8; 1024 * 1024 + 1]),
    });
    assert!(matches!(result, Err(Error::PayloadTooLarge(_, _))));
    // A payload that a job may carry, but no frame.
    let id = JobId::new();
    let result = rt.durably(Command::Submit {
        id,
        queue: queue_name("q"),
        spec: JobSpec::new(vec![0u8; 1024 * 1024]),
    });
    assert!(matches!(
        result,
        Err(Error::Storage(WalError::RecordTooLarge(_)))
    ));
    assert!(rt.coordinator.do_status(id).is_err());
}

#[test]
fn wal_visibility_timeout_triggers_retry() {
    let config = wal_config("q", 10)
        .with_retry(RetryConfig::new(20 * MILLISECOND, 50 * MILLISECOND))
        .with_visibility_timeout(100 * MILLISECOND);
    let mut rt = Rt::start(&config, Vec::new()).unwrap();
    let id = rt.submit("q", spec(b"test"));
    rt.run().unwrap();
    rt.advance(100 * MILLISECOND);
    assert_eq!(rt.status(id).state, JobState::RetryWaiting);
    rt.advance(20 * MILLISECOND);
    let again = rt.run().unwrap();
    assert_eq!(again.context.attempt, 2);
}

#[test]
fn a_failed_write_leaves_everything_as_it_was() {
    let mut rt = Rt::start(&wal_config("q", 10), Vec::new()).unwrap();
    let id = rt.submit("q", spec(b"test"));
    rt.writer.fail_next_append();
    let result = rt.durably(Command::Cancel { id });
    assert!(matches!(result, Err(Error::Storage(WalError::Io(_)))));
    assert_eq!(rt.status(id).state, JobState::Queued);
    assert_eq!(rt.stats().cancelled, 0);
}

#[test]
fn a_log_that_cannot_be_read_fails_startup() {
    let config = wal_config("q", 10);
    assert_eq!(
        Rt::start(&config, b"RDQUEUE\0\x09\x00".to_vec()).err(),
        Some(Error::Storage(WalError::UnsupportedWalVersion(9)))
    );
    let mut log = log_of(&[submitted(1, "q", 3)]);
    let last = log.len() - 1;
    log[last] ^= 1;
    assert!(matches!(
        Rt::start(&config, log).err(),
        Some(Error::Storage(WalError::ChecksumMismatch { .. }))
    ));
    let log = log_of(&[submitted(1, "q", 3), leased(1, u64::MAX, 1)]);
    assert_eq!(
        Rt::start(&config, log).err(),
        Some(Error::Storage(WalError::LeaseEpochExhausted))
    );
}

#[test]
fn a_job_submitted_again_is_ready_once() {
    let queues = ["q", "r"]
        .iter()
        .map(|name| QueueConfig::new(queue_name(name), 10))
        .collect();
    let config = RuntimeConfig::new(queues, 64).with_storage(StorageConfig::Wal {
        path: "data".into(),
    });
    let mut log = log_of(&[
        submitted(1, "q", 3),
        submitted(2, "q", 3),
        submitted(1, "q", 3),
        submitted(3, "q", 3),
        submitted(3, "r", 3),
    ]);
    let now = UnixMillis::from_millis(WALL);
    let state = recover(&mut log, &config, now).unwrap();
    let ids = |ids: &[u128]| -> Vec<JobId> { ids.iter().map(|id| JobId::from_uuid(*id)).collect() };
    assert_eq!(state.queued_in(&queue_name("q")), ids(&[1, 2, 1, 3]));
    assert_eq!(state.queued_in(&queue_name("r")), ids(&[3]));
    assert_eq!(state.submitted, 5);

    let mut rt = Rt::start(&config, log).unwrap();
    assert_eq!(rt.stats().submitted, 5);
    assert_eq!(rt.of_queue("q").queued, 2);
    assert_eq!(rt.of_queue("r").queued, 1);
    let order: Vec<JobId> = rt.work_off().iter().map(|job| job.context.id).collect();
    assert_eq!(order, ids(&[1, 3, 2]));
}

#[test]
fn recovery_settles_lost_jobs_in_the_log() {
    let config = wal_config("q", 10);
    let before = vec![
        submitted(1, "q", 3),
        submitted(2, "q", 1),
        submitted(3, "q", 3),
        leased(2, 5, 1),
        leased(1, 6, 1),
    ];
    let mut log = log_of(&before);
    let now = UnixMillis::from_millis(WALL);
    let state = recover(&mut log, &config, now).unwrap();
    assert_eq!(state.next_sequence, 8);
    assert_eq!(state.next_lease_epoch, 7);
    assert_eq!(state.submitted, 3);
    assert_eq!(state.retried, 1);
    assert_eq!(state.dead, 1);
    assert_eq!(
        state.retry_jobs,
        vec![(JobId::from_uuid(1), now)]
    );
    assert_eq!(
        state.queued_in(&queue_name("q")),
        vec![JobId::from_uuid(3)]
    );
    assert!(state.queued_in(&queue_name("r")).is_empty());

    let mut expected = before;
    expected.push(scheduled(1, 6, 1, WALL));
    expected.push(WalRecord::JobDead {
        id: JobId::from_uuid(2),
        lease_id: LeaseId::new(5),
        dead_at: now,
    });
    assert_eq!(scan_wal(&log).unwrap().records, expected);

    // A second recovery finds nothing to settle.
    let settled = log.clone();
    let again = recover(&mut log, &config, UnixMillis::from_millis(WALL + 5)).unwrap();
    assert_eq!(log, settled);
    assert_eq!(again.next_sequence, 8);
    assert_eq!(again.retry_jobs, vec![(JobId::from_uuid(1), now)]);
}

#[test]
fn queued_jobs_keep_their_order() {
    let config = wal_config("q", 10);
    let mut rt = Rt::start(&config, Vec::new()).unwrap();
    let ids: Vec<JobId> = (0..4u8).map(|i| rt.submit("q", spec(&[i]))).collect();
    rt.durably(Command::Cancel { id: ids[1] }).unwrap();
    let mut rt = Rt::start(&config, rt.crash()).unwrap();
    let order: Vec<JobId> = rt.work_off().iter().map(|l| l.context.id).collect();
    assert_eq!(order, vec![ids[0], ids[2], ids[3]]);
}

#[test]
fn records_about_unknown_jobs_are_passed_over() {
    let config = wal_config("q", 10);
    let mut log = log_of(&[leased(9, 3, 1), cancelled(8), submitted(1, "q", 3)]);
    let state = recover(&mut log, &config, UnixMillis::from_millis(WALL)).unwrap();
    assert_eq!(state.store.len(), 1);
    assert_eq!(state.next_lease_epoch, 4);
    assert_eq!(state.cancelled, 1);
}

#[test]
fn counting_records() {
    let records = vec![
        submitted(1, "q", 3),
        submitted(2, "q", 3),
        leased(1, 1, 1),
        scheduled(1, 1, 1, 5),
        leased(1, 2, 2),
        WalRecord::JobCompleted {
            id: JobId::from_uuid(1),
            lease_id: LeaseId::new(2),
            completed_at: UnixMillis::from_millis(9),
        },
        cancelled(2),
    ];
    assert_eq!(
        count_records(&records),
        RecordCounts {
            submitted: 2,
            leased: 2,
            retry_scheduled: 1,
            completed: 1,
            dead: 0,
            cancelled: 1,
        }
    );
}

#[test]
fn rebuilding_without_files() {
    let scan = scan_wal(&log_of(&[submitted(1, "q", 3), leased(1, 4, 1)])).unwrap();
    let (state, appended) = rebuild(scan, UnixMillis::from_millis(WALL)).unwrap();
    let (frame, size) = WalFrame::decode(&appended).unwrap();
    assert_eq!(size, appended.len());
    assert_eq!(frame.sequence, 3);
    assert_eq!(frame.record, scheduled(1, 4, 1, WALL));
    assert_eq!(state.next_sequence, 4);
    assert_eq!(
        validate_recovered_state(
            &state.store,
            &state.queued_jobs,
            &state.retry_jobs,
            &wal_config("q", 1)
        ),
        Ok(())
    );
    // The last capacity of a name counts.
    let config = RuntimeConfig::new(
        vec![
            QueueConfig::new(queue_name("q"), 9),
            QueueConfig::new(queue_name("q"), 0),
        ],
        1,
    );
    assert_eq!(
        validate_recovered_state(&state.store, &state.queued_jobs, &state.retry_jobs, &config),
        Err(WalError::RecoveryCapacityExceeded {
            queue: "q".to_string(),
            recovered: 1,
            capacity: 0
        })
    );
    assert_eq!(
        validate_recovered_state(
            &state.store,
            &state.queued_jobs,
            &state.retry_jobs,
            &wal_config("r", 1)
        ),
        Err(WalError::RecoveryQueueNotFound("q".to_string()))
    );
}

#[test]
fn live_jobs_and_their_log_agree() {
    let config =
        wal_config("q", 10).with_retry(RetryConfig::new(20 * MILLISECOND, 50 * MILLISECOND));
    let mut rt = Rt::start(&config, Vec::new()).unwrap();
    let ids: Vec<JobId> = (0..6u8).map(|i| rt.submit("q", spec(&[i]))).collect();
    for outcome in [
        WorkerOutcome::Success,
        WorkerOutcome::Fatal,
        WorkerOutcome::Panic,
    ] {
        let leased = rt.run().unwrap();
        rt.report(&leased, outcome);
    }
    rt.run().unwrap();
    rt.durably(Command::Cancel { id: ids[4] }).unwrap();
    let live: Vec<JobRecord> = ids.iter().map(|id| rt.status(*id)).collect();
    let restarted = Rt::start(&config, rt.crash()).unwrap();
    for job in live {
        let again = restarted.status(job.id);
        let expected = match job.state {
            JobState::Running => JobState::RetryWaiting,
            other => other,
        };
        assert_eq!(again.state, expected);
        assert_eq!(again.attempts, job.attempts);
        assert_eq!(again.spec, job.spec);
        assert_eq!(again.created_at, job.created_at);
    }
}

#[test]
fn an_interrupted_recovery_is_made_up_for() {
    let config = wal_config("q", 10);
    let mut records = vec![leased(9, 1, 1)];
    for id in 1..=5u128 {
        records.push(submitted(id, "q", if id % 2 == 0 { 1 } else { 3 }));
    }
    for id in 1..=4u128 {
        records.push(leased(id, id as u64 + 1, 1));
    }
    let mut found = log_of(&records);
    let clean = found.len();
    // An unfinished frame of the first crash.
    found.extend_from_slice(&[50, 0, 0, 0, 1]);
    let mut whole = found.clone();
    let first = recover(&mut whole, &config, UnixMillis::from_millis(WALL)).unwrap();
    assert_eq!((first.retried, first.dead), (2, 2));
    assert!(whole.len() > clean);
    for kept in clean..=whole.len() {
        let mut log = whole[..kept].to_vec();
        let later = UnixMillis::from_millis(WALL + 1_000);
        let again = recover(&mut log, &config, later).unwrap();
        assert_eq!(again.next_sequence, first.next_sequence);
        assert_eq!(again.next_lease_epoch, first.next_lease_epoch);
        assert_eq!((again.retried, again.dead), (2, 2));
        for id in 1..=5u128 {
            let id = JobId::from_uuid(id);
            assert_eq!(again.store.get(id), first.store.get(id));
        }
    }
}

#[test]
fn attempts_stay_bounded_across_retries_and_restarts() {
    let config = wal_config("q", 10).with_retry(RetryConfig::new(MILLISECOND, MILLISECOND));
    let mut rt = Rt::start(&config, Vec::new()).unwrap();
    let id = rt.submit("q", spec(b"x").with_max_attempts(3));
    let mut runs = 0;
    for round in 0..10 {
        rt.advance(SECOND);
        if let Some(leased) = rt.run() {
            runs += 1;
            assert_eq!(leased.context.attempt, runs);
            if round % 2 == 0 {
                rt.report(&leased, WorkerOutcome::Retryable);
            } else {
                // The worker is lost with the process.
                rt = Rt::start(&config, rt.crash()).unwrap();
            }
        }
    }
    assert_eq!(runs, 3);
    assert_eq!(rt.status(id).state, JobState::Dead);
}
