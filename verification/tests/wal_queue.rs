use rust_durable_queue::admission::{judge_try_submit, Place};
use rust_durable_queue::config::SECOND;
use rust_durable_queue::coordinator::model::MILLISECOND;
use rust_durable_queue::wal::{scan_wal, TestableWalWriter, WalRecord};
use rust_durable_queue::{
    Clock, Command, Coordinator, Error, Execution, JobError, JobId, JobRecord, JobSpec, JobState,
    LeasedJob, QueueConfig, QueueName, RetryConfig, RuntimeConfig, Step, StorageConfig, UnixMillis,
    WorkerOutcome,
};

fn queue_name(s: &str) -> QueueName {
    QueueName::new(s).unwrap()
}

fn wal_config(name: &str, capacity: usize) -> RuntimeConfig {
    RuntimeConfig::new(vec![QueueConfig::new(queue_name(name), capacity)], 64).with_storage(
        StorageConfig::Wal {
            path: "data".into(),
        },
    )
}

fn spec(payload: &[u8]) -> JobSpec {
    JobSpec::new(payload.to_vec())
}

fn succeed(_: &LeasedJob) -> WorkerOutcome {
    Execution::Returned(Ok(())).outcome()
}

fn fail(_: &LeasedJob) -> WorkerOutcome {
    Execution::Returned(Err(JobError::retryable("temp".to_string()))).outcome()
}

fn succeed_at_last(leased: &LeasedJob) -> WorkerOutcome {
    if leased.context.attempt < leased.context.max_attempts {
        fail(leased)
    } else {
        succeed(leased)
    }
}

/// A durable queue with one worker. `free` counts the places that are left.
struct Rt {
    coordinator: Coordinator,
    writer: TestableWalWriter,
    clock: Clock,
    handler: fn(&LeasedJob) -> WorkerOutcome,
    free: usize,
    runs: Vec<u32>,
}

impl Rt {
    fn start(
        config: RuntimeConfig,
        mut log: Vec<u8>,
        handler: fn(&LeasedJob) -> WorkerOutcome,
    ) -> Rt {
        let clock = Clock {
            now: 7 * SECOND,
            wall: UnixMillis::from_millis(1_700_000_000_000),
        };
        let coordinator = Coordinator::start(&config, &mut log, clock).unwrap();
        Rt {
            coordinator,
            writer: TestableWalWriter::open(log).unwrap(),
            clock,
            handler,
            free: config.queues[0].capacity,
            runs: Vec::new(),
        }
    }

    fn log(&self) -> Vec<u8> {
        self.writer.contents().clone()
    }

    fn records(&self) -> Vec<WalRecord> {
        let scan = scan_wal(&self.log()).unwrap();
        assert!(!scan.had_truncated_tail);
        scan.records
    }

    fn durably(&mut self, command: Command) -> Result<JobRecord, Error> {
        match self.coordinator.handle(command, self.clock, u32::MAX) {
            Step::Persist(record) => self.persist_and_apply(record),
            Step::Refuse(error) => Err(error),
            other => panic!("unexpected: {:?}", other),
        }
    }

    fn persist_and_apply(&mut self, record: WalRecord) -> Result<JobRecord, Error> {
        self.writer.append(record.clone()).map_err(Error::Storage)?;
        let applied = self.coordinator.apply(&record, self.clock);
        if applied.released {
            self.free += 1;
        }
        Ok(applied.job)
    }

    fn try_submit(&mut self, name: &str, spec: JobSpec) -> Result<JobRecord, Error> {
        let queue = queue_name(name);
        let place = if self.free == 0 {
            Place::Full
        } else {
            Place::Granted
        };
        judge_try_submit(place, &queue)?;
        self.free -= 1;
        let id = JobId::new();
        let outcome = self.durably(Command::Submit { id, queue, spec });
        if outcome.is_err() {
            self.free += 1;
        }
        outcome
    }

    /// The worker takes every job that is ready.
    fn work(&mut self) {
        loop {
            self.coordinator
                .handle(Command::FetchWork { worker: 1 }, self.clock, 0);
            let Some((_, record)) = self.coordinator.do_fetch_work(self.clock.wall).unwrap()
            else {
                return;
            };
            self.writer.append(record.clone()).unwrap();
            let leased = self.coordinator.lease(&record, self.clock);
            // The lease is in the log before the handler runs.
            assert_eq!(self.records().last(), Some(&record));
            self.runs.push(leased.context.attempt);
            let outcome = (self.handler)(&leased);
            self.durably(Command::WorkerOutcome {
                id: leased.context.id,
                lease_id: leased.lease_id,
                outcome,
            })
            .unwrap();
        }
    }

    /// Lets time pass a millisecond at a time.
    fn sleep(&mut self, millis: u128) {
        self.work();
        for _ in 0..millis {
            self.clock.now += MILLISECOND;
            self.clock.wall = UnixMillis::from_millis(self.clock.wall.as_millis() + 1);
            self.coordinator.process_due_retries(self.clock.now);
            self.work();
        }
    }

    fn state(&self, id: JobId) -> JobState {
        self.coordinator.do_status(id).unwrap().state
    }
}

#[test]
fn wal_submit_creates_job() {
    let mut rt = Rt::start(wal_config("q", 10), Vec::new(), succeed);
    let job = rt.try_submit("q", spec(b"test")).unwrap();
    assert_eq!(job.state, JobState::Queued);
    assert_eq!(rt.records().len(), 1);
}

#[test]
fn wal_submit_visible_after_persist() {
    let mut rt = Rt::start(wal_config("q", 10), Vec::new(), succeed);
    rt.try_submit("q", spec(b"test")).unwrap();
    rt.sleep(100);
    assert_eq!(rt.runs.len(), 1);
}

#[test]
fn wal_multiple_submits_work() {
    let mut rt = Rt::start(wal_config("q", 10), Vec::new(), succeed);
    for _ in 0..5 {
        rt.try_submit("q", spec(b"test")).unwrap();
    }
    rt.sleep(500);
    assert_eq!(rt.runs.len(), 5);
}

#[test]
fn wal_lease_before_handler() {
    let mut rt = Rt::start(wal_config("q", 10), Vec::new(), succeed);
    rt.try_submit("q", spec(b"test")).unwrap();
    rt.sleep(100);
    assert_eq!(rt.runs, vec![1]);
}

#[test]
fn wal_retries_increment_attempt() {
    let retry = RetryConfig::new(50 * MILLISECOND, SECOND);
    let config = wal_config("q", 10).with_retry(retry);
    let mut rt = Rt::start(config, Vec::new(), succeed_at_last);
    rt.try_submit("q", spec(b"test").with_max_attempts(3))
        .unwrap();
    rt.sleep(500);
    assert_eq!(rt.runs, vec![1, 2, 3]);
}

#[test]
fn wal_completion_transitions_state() {
    let mut rt = Rt::start(wal_config("q", 10), Vec::new(), succeed);
    let job = rt.try_submit("q", spec(b"test")).unwrap();
    rt.sleep(100);
    assert_eq!(rt.state(job.id), JobState::Completed);
}

#[test]
fn wal_completion_releases_capacity() {
    let mut rt = Rt::start(wal_config("q", 1), Vec::new(), succeed);
    rt.try_submit("q", spec(b"1")).unwrap();
    assert!(matches!(
        rt.try_submit("q", spec(b"2")),
        Err(Error::QueueFull(_))
    ));
    rt.sleep(100);
    rt.try_submit("q", spec(b"2")).unwrap();
}

#[test]
fn wal_dead_releases_capacity() {
    let handler = |_: &LeasedJob| {
        Execution::Returned(Err(JobError::fatal("fatal".to_string()))).outcome()
    };
    let mut rt = Rt::start(wal_config("q", 1), Vec::new(), handler);
    rt.try_submit("q", spec(b"1")).unwrap();
    rt.sleep(100);
    rt.try_submit("q", spec(b"2")).unwrap();
}

#[test]
fn wal_retry_transitions_to_waiting() {
    let config = wal_config("q", 10).with_retry(RetryConfig::new(10 * SECOND, 60 * SECOND));
    let mut rt = Rt::start(config, Vec::new(), fail);
    let job = rt
        .try_submit("q", spec(b"test").with_max_attempts(3))
        .unwrap();
    rt.sleep(100);
    assert_eq!(rt.state(job.id), JobState::RetryWaiting);
}

#[test]
fn wal_retry_occurs_after_delay() {
    let retry = RetryConfig::new(50 * MILLISECOND, 100 * MILLISECOND);
    let config = wal_config("q", 10).with_retry(retry);
    let mut rt = Rt::start(config, Vec::new(), succeed_at_last);
    rt.try_submit("q", spec(b"test").with_max_attempts(2))
        .unwrap();
    // The retry is due after fifty milliseconds and not before.
    rt.sleep(49);
    assert_eq!(rt.runs.len(), 1);
    rt.sleep(150);
    assert_eq!(rt.runs.len(), 2);
}

#[test]
fn wal_cancel_transitions_state() {
    let config = wal_config("q", 10).with_retry(RetryConfig::new(60 * SECOND, 120 * SECOND));
    let mut rt = Rt::start(config, Vec::new(), fail);
    let job = rt
        .try_submit("q", spec(b"test").with_max_attempts(3))
        .unwrap();
    rt.sleep(100);
    assert_eq!(rt.state(job.id), JobState::RetryWaiting);
    let cancelled = rt.durably(Command::Cancel { id: job.id }).unwrap();
    assert_eq!(cancelled.state, JobState::Cancelled);
}

#[test]
fn wal_cancel_releases_capacity() {
    let config = wal_config("q", 1).with_retry(RetryConfig::new(60 * SECOND, 120 * SECOND));
    let mut rt = Rt::start(config, Vec::new(), fail);
    let job = rt.try_submit("q", spec(b"1").with_max_attempts(3)).unwrap();
    rt.sleep(100);
    rt.durably(Command::Cancel { id: job.id }).unwrap();
    rt.try_submit("q", spec(b"2")).unwrap();
}

#[test]
fn wal_exhausted_retries_becomes_dead() {
    let retry = RetryConfig::new(20 * MILLISECOND, 50 * MILLISECOND);
    let config = wal_config("q", 10).with_retry(retry);
    let mut rt = Rt::start(config, Vec::new(), fail);
    let job = rt
        .try_submit("q", spec(b"test").with_max_attempts(2))
        .unwrap();
    rt.sleep(300);
    assert_eq!(rt.state(job.id), JobState::Dead);
    assert_eq!(rt.runs, vec![1, 2]);
}

#[test]
fn memory_mode_still_works() {
    let config = RuntimeConfig::new(vec![QueueConfig::new(queue_name("q"), 10)], 64)
        .with_worker_concurrency(1);
    assert!(matches!(config.storage, StorageConfig::Memory));
    let clock = Clock {
        now: 7 * SECOND,
        wall: UnixMillis::from_millis(1_700_000_000_000),
    };
    let mut log = Vec::new();
    let mut coordinator = Coordinator::start(&config, &mut log, clock).unwrap();
    let submit = Command::Submit {
        id: JobId::new(),
        queue: queue_name("q"),
        spec: spec(b"test"),
    };
    let Step::Persist(record) = coordinator.handle(submit, clock, 0) else {
        panic!("a job is accepted");
    };
    let job = coordinator.apply(&record, clock).job;
    coordinator.handle(Command::FetchWork { worker: 1 }, clock, 0);
    let (_, record) = coordinator.do_fetch_work(clock.wall).unwrap().unwrap();
    let leased = coordinator.lease(&record, clock);
    let report = Command::WorkerOutcome {
        id: job.id,
        lease_id: leased.lease_id,
        outcome: succeed(&leased),
    };
    let Step::Persist(record) = coordinator.handle(report, clock, 0) else {
        panic!("the report is of the current lease");
    };
    coordinator.apply(&record, clock);
    assert_eq!(
        coordinator.do_status(job.id).unwrap().state,
        JobState::Completed
    );
    assert!(log.is_empty());
}

#[test]
fn wal_sequence_increments() {
    let mut rt = Rt::start(wal_config("q", 10), Vec::new(), succeed);
    for _ in 0..3 {
        rt.try_submit("q", spec(b"test")).unwrap();
    }
    rt.sleep(200);
    assert!(rt.log().len() > 100);
    let scan = scan_wal(&rt.log()).unwrap();
    assert_eq!((scan.records.len(), scan.last_sequence), (9, 9));
}

#[test]
fn wal_reopen_continues_sequence() {
    let mut first = Rt::start(wal_config("q", 10), Vec::new(), succeed);
    for _ in 0..3 {
        first.try_submit("q", spec(b"data")).unwrap();
    }
    first.sleep(200);
    let size_after_first = first.log().len();

    let mut second = Rt::start(wal_config("q", 10), first.log(), succeed);
    second.try_submit("q", spec(b"more")).unwrap();
    second.sleep(100);
    assert!(second.log().len() > size_after_first);
    let scan = scan_wal(&second.log()).unwrap();
    assert_eq!(scan.last_sequence, 12);
}
