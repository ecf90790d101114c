use rust_durable_queue::admission::{judge_submit, judge_try_submit, Place};
use rust_durable_queue::config::SECOND;
use rust_durable_queue::coordinator::model::MILLISECOND;
use rust_durable_queue::coordinator::state::{monotonic, wall_after};
use rust_durable_queue::{
    Applied, Clock, Command, Coordinator, Error, Execution, JobError, JobId, JobRecord, JobSpec,
    JobState, LeaseId, LeasedJob, QueueConfig, QueueName, QueueStats, RetryConfig, RuntimeConfig,
    StatsSnapshot, Step, UnixMillis, WorkerOutcome,
};
use std::collections::HashMap;

fn queue_name(s: &str) -> QueueName {
    QueueName::new(s).unwrap()
}

fn config_single(name: &str, capacity: usize) -> RuntimeConfig {
    RuntimeConfig::new(vec![QueueConfig::new(queue_name(name), capacity)], 64)
}

fn spec(payload: &[u8]) -> JobSpec {
    JobSpec::new(payload.to_vec())
}

/// A queue in memory, with a clock that is moved by hand. `free` counts the
/// places that are left in each queue.
struct Rt {
    coordinator: Coordinator,
    free: HashMap<String, usize>,
    closed: bool,
    clock: Clock,
    sample: u32,
}

impl Rt {
    fn start(config: RuntimeConfig) -> Result<Rt, Error> {
        let clock = Clock {
            now: 1_000 * SECOND,
            wall: UnixMillis::from_millis(1_700_000_000_000),
        };
        let free = config
            .queues
            .iter()
            .map(|q| (q.name.as_str().to_string(), q.capacity))
            .collect();
        let coordinator = Coordinator::start(&config, &mut Vec::new(), clock)?;
        Ok(Rt {
            coordinator,
            free,
            closed: false,
            clock,
            sample: u32::MAX,
        })
    }

    fn place(&mut self, queue: &QueueName) -> Place {
        match self.free.get_mut(queue.as_str()) {
            None => Place::Unknown,
            Some(_) if self.closed => Place::Closed,
            Some(0) => Place::Full,
            Some(left) => {
                *left -= 1;
                Place::Granted
            }
        }
    }

    fn handle(&mut self, command: Command) -> Step {
        self.coordinator.handle(command, self.clock, self.sample)
    }

    fn apply(&mut self, record: rust_durable_queue::wal::WalRecord) -> Applied {
        let applied = self.coordinator.apply(&record, self.clock);
        if applied.released {
            *self.free.get_mut(applied.job.queue.as_str()).unwrap() += 1;
        }
        applied
    }

    fn durably(&mut self, command: Command) -> Result<JobRecord, Error> {
        match self.handle(command) {
            Step::Persist(record) => Ok(self.apply(record).job),
            Step::Refuse(error) => Err(error),
            other => panic!("unexpected: {:?}", other),
        }
    }

    fn accepted(&mut self, queue: QueueName, spec: JobSpec) -> Result<JobRecord, Error> {
        let id = JobId::new();
        let name = queue.as_str().to_string();
        let outcome = self.durably(Command::Submit { id, queue, spec });
        if outcome.is_err() {
            *self.free.get_mut(&name).unwrap() += 1;
        }
        outcome
    }

    fn try_submit(&mut self, name: &str, spec: JobSpec) -> Result<JobRecord, Error> {
        let queue = queue_name(name);
        let place = self.place(&queue);
        judge_try_submit(place, &queue)?;
        self.accepted(queue, spec)
    }

    /// `None` where the submitter has to wait.
    fn submit(&mut self, name: &str, spec: JobSpec) -> Result<Option<JobRecord>, Error> {
        let queue = queue_name(name);
        let place = self.place(&queue);
        if judge_submit(place, &queue)? {
            self.accepted(queue, spec).map(Some)
        } else {
            Ok(None)
        }
    }

    fn must_submit(&mut self, name: &str, spec: JobSpec) -> JobId {
        self.submit(name, spec).unwrap().unwrap().id
    }

    fn status(&mut self, id: JobId) -> Result<JobRecord, Error> {
        match self.handle(Command::Status { id }) {
            Step::Job(job) => Ok(job),
            Step::Refuse(error) => Err(error),
            other => panic!("unexpected: {:?}", other),
        }
    }

    fn state(&mut self, id: JobId) -> JobState {
        self.status(id).unwrap().state
    }

    fn cancel(&mut self, id: JobId) -> Result<JobRecord, Error> {
        self.durably(Command::Cancel { id })
    }

    fn stats(&mut self) -> StatsSnapshot {
        match self.handle(Command::Stats) {
            Step::Figures(figures) => figures,
            other => panic!("unexpected: {:?}", other),
        }
    }

    fn of_queue(&mut self, name: &str) -> QueueStats {
        let stats = self.stats();
        stats.per_queue.iter().find(|q| q.0 == name).unwrap().1
    }

    /// Lets time pass and does what happens by itself.
    fn advance(&mut self, span: u128) {
        self.clock.now += span;
        self.clock.wall = UnixMillis::from_millis(
            self.clock.wall.as_millis() + (span / MILLISECOND) as i64,
        );
        while let Some(record) = self.coordinator.check_lease_timeouts(self.clock, self.sample) {
            self.apply(record);
        }
        self.coordinator.process_due_retries(self.clock.now);
    }

    fn park(&mut self, worker: u64) {
        assert_eq!(self.handle(Command::FetchWork { worker }), Step::Park);
    }

    fn dispatch(&mut self) -> Option<(u64, LeasedJob)> {
        let (worker, record) = self.coordinator.do_fetch_work(self.clock.wall).unwrap()?;
        let leased = self.coordinator.lease(&record, self.clock);
        Some((worker, leased))
    }

    /// A worker asks for a job and gets one.
    fn run(&mut self) -> LeasedJob {
        self.park(1);
        self.dispatch().unwrap().1
    }

    /// `false` where the report is stale.
    fn report(&mut self, id: JobId, lease_id: LeaseId, outcome: WorkerOutcome) -> bool {
        match self.handle(Command::WorkerOutcome {
            id,
            lease_id,
            outcome,
        }) {
            Step::Persist(record) => {
                self.apply(record);
                true
            }
            Step::Stale => false,
            other => panic!("unexpected: {:?}", other),
        }
    }

    fn run_and_report(&mut self, outcome: WorkerOutcome) -> LeasedJob {
        let leased = self.run();
        assert!(self.report(leased.context.id, leased.lease_id, outcome));
        leased
    }
}

#[test]
fn submit_creates_queued_job() {
    let mut rt = Rt::start(config_single("q", 10)).unwrap();
    let record = rt.submit("q", spec(b"payload")).unwrap().unwrap();
    assert_eq!(record.state, JobState::Queued);
    assert_eq!(record.attempts, 0);
    assert_eq!(record.created_at, rt.clock.wall);
}

#[test]
fn status_returns_submitted_job() {
    let mut rt = Rt::start(config_single("q", 10)).unwrap();
    let record = rt.submit("q", spec(b"data")).unwrap().unwrap();
    let status = rt.status(record.id).unwrap();
    assert_eq!(status.id, record.id);
    assert_eq!(status.state, JobState::Queued);
    assert_eq!(status, record);
}

#[test]
fn multiple_queues_independent() {
    let config = RuntimeConfig::new(
        vec![
            QueueConfig::new(queue_name("a"), 5),
            QueueConfig::new(queue_name("b"), 5),
        ],
        64,
    );
    let mut rt = Rt::start(config).unwrap();

    let job_a = rt.submit("a", spec(b"a")).unwrap().unwrap();
    let job_b = rt.submit("b", spec(b"b")).unwrap().unwrap();

    assert_eq!(job_a.queue.as_str(), "a");
    assert_eq!(job_b.queue.as_str(), "b");

    assert_eq!(rt.of_queue("a").queued, 1);
    assert_eq!(rt.of_queue("b").queued, 1);
}

#[test]
fn unknown_queue_fails() {
    let mut rt = Rt::start(config_single("exists", 10)).unwrap();
    let result = rt.try_submit("unknown", spec(b"x"));
    assert_eq!(result, Err(Error::QueueNotFound("unknown".to_string())));
    // The coordinator itself knows as well.
    assert_eq!(
        rt.durably(Command::Submit {
            id: JobId::new(),
            queue: queue_name("unknown"),
            spec: spec(b"x"),
        }),
        Err(Error::QueueNotFound("unknown".to_string()))
    );
}

#[test]
fn try_submit_returns_queue_full() {
    let mut rt = Rt::start(config_single("q", 2)).unwrap();
    rt.try_submit("q", spec(b"1")).unwrap();
    rt.try_submit("q", spec(b"2")).unwrap();
    let result = rt.try_submit("q", spec(b"3"));
    assert_eq!(result, Err(Error::QueueFull("q".to_string())));
}

#[test]
fn submit_blocks_until_capacity_released() {
    let mut rt = Rt::start(config_single("q", 1)).unwrap();
    let job1 = rt.must_submit("q", spec(b"1"));
    assert_eq!(rt.submit("q", spec(b"2")), Ok(None));
    // Release capacity via cancel.
    rt.cancel(job1).unwrap();
    assert!(rt.submit("q", spec(b"2")).unwrap().is_some());
}

#[test]
fn queued_job_cancellation() {
    let mut rt = Rt::start(config_single("q", 10)).unwrap();
    let job = rt.must_submit("q", spec(b"x"));
    let cancelled = rt.cancel(job).unwrap();
    assert_eq!(cancelled.state, JobState::Cancelled);
    assert_eq!(rt.of_queue("q").queued, 0);
    // It is not run any more.
    rt.park(1);
    assert!(rt.dispatch().is_none());
}

#[test]
fn cancellation_releases_capacity() {
    let mut rt = Rt::start(config_single("q", 1)).unwrap();
    let job = rt.try_submit("q", spec(b"1")).unwrap();
    // Queue is full.
    assert!(rt.try_submit("q", spec(b"2")).is_err());
    rt.cancel(job.id).unwrap();
    // Now we can submit again.
    rt.try_submit("q", spec(b"3")).unwrap();
}

#[test]
fn repeated_cancellation_fails() {
    let mut rt = Rt::start(config_single("q", 10)).unwrap();
    let job = rt.must_submit("q", spec(b"x"));
    rt.cancel(job).unwrap();
    let result = rt.cancel(job);
    assert!(matches!(result, Err(Error::InvalidTransition { .. })));
}

#[test]
fn capacity_never_exceeded() {
    let mut rt = Rt::start(config_single("q", 3)).unwrap();
    for i in 0..3 {
        rt.try_submit("q", JobSpec::new(format!("{}", i).into_bytes()))
            .unwrap();
    }
    // All subsequent attempts should fail.
    for _ in 0..5 {
        let result = rt.try_submit("q", spec(b"overflow"));
        assert!(matches!(result, Err(Error::QueueFull(_))));
    }
    assert_eq!(rt.of_queue("q").queued, 3);
}

#[test]
fn legal_transition_queued_to_cancelled() {
    let mut rt = Rt::start(config_single("q", 10)).unwrap();
    let job = rt.submit("q", spec(b"x")).unwrap().unwrap();
    assert_eq!(job.state, JobState::Queued);
    let cancelled = rt.cancel(job.id).unwrap();
    assert_eq!(cancelled.state, JobState::Cancelled);
}

#[test]
fn illegal_transition_cancelled_to_cancelled() {
    let mut rt = Rt::start(config_single("q", 10)).unwrap();
    let job = rt.must_submit("q", spec(b"x"));
    rt.cancel(job).unwrap();
    assert_eq!(
        rt.cancel(job),
        Err(Error::InvalidTransition {
            from: JobState::Cancelled,
            to: JobState::Cancelled
        })
    );
}

#[test]
fn status_job_not_found() {
    let mut rt = Rt::start(config_single("q", 10)).unwrap();
    let fake_id = JobId::from_uuid(0x0123456789abcdef0123456789abcdef);
    assert_eq!(
        rt.status(fake_id),
        Err(Error::JobNotFound(
            "01234567-89ab-cdef-0123-456789abcdef".to_string()
        ))
    );
    assert!(matches!(rt.cancel(fake_id), Err(Error::JobNotFound(_))));
}

#[test]
fn stats_reflect_submissions() {
    let mut rt = Rt::start(config_single("q", 10)).unwrap();
    for _ in 0..5 {
        rt.must_submit("q", spec(b"x"));
    }
    let stats = rt.stats();
    assert_eq!(stats.submitted, 5);
    assert_eq!(stats.queued, 5);
}

#[test]
fn stats_reflect_cancellations() {
    let mut rt = Rt::start(config_single("q", 10)).unwrap();
    let job = rt.must_submit("q", spec(b"x"));
    rt.cancel(job).unwrap();
    let stats = rt.stats();
    assert_eq!(stats.submitted, 1);
    assert_eq!(stats.cancelled, 1);
    assert_eq!(stats.queued, 0);
}

#[test]
fn cancel_releases_exactly_one_permit() {
    let mut rt = Rt::start(config_single("q", 2)).unwrap();
    let job = rt.try_submit("q", spec(b"1")).unwrap();
    rt.try_submit("q", spec(b"2")).unwrap();
    // Queue full.
    assert!(matches!(
        rt.try_submit("q", spec(b"3")),
        Err(Error::QueueFull(_))
    ));
    rt.cancel(job.id).unwrap();
    // Exactly one slot freed.
    rt.try_submit("q", spec(b"4")).unwrap();
    assert!(matches!(
        rt.try_submit("q", spec(b"5")),
        Err(Error::QueueFull(_))
    ));
}

#[test]
fn repeated_cancel_does_not_release_extra_permits() {
    let mut rt = Rt::start(config_single("q", 1)).unwrap();
    let job = rt.try_submit("q", spec(b"1")).unwrap();
    rt.cancel(job.id).unwrap();
    for _ in 0..3 {
        assert!(rt.cancel(job.id).is_err());
    }
    rt.try_submit("q", spec(b"2")).unwrap();
    assert!(matches!(
        rt.try_submit("q", spec(b"3")),
        Err(Error::QueueFull(_))
    ));
}

#[test]
fn shutdown_wakes_blocked_submitters() {
    let mut rt = Rt::start(config_single("q", 1)).unwrap();
    rt.must_submit("q", spec(b"1"));
    assert_eq!(rt.submit("q", spec(b"2")), Ok(None));
    rt.closed = true;
    assert_eq!(rt.submit("q", spec(b"2")), Err(Error::ShuttingDown));
    assert!(matches!(
        rt.try_submit("q", spec(b"2")),
        Err(Error::QueueFull(_))
    ));
}

#[test]
fn worker_executes_queued_job() {
    let mut rt = Rt::start(config_single("q", 10)).unwrap();
    let id = rt.must_submit("q", spec(b"test"));
    let leased = rt.run();
    assert_eq!(leased.context.id, id);
    assert_eq!(leased.context.queue.as_str(), "q");
    assert_eq!(leased.context.payload, b"test".to_vec());
    assert_eq!(leased.context.attempt, 1);
    assert_eq!(leased.context.max_attempts, 3);
    assert_eq!(leased.lease_id, LeaseId::new(1));
    assert_eq!(rt.state(id), JobState::Running);
    let stats = rt.stats();
    assert_eq!(stats.running, 1);
    assert_eq!(stats.queued, 0);
}

#[test]
fn worker_concurrency_not_exceeded() {
    let mut rt = Rt::start(config_single("q", 10)).unwrap();
    for _ in 0..5 {
        rt.must_submit("q", spec(b"test"));
    }
    rt.park(1);
    rt.park(2);
    assert!(rt.dispatch().is_some());
    assert!(rt.dispatch().is_some());
    // Two workers, two jobs, though three more are ready.
    assert!(rt.dispatch().is_none());
    assert_eq!(rt.stats().running, 2);
    assert_eq!(rt.stats().queued, 3);
}

#[test]
fn parked_workers_are_served_in_turn() {
    let mut rt = Rt::start(config_single("q", 10)).unwrap();
    rt.park(7);
    rt.park(8);
    assert!(rt.dispatch().is_none());
    let first = rt.must_submit("q", spec(b"1"));
    let (worker, leased) = rt.dispatch().unwrap();
    assert_eq!((worker, leased.context.id), (7, first));
    assert!(rt.dispatch().is_none());
    let second = rt.must_submit("q", spec(b"2"));
    let (worker, leased) = rt.dispatch().unwrap();
    assert_eq!((worker, leased.context.id), (8, second));
}

#[test]
fn successful_job_becomes_completed() {
    let mut rt = Rt::start(config_single("q", 10)).unwrap();
    let id = rt.must_submit("q", spec(b"test"));
    rt.run_and_report(WorkerOutcome::Success);
    assert_eq!(rt.state(id), JobState::Completed);
    let stats = rt.stats();
    assert_eq!(stats.completed, 1);
    assert_eq!(stats.running, 0);
    assert_eq!(rt.of_queue("q").completed, 1);
}

#[test]
fn successful_job_releases_capacity() {
    let mut rt = Rt::start(config_single("q", 1)).unwrap();
    rt.must_submit("q", spec(b"1"));
    rt.run_and_report(WorkerOutcome::Success);
    rt.try_submit("q", spec(b"2")).unwrap();
}

#[test]
fn retryable_failure_moves_to_retry_waiting() {
    let retry = RetryConfig::new(10 * SECOND, 60 * SECOND);
    let mut rt = Rt::start(config_single("q", 10).with_retry(retry)).unwrap();
    let id = rt.must_submit("q", spec(b"test").with_max_attempts(3));
    rt.run_and_report(WorkerOutcome::Retryable);
    assert_eq!(rt.state(id), JobState::RetryWaiting);
    let stats = rt.stats();
    assert_eq!(stats.retried, 1);
    assert_eq!(stats.retrying, 1);
    assert_eq!(rt.of_queue("q").retrying, 1);
    assert_eq!(
        rt.coordinator.next_retry_deadline(),
        Some(rt.clock.now + 10 * SECOND)
    );
}

#[test]
fn retry_occurs_after_delay() {
    let retry = RetryConfig::new(5 * SECOND, 60 * SECOND);
    let mut rt = Rt::start(config_single("q", 10).with_retry(retry)).unwrap();
    let id = rt.must_submit("q", spec(b"test").with_max_attempts(2));

    // First attempt.
    rt.run_and_report(WorkerOutcome::Retryable);
    rt.park(2);
    // Not yet.
    rt.advance(3 * SECOND);
    assert!(rt.dispatch().is_none());
    // Now.
    rt.advance(3 * SECOND);
    let (_, leased) = rt.dispatch().unwrap();
    assert_eq!(leased.context.id, id);
    assert_eq!(leased.context.attempt, 2);
    assert_eq!(leased.lease_id, LeaseId::new(2));
}

#[test]
fn retry_does_not_occur_before_deadline() {
    let retry = RetryConfig::new(10 * SECOND, 60 * SECOND);
    let mut rt = Rt::start(config_single("q", 10).with_retry(retry)).unwrap();
    let id = rt.must_submit("q", spec(b"test").with_max_attempts(3));
    rt.run_and_report(WorkerOutcome::Retryable);
    rt.advance(5 * SECOND);
    assert_eq!(rt.state(id), JobState::RetryWaiting);
    rt.advance(5 * SECOND - 1);
    assert_eq!(rt.state(id), JobState::RetryWaiting);
    rt.advance(1);
    assert_eq!(rt.state(id), JobState::Queued);
}

#[test]
fn attempts_increment_on_execution() {
    let mut rt = Rt::start(config_single("q", 10)).unwrap();
    let id = rt.must_submit("q", spec(b"test"));
    assert_eq!(rt.status(id).unwrap().attempts, 0);
    let leased = rt.run();
    assert_eq!(leased.context.attempt, 1);
    assert_eq!(rt.status(id).unwrap().attempts, 1);
}

#[test]
fn max_attempts_enforced_exactly() {
    let retry = RetryConfig::new(100 * MILLISECOND, SECOND);
    let mut rt = Rt::start(config_single("q", 10).with_retry(retry)).unwrap();
    let id = rt.must_submit("q", spec(b"test").with_max_attempts(3));
    let mut attempts = 0;
    for _ in 0..10 {
        rt.park(1);
        if let Some((_, leased)) = rt.dispatch() {
            attempts += 1;
            assert_eq!(leased.context.attempt, attempts);
            rt.report(id, leased.lease_id, WorkerOutcome::Retryable);
        }
        rt.advance(200 * MILLISECOND);
    }
    assert_eq!(attempts, 3);
    assert_eq!(rt.state(id), JobState::Dead);
}

#[test]
fn exhausted_retry_becomes_dead() {
    let retry = RetryConfig::new(50 * MILLISECOND, 100 * MILLISECOND);
    let mut rt = Rt::start(config_single("q", 10).with_retry(retry)).unwrap();
    let id = rt.must_submit("q", spec(b"test").with_max_attempts(2));
    rt.run_and_report(WorkerOutcome::Retryable);
    rt.advance(100 * MILLISECOND);
    rt.run_and_report(WorkerOutcome::Retryable);
    assert_eq!(rt.state(id), JobState::Dead);
    assert_eq!(rt.stats().dead, 1);
}

#[test]
fn a_job_without_attempts_is_run_once() {
    let mut rt = Rt::start(config_single("q", 10)).unwrap();
    let id = rt.must_submit("q", spec(b"test").with_max_attempts(0));
    rt.run_and_report(WorkerOutcome::Retryable);
    assert_eq!(rt.state(id), JobState::Dead);
}

#[test]
fn fatal_error_becomes_dead() {
    let mut rt = Rt::start(config_single("q", 10)).unwrap();
    let id = rt.must_submit("q", spec(b"test").with_max_attempts(5));
    rt.run_and_report(WorkerOutcome::Fatal);
    assert_eq!(rt.state(id), JobState::Dead);
    assert_eq!(rt.of_queue("q").dead, 1);
}

#[test]
fn dead_releases_capacity() {
    let mut rt = Rt::start(config_single("q", 1)).unwrap();
    rt.must_submit("q", spec(b"1"));
    rt.run_and_report(WorkerOutcome::Fatal);
    rt.try_submit("q", spec(b"2")).unwrap();
}

#[test]
fn stale_ack_rejected() {
    let retry = RetryConfig::new(100 * MILLISECOND, SECOND);
    let config = config_single("q", 10)
        .with_retry(retry)
        .with_visibility_timeout(2 * SECOND);
    let mut rt = Rt::start(config).unwrap();
    let id = rt.must_submit("q", spec(b"test").with_max_attempts(3));
    let first = rt.run();
    // The first lease runs out.
    rt.advance(3 * SECOND);
    rt.advance(200 * MILLISECOND);
    let second = rt.run();
    assert_ne!(first.lease_id, second.lease_id);
    // The first worker reports while the second one works, and after.
    assert!(!rt.report(id, first.lease_id, WorkerOutcome::Fatal));
    assert_eq!(rt.state(id), JobState::Running);
    assert!(rt.report(id, second.lease_id, WorkerOutcome::Success));
    assert_eq!(rt.state(id), JobState::Completed);
    assert!(!rt.report(id, first.lease_id, WorkerOutcome::Fatal));
    assert!(!rt.report(id, second.lease_id, WorkerOutcome::Fatal));
    assert_eq!(rt.state(id), JobState::Completed);
    assert_eq!(rt.stats().stale_outcomes, 3);
}

#[test]
fn lease_timeout_triggers_retry() {
    let retry = RetryConfig::new(100 * MILLISECOND, SECOND);
    let config = config_single("q", 10)
        .with_retry(retry)
        .with_visibility_timeout(SECOND);
    let mut rt = Rt::start(config).unwrap();
    let id = rt.must_submit("q", spec(b"test").with_max_attempts(3));
    rt.run();
    assert_eq!(
        rt.coordinator.next_retry_deadline(),
        Some(rt.clock.now + SECOND)
    );
    rt.advance(SECOND - 1);
    assert_eq!(rt.state(id), JobState::Running);
    rt.advance(1);
    assert_eq!(rt.state(id), JobState::RetryWaiting);
    rt.advance(200 * MILLISECOND);
    assert_eq!(rt.run().context.attempt, 2);
}

#[test]
fn handler_panic_observed() {
    let mut rt = Rt::start(config_single("q", 10)).unwrap();
    let id = rt.must_submit("q", spec(b"test").with_max_attempts(1));
    rt.run_and_report(Execution::Lost.outcome());
    assert_eq!(rt.state(id), JobState::Dead);
}

#[test]
fn handler_panic_retries() {
    let retry = RetryConfig::new(50 * MILLISECOND, 100 * MILLISECOND);
    let mut rt = Rt::start(config_single("q", 10).with_retry(retry)).unwrap();
    let id = rt.must_submit("q", spec(b"test").with_max_attempts(2));
    rt.run_and_report(WorkerOutcome::Panic);
    assert_eq!(rt.state(id), JobState::RetryWaiting);
    rt.advance(100 * MILLISECOND);
    let leased = rt.run_and_report(WorkerOutcome::Success);
    assert_eq!(leased.context.attempt, 2);
    assert_eq!(rt.state(id), JobState::Completed);
}

#[test]
fn retry_waiting_cancellation() {
    let retry = RetryConfig::new(60 * SECOND, 120 * SECOND);
    let mut rt = Rt::start(config_single("q", 10).with_retry(retry)).unwrap();
    let id = rt.must_submit("q", spec(b"test").with_max_attempts(3));
    rt.run_and_report(WorkerOutcome::Retryable);
    assert_eq!(rt.state(id), JobState::RetryWaiting);
    let cancelled = rt.cancel(id).unwrap();
    assert_eq!(cancelled.state, JobState::Cancelled);
    assert_eq!(rt.stats().retrying, 0);
    // Its retry comes to nothing.
    rt.advance(120 * SECOND);
    assert_eq!(rt.state(id), JobState::Cancelled);
    rt.park(1);
    assert!(rt.dispatch().is_none());
    assert_eq!(rt.coordinator.next_retry_deadline(), None);
}

#[test]
fn running_cancellation() {
    let mut rt = Rt::start(config_single("q", 10)).unwrap();
    let id = rt.must_submit("q", spec(b"test"));
    let leased = rt.run();
    let Step::Persist(record) = rt.handle(Command::Cancel { id }) else {
        panic!("refused");
    };
    let applied = rt.apply(record);
    assert_eq!(applied.job.state, JobState::Cancelled);
    assert!(applied.released);
    // The worker is told to stop.
    assert_eq!(applied.revoked, Some(leased.lease_id));
}

#[test]
fn late_ack_after_cancellation_is_stale() {
    let mut rt = Rt::start(config_single("q", 10)).unwrap();
    let id = rt.must_submit("q", spec(b"test"));
    let leased = rt.run();
    rt.cancel(id).unwrap();
    assert!(!rt.report(id, leased.lease_id, WorkerOutcome::Success));
    assert_eq!(rt.stats().stale_outcomes, 1);
    assert_eq!(rt.state(id), JobState::Cancelled);
}

#[test]
fn repeated_stale_outcome_no_over_release() {
    let config = config_single("q", 1).with_visibility_timeout(SECOND);
    let mut rt = Rt::start(config).unwrap();
    let id = rt.must_submit("q", spec(b"1").with_max_attempts(1));
    let leased = rt.run();
    // Wait for timeout.
    rt.advance(2 * SECOND);
    for _ in 0..3 {
        assert!(!rt.report(id, leased.lease_id, WorkerOutcome::Success));
    }
    assert_eq!(rt.state(id), JobState::Dead);
    // Capacity is 1, should be available after Dead.
    rt.try_submit("q", spec(b"2").with_max_attempts(1)).unwrap();
    // Should not be able to submit a third (capacity is still 1).
    let result = rt.try_submit("q", spec(b"3"));
    assert!(matches!(result, Err(Error::QueueFull(_))));
}

#[test]
fn shutdown_stops_new_submissions() {
    let config = config_single("q", 10).with_shutdown_timeout(5 * SECOND);
    let mut rt = Rt::start(config).unwrap();
    rt.must_submit("q", spec(b"1"));
    rt.must_submit("q", spec(b"2"));
    let leased = rt.run();
    rt.park(4);
    rt.park(5);
    // A second job goes to the first of them; the other one keeps waiting.
    let other = rt.dispatch().unwrap().1;
    assert_eq!(rt.handle(Command::Shutdown), Step::Drain(vec![5]));
    assert!(rt.coordinator.is_shutting_down());
    assert_eq!(
        rt.accepted(queue_name("q"), spec(b"3")),
        Err(Error::ShuttingDown)
    );
    assert_eq!(rt.handle(Command::FetchWork { worker: 6 }), Step::Dismiss);
    // It waits for the running jobs, but not for ever.
    let now = rt.clock.now;
    assert_eq!(rt.coordinator.drain_deadline(), Some(now + 5 * SECOND));
    assert!(!rt.coordinator.shutdown_complete(now));
    assert!(rt.coordinator.shutdown_complete(now + 5 * SECOND));
    assert!(rt.report(leased.context.id, leased.lease_id, WorkerOutcome::Success));
    assert!(!rt.coordinator.shutdown_complete(now));
    assert!(rt.report(other.context.id, other.lease_id, WorkerOutcome::Success));
    assert!(rt.coordinator.shutdown_complete(now));
}

#[test]
fn shutdown_gives_up_what_still_runs() {
    let mut rt = Rt::start(config_single("q", 10)).unwrap();
    let id = rt.must_submit("q", spec(b"1"));
    let leased = rt.run();
    rt.handle(Command::Shutdown);
    let revoked = rt.coordinator.abandon_leases();
    assert_eq!(revoked.len(), 1);
    assert_eq!(revoked[0].lease_id, leased.lease_id.epoch());
    // Whatever the worker reports is too late, and the job stays as it is.
    assert!(!rt.report(id, leased.lease_id, WorkerOutcome::Success));
    assert_eq!(rt.state(id), JobState::Running);
}

#[test]
fn queues_take_turns() {
    let config = RuntimeConfig::new(
        vec![
            QueueConfig::new(queue_name("a"), 9),
            QueueConfig::new(queue_name("b"), 9),
            QueueConfig::new(queue_name("c"), 9),
        ],
        64,
    );
    let mut rt = Rt::start(config).unwrap();
    for payload in [b"a1", b"a2", b"a3"] {
        rt.must_submit("a", spec(payload));
    }
    rt.must_submit("c", spec(b"c1"));
    rt.must_submit("c", spec(b"c2"));
    rt.must_submit("b", spec(b"b1"));
    let order: Vec<Vec<u8>> = (0..6).map(|_| rt.run().context.payload).collect();
    let expected: Vec<Vec<u8>> = [b"a1", b"b1", b"c1", b"a2", b"c2", b"a3"]
        .iter()
        .map(|p| p.to_vec())
        .collect();
    assert_eq!(order, expected);
}

#[test]
fn retries_go_to_the_end_of_their_queue() {
    let retry = RetryConfig::new(SECOND, 60 * SECOND);
    let mut rt = Rt::start(config_single("q", 10).with_retry(retry)).unwrap();
    let first = rt.must_submit("q", spec(b"1"));
    rt.run_and_report(WorkerOutcome::Retryable);
    let second = rt.must_submit("q", spec(b"2"));
    rt.advance(SECOND);
    assert_eq!(rt.run().context.id, second);
    assert_eq!(rt.run().context.id, first);
}

#[test]
fn retries_come_due_in_their_order() {
    let retry = RetryConfig::new(SECOND, 60 * SECOND);
    let mut rt = Rt::start(config_single("q", 10).with_retry(retry)).unwrap();
    let first = rt.must_submit("q", spec(b"1").with_max_attempts(9));
    rt.run_and_report(WorkerOutcome::Retryable);
    rt.advance(SECOND);
    // The second delay of the first job is longer than the first of the second.
    rt.run_and_report(WorkerOutcome::Retryable);
    let second = rt.must_submit("q", spec(b"2"));
    rt.run_and_report(WorkerOutcome::Retryable);
    let now = rt.clock.now;
    assert_eq!(rt.coordinator.next_retry_deadline(), Some(now + SECOND));
    rt.advance(2 * SECOND);
    assert_eq!(rt.run().context.id, second);
    assert_eq!(rt.run().context.id, first);
}

#[test]
fn nothing_changes_before_a_record_is_applied() {
    let mut rt = Rt::start(config_single("q", 10)).unwrap();
    let id = JobId::new();
    let step = rt.handle(Command::Submit {
        id,
        queue: queue_name("q"),
        spec: spec(b"x"),
    });
    assert!(matches!(step, Step::Persist(_)));
    // It was never written: there is no such job.
    assert!(rt.status(id).is_err());
    assert_eq!(rt.stats().submitted, 0);

    let id = rt.must_submit("q", spec(b"x"));
    rt.park(1);
    assert!(rt.coordinator.do_fetch_work(rt.clock.wall).unwrap().is_some());
    assert_eq!(rt.state(id), JobState::Queued);
    assert!(matches!(rt.handle(Command::Cancel { id }), Step::Persist(_)));
    assert_eq!(rt.state(id), JobState::Queued);
    let (_, leased) = rt.dispatch().unwrap();
    assert!(matches!(
        rt.handle(Command::WorkerOutcome {
            id,
            lease_id: leased.lease_id,
            outcome: WorkerOutcome::Success
        }),
        Step::Persist(_)
    ));
    assert_eq!(rt.state(id), JobState::Running);
}

#[test]
fn oversized_payloads_are_refused() {
    let mut rt = Rt::start(config_single("q", 10)).unwrap();
    let result = rt.try_submit("q", JobSpec::new(vec![0u8; 1024 * 1024 + 1]));
    assert_eq!(
        result,
        Err(Error::PayloadTooLarge(1024 * 1024 + 1, 1024 * 1024))
    );
    assert!(rt.try_submit("q", JobSpec::new(vec![0u8; 1024 * 1024])).is_ok());
}

#[test]
fn jitter_shortens_delays() {
    for (sample, delay) in [
        (0, 0),
        (u32::MAX / 5, 2 * SECOND),
        (u32::MAX, 10 * SECOND),
    ] {
        let retry = RetryConfig::new(10 * SECOND, 60 * SECOND)
            .with_jitter(rust_durable_queue::Jitter::Full);
        let mut rt = Rt::start(config_single("q", 10).with_retry(retry)).unwrap();
        rt.must_submit("q", spec(b"1"));
        rt.sample = sample;
        rt.run_and_report(WorkerOutcome::Retryable);
        assert_eq!(
            rt.coordinator.next_retry_deadline(),
            Some(rt.clock.now + delay)
        );
    }
}

#[test]
fn clocks() {
    let wall = UnixMillis::from_millis(1_000);
    assert_eq!(wall_after(wall, 0).as_millis(), 1_000);
    assert_eq!(wall_after(wall, 1).as_millis(), 1_001);
    assert_eq!(wall_after(wall, MILLISECOND).as_millis(), 1_001);
    assert_eq!(wall_after(wall, MILLISECOND + 1).as_millis(), 1_002);
    assert_eq!(wall_after(wall, u128::MAX).as_millis(), i64::MAX);
    let clock = Clock { now: 50, wall };
    assert_eq!(monotonic(clock, UnixMillis::from_millis(1_003)), 3_000_050);
    // Moments that are past are now.
    assert_eq!(monotonic(clock, UnixMillis::from_millis(999)), 50);
    assert_eq!(monotonic(clock, UnixMillis::from_millis(i64::MIN)), 50);
    let late = Clock {
        now: u128::MAX - 1,
        wall,
    };
    assert_eq!(
        monotonic(late, UnixMillis::from_millis(2_000)),
        u128::MAX
    );
}

#[test]
fn executions_count_as_outcomes() {
    assert_eq!(
        Execution::Returned(Ok(())).outcome(),
        WorkerOutcome::Success
    );
    let passing = JobError::retryable("later".to_string());
    assert!(passing.is_retryable());
    assert_eq!(passing.to_text(), "retryable: later");
    assert_eq!(
        Execution::Returned(Err(passing)).outcome(),
        WorkerOutcome::Retryable
    );
    let lasting = JobError::fatal("never".to_string());
    assert!(!lasting.is_retryable());
    assert_eq!(lasting.to_text(), "fatal: never");
    assert_eq!(
        Execution::Returned(Err(lasting)).outcome(),
        WorkerOutcome::Fatal
    );
    assert_eq!(Execution::Lost.outcome(), WorkerOutcome::Panic);
    assert_eq!(Execution::Interrupted.outcome(), WorkerOutcome::Retryable);
}

#[test]
fn invalid_configurations_do_not_start() {
    assert!(matches!(
        Rt::start(config_single("q", 0)).err(),
        Some(Error::InvalidConfiguration(_))
    ));
}

#[test]
fn figures_of_queues_add_up() {
    let queues = ["a", "b"]
        .iter()
        .map(|name| QueueConfig::new(queue_name(name), 10))
        .collect();
    let mut rt = Rt::start(RuntimeConfig::new(queues, 64)).unwrap();
    for name in ["a", "b"] {
        for _ in 0..4 {
            rt.must_submit(name, spec(b"1"));
        }
    }
    rt.run_and_report(WorkerOutcome::Retryable);
    rt.run_and_report(WorkerOutcome::Retryable);
    for _ in 0..3 {
        rt.run();
    }
    let stats = rt.stats();
    assert_eq!((stats.queued, stats.running, stats.retrying), (3, 3, 2));
    let sum = |of: fn(&QueueStats) -> u64| -> u64 {
        stats.per_queue.iter().map(|q| of(&q.1)).sum()
    };
    assert_eq!(sum(|q| q.queued), 3);
    assert_eq!(sum(|q| q.running), 3);
    assert_eq!(sum(|q| q.retrying), 2);
}
