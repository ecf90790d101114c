use rust_durable_queue::config::SECOND;
use rust_durable_queue::coordinator::model::MILLISECOND;
use rust_durable_queue::demo::{
    demo_config, demo_payload, demo_queue, expected_dead, tally, wait_step, DemoPayload, Tally,
    WaitStep, WAIT_LIMIT,
};
use rust_durable_queue::types::MAX_PAYLOAD_SIZE;
use rust_durable_queue::wal::bytes::{push_le, read_le, u128_from_be, u128_to_be};
use rust_durable_queue::wal::{WalError, WalRecord};
use rust_durable_queue::{
    Error, Jitter, JobError, JobId, JobRecord, JobSpec, JobState, LeaseId, MemoryStore,
    QueueConfig, QueueName, QueueStats, RetryConfig, RuntimeConfig, StatsSnapshot, StorageConfig,
    UnixMillis,
};

fn queue_name(s: &str) -> QueueName {
    QueueName::new(s).unwrap()
}

fn config_single(name: &str, capacity: usize) -> RuntimeConfig {
    RuntimeConfig::new(vec![QueueConfig::new(queue_name(name), capacity)], 64)
}

#[test]
fn valid_queue_configuration() {
    let config = config_single("test", 10);
    assert!(config.validate().is_ok());
}

#[test]
fn invalid_empty_queue_name() {
    assert!(QueueName::new("").is_none());
    assert_eq!(queue_name("a b").as_str(), "a b");
}

#[test]
fn duplicate_queue_configuration() {
    let config = RuntimeConfig::new(
        vec![
            QueueConfig::new(queue_name("same"), 10),
            QueueConfig::new(queue_name("same"), 5),
        ],
        64,
    );
    let err = config.validate().unwrap_err();
    assert!(matches!(err, Error::InvalidConfiguration(_)));
    assert_eq!(
        err,
        Error::InvalidConfiguration("duplicate queue name: 'same'".to_string())
    );
}

#[test]
fn zero_capacity_rejected() {
    let config = config_single("test", 0);
    let err = config.validate().unwrap_err();
    assert!(matches!(err, Error::InvalidConfiguration(_)));
    assert_eq!(
        err,
        Error::InvalidConfiguration("queue 'test' has zero capacity".to_string())
    );
}

#[test]
fn zero_channel_capacity_rejected() {
    let config = RuntimeConfig::new(vec![QueueConfig::new(queue_name("q"), 10)], 0);
    let err = config.validate().unwrap_err();
    assert!(matches!(err, Error::InvalidConfiguration(_)));
    assert_eq!(
        err,
        Error::InvalidConfiguration("channel capacity must be positive".to_string())
    );
}

#[test]
fn the_first_fault_of_a_configuration_is_reported() {
    let config = RuntimeConfig::new(
        vec![
            QueueConfig::new(queue_name("a"), 1),
            QueueConfig::new(queue_name("b"), 1),
            QueueConfig::new(queue_name("a"), 0),
            QueueConfig::new(queue_name("b"), 1),
        ],
        1,
    );
    assert_eq!(
        config.validate(),
        Err(Error::InvalidConfiguration(
            "queue 'a' has zero capacity".to_string()
        ))
    );
}

#[test]
fn retry_backoff_never_exceeds_max() {
    let retry = RetryConfig::new(SECOND, 60 * SECOND);
    for attempt in 1..100 {
        let delay = retry.delay_for_attempt(attempt);
        assert!(delay <= retry.max_delay);
    }
}

#[test]
fn backoff_doubles() {
    let retry = RetryConfig::new(SECOND, 60 * SECOND);
    let delays: Vec<u128> = (1..9).map(|a| retry.delay_for_attempt(a) / SECOND).collect();
    assert_eq!(delays, vec![1, 2, 4, 8, 16, 32, 60, 60]);
    assert_eq!(retry.delay_for_attempt(0), SECOND);
    assert_eq!(retry.delay_for_attempt(u32::MAX), 60 * SECOND);
    assert_eq!(RetryConfig::new(0, SECOND).delay_for_attempt(u32::MAX), 0);
    assert_eq!(RetryConfig::new(5, 3).delay_for_attempt(1), 3);
    let huge = RetryConfig::new(u128::MAX / 2 + 1, u128::MAX);
    assert_eq!(huge.delay_for_attempt(2), u128::MAX);
}

#[test]
fn deterministic_jitter() {
    let retry = RetryConfig::new(10 * SECOND, 60 * SECOND);

    // Without jitter the delay is unchanged.
    let delay = retry.apply_jitter(10 * SECOND, 1, 2);
    assert_eq!(delay, 10 * SECOND);

    // Jitter::Full with factor.
    let retry_full = retry.with_jitter(Jitter::Full);
    let delay = retry_full.apply_jitter(10 * SECOND, 1, 2);
    assert_eq!(delay, 5 * SECOND);

    assert_eq!(retry_full.apply_jitter(10, 1, 3), 3);
    assert_eq!(retry_full.apply_jitter(10, 0, 3), 0);
    assert_eq!(retry_full.apply_jitter(u128::MAX, u32::MAX, u32::MAX), u128::MAX);
}

#[test]
fn configurations_are_built_up() {
    let config = config_single("q", 4);
    assert_eq!(config.storage, StorageConfig::Memory);
    assert_eq!(config.worker_concurrency, 1);
    let wal = StorageConfig::Wal {
        path: "p".into(),
    };
    let config = config
        .with_storage(wal.clone())
        .with_worker_concurrency(3)
        .with_retry(RetryConfig::new(1, 2))
        .with_visibility_timeout(4)
        .with_shutdown_timeout(5);
    assert_eq!(config.storage, wal);
    assert_eq!(config.worker_concurrency, 3);
    assert_eq!(config.retry, RetryConfig::new(1, 2));
    assert_eq!(config.visibility_timeout, 4);
    assert_eq!(config.shutdown_timeout, 5);
    assert_eq!(config.queues.len(), 1);
    assert_eq!(config.channel_capacity, 64);
}

#[test]
fn timestamps() {
    assert_eq!(UnixMillis::from_millis(-5).as_millis(), -5);
    assert_eq!(UnixMillis::from_clock(None).as_millis(), 0);
    assert_eq!(UnixMillis::from_clock(Some(1_234)).as_millis(), 1_234);
    // Only the low bits of a reading count.
    assert_eq!(UnixMillis::from_clock(Some(1u128 << 64)).as_millis(), 0);
    let reading = std::time::SystemTime::now()
        .duration_since(std::time::UNIX_EPOCH)
        .unwrap()
        .as_millis() as i64;
    let now = UnixMillis::now().as_millis();
    assert!(now >= reading && now < reading + 60_000);
    assert!(UnixMillis::default().as_millis() >= now);
}

#[test]
fn identifiers() {
    let id = JobId::from_uuid(0x67e55044_10b1_426f_9247_bb680e5fe0c8);
    assert_eq!(id.as_uuid(), 0x67e55044_10b1_426f_9247_bb680e5fe0c8);
    assert_eq!(id.to_text(), "67e55044-10b1-426f-9247-bb680e5fe0c8");
    assert_eq!(
        JobId::from_uuid(0).to_text(),
        "00000000-0000-0000-0000-000000000000"
    );
    let fresh = JobId::new();
    assert_ne!(fresh, JobId::new());
    assert_eq!(
        uuid::Uuid::from_u128(fresh.as_uuid()).get_version_num(),
        4
    );
    assert_eq!(fresh.to_text().as_bytes()[14], b'4');
    assert_ne!(JobId::default(), fresh);
    assert_eq!(LeaseId::new(9).epoch(), 9);
}

#[test]
fn job_states_and_specs() {
    let ended: Vec<bool> = [
        JobState::Queued,
        JobState::Running,
        JobState::RetryWaiting,
        JobState::Completed,
        JobState::Dead,
        JobState::Cancelled,
    ]
    .iter()
    .map(|s| s.is_terminal())
    .collect();
    assert_eq!(ended, vec![false, false, false, true, true, true]);
    let spec = JobSpec::new(b"x".to_vec());
    assert_eq!(spec.max_attempts, 3);
    assert_eq!(spec.with_max_attempts(8).max_attempts, 8);
    assert_eq!(MAX_PAYLOAD_SIZE, 1_048_576);
    let job = JobRecord::new(
        JobId::from_uuid(1),
        queue_name("q"),
        JobSpec::new(vec![1]),
        UnixMillis::from_millis(7),
    );
    assert_eq!(job.state, JobState::Queued);
    assert_eq!(job.attempts, 0);
    assert_eq!(job.clone(), job);
}

fn submission(id: u128) -> WalRecord {
    WalRecord::JobSubmitted {
        id: JobId::from_uuid(id),
        queue: queue_name("q"),
        spec: JobSpec::new(vec![1]),
        created_at: UnixMillis::from_millis(7),
    }
}

fn lease(id: u128, attempt: u32) -> WalRecord {
    WalRecord::JobLeased {
        id: JobId::from_uuid(id),
        lease_id: LeaseId::new(1),
        attempt,
        leased_at: UnixMillis::from_millis(8),
    }
}

fn retry(id: u128) -> WalRecord {
    WalRecord::JobRetryScheduled {
        id: JobId::from_uuid(id),
        lease_id: LeaseId::new(1),
        attempt: 1,
        available_at: UnixMillis::from_millis(9),
    }
}

#[test]
fn the_store_follows_the_job_lifecycle() {
    let mut store = MemoryStore::new();
    let id = JobId::from_uuid(1);
    assert!(store.get(id).is_none());
    assert_eq!(
        store.apply_record(&lease(1, 1)),
        Err(Error::JobNotFound(
            "00000000-0000-0000-0000-000000000001".to_string()
        ))
    );
    store.apply_record(&submission(1)).unwrap();
    assert_eq!(
        store.apply_record(&retry(1)),
        Err(Error::InvalidTransition {
            from: JobState::Queued,
            to: JobState::RetryWaiting
        })
    );
    store.apply_record(&lease(1, 5)).unwrap();
    assert_eq!(store.get(id).unwrap().state, JobState::Running);
    assert_eq!(store.get(id).unwrap().attempts, 5);
    assert_eq!(
        store.transition_to_queued(id),
        Err(Error::InvalidTransition {
            from: JobState::Running,
            to: JobState::Queued
        })
    );
    store.apply_record(&retry(1)).unwrap();
    assert_eq!(store.get(id).unwrap().attempts, 5);
    let job = store.transition_to_queued(id).unwrap();
    assert_eq!(job.state, JobState::Queued);
    store
        .apply_record(&WalRecord::JobCancelled {
            id,
            cancelled_at: UnixMillis::from_millis(1),
        })
        .unwrap();
    // An end is final.
    for record in [lease(1, 6), retry(1)] {
        assert!(matches!(
            store.apply_record(&record),
            Err(Error::InvalidTransition { .. })
        ));
    }
    assert_eq!(store.len(), 1);
    assert!(matches!(
        store.transition_to_queued(JobId::from_uuid(2)),
        Err(Error::JobNotFound(_))
    ));
}

#[test]
fn every_transition() {
    let all = [JobState::Queued, JobState::Running, JobState::RetryWaiting, JobState::Completed, JobState::Dead, JobState::Cancelled];
    let valid = [
        (JobState::Queued, JobState::Running),
        (JobState::Queued, JobState::Cancelled),
        (JobState::Running, JobState::Completed),
        (JobState::Running, JobState::RetryWaiting),
        (JobState::Running, JobState::Dead),
        (JobState::Running, JobState::Cancelled),
        (JobState::RetryWaiting, JobState::Queued),
        (JobState::RetryWaiting, JobState::Dead),
        (JobState::RetryWaiting, JobState::Cancelled),
    ];
    for from in all {
        for to in all {
            assert_eq!(
                MemoryStore::is_valid_transition(from, to),
                valid.contains(&(from, to))
            );
        }
    }
}

#[test]
fn jobs_are_changed_in_place() {
    let mut store = MemoryStore::default();
    store.apply_record(&submission(1)).unwrap();
    store.apply_record(&submission(2)).unwrap();
    store.get_mut(JobId::from_uuid(1)).unwrap().attempts = 9;
    assert_eq!(store.get(JobId::from_uuid(1)).unwrap().attempts, 9);
    assert_eq!(store.get(JobId::from_uuid(2)).unwrap().attempts, 0);
    assert!(store.get_mut(JobId::from_uuid(3)).is_none());
    assert_eq!(store.len(), 2);
}

#[test]
fn figures_start_at_zero() {
    assert_eq!(QueueStats::default().submitted, 0);
    let stats = StatsSnapshot::default();
    assert_eq!(stats.submitted + stats.retried + stats.stale_outcomes, 0);
    assert!(stats.per_queue.is_empty());
}

#[test]
fn errors_of_the_log_are_wrapped() {
    assert_eq!(
        Error::from(WalError::StoreLocked),
        Error::Storage(WalError::StoreLocked)
    );
}

#[test]
fn numbers_as_bytes() {
    let mut out = vec![9];
    push_le(&mut out, 0x0102_0304, 4);
    assert_eq!(out, vec![9, 4, 3, 2, 1]);
    assert_eq!(read_le(&out, 1, 4), 0x0102_0304);
    assert_eq!(read_le(&out, 1, 2), 0x0304);
    let id = 0x0011_2233_4455_6677_8899_aabb_ccdd_eeff;
    assert_eq!(u128_to_be(id), id.to_be_bytes().to_vec());
    assert_eq!(u128_from_be(&id.to_be_bytes()), id);
}

#[test]
fn demo_payloads() {
    assert_eq!(DemoPayload::Success(0).encode(), b"success:0".to_vec());
    assert_eq!(DemoPayload::RetryOnce(42).encode(), b"retry-once:42".to_vec());
    assert_eq!(
        DemoPayload::Fatal(u32::MAX).encode(),
        b"fatal:4294967295".to_vec()
    );
    for payload in [
        DemoPayload::Success(7),
        DemoPayload::RetryOnce(1000),
        DemoPayload::Fatal(u32::MAX),
    ] {
        assert_eq!(DemoPayload::decode(&payload.encode()), Some(payload));
    }
    assert_eq!(
        DemoPayload::decode(b"success:+007"),
        Some(DemoPayload::Success(7))
    );
    for text in [
        &b""[..],
        b"success:",
        b"success:+",
        b"success:-1",
        b"success:1x",
        b"success:4294967296",
        b"fatal",
        b"other:1",
        b"fatal:\xff",
    ] {
        assert_eq!(DemoPayload::decode(text), None);
    }
}

#[test]
fn demo_jobs() {
    assert_eq!(demo_payload(20), DemoPayload::Fatal(20));
    assert_eq!(demo_payload(11), DemoPayload::RetryOnce(11));
    assert_eq!(demo_payload(12), DemoPayload::RetryOnce(12));
    assert_eq!(demo_payload(13), DemoPayload::Success(13));
    assert_eq!(demo_queue(&demo_payload(11)), "priority");
    assert_eq!(demo_queue(&demo_payload(10)), "default");
    for jobs in [0, 1, 9, 10, 11, 25] {
        let dead = (0..jobs)
            .filter(|i| matches!(demo_payload(*i), DemoPayload::Fatal(_)))
            .count();
        assert_eq!(expected_dead(jobs) as usize, dead);
    }
    assert_eq!(DemoPayload::Success(1).attempt(false), Ok(()));
    assert_eq!(
        DemoPayload::RetryOnce(1).attempt(false),
        Err(JobError::Retryable("simulated transient failure".to_string()))
    );
    assert_eq!(DemoPayload::RetryOnce(1).attempt(true), Ok(()));
    assert_eq!(
        DemoPayload::Fatal(1).attempt(true),
        Err(JobError::Fatal("simulated fatal error".to_string()))
    );
}

#[test]
fn demo_tally_and_config() {
    let states = vec![
        JobState::Completed,
        JobState::Dead,
        JobState::Completed,
        JobState::Cancelled,
    ];
    let expected = Tally {
        completed: 2,
        dead: 1,
        cancelled: 1,
        all_done: true,
    };
    assert_eq!(tally(&states), expected);
    assert!(!tally(&vec![JobState::Running]).all_done);
    let config = demo_config(4, 32, StorageConfig::Memory).unwrap();
    assert!(config.validate().is_ok());
    assert_eq!(config.queues[1].capacity, 16);
    assert_eq!(config.retry.max_delay, 500 * MILLISECOND);
    // A demonstration with room for one job only has no priority queue to speak of.
    assert!(demo_config(1, 1, StorageConfig::Memory)
        .unwrap()
        .validate()
        .is_err());
}

#[test]
fn moments_are_ordered() {
    let moment = UnixMillis::from_millis;
    for (a, b) in [(-2, -1), (-1, 0), (0, 1), (1, 2), (i64::MIN, i64::MAX)] {
        assert!(moment(a) < moment(b));
        assert!(moment(a) <= moment(b));
        assert!(moment(b) > moment(a));
        assert!(!(moment(b) < moment(a)));
        assert_eq!(moment(a).max(moment(b)), moment(b));
        assert_eq!(moment(a).as_millis(), a);
    }
    assert!(!(moment(5) < moment(5)) && moment(5) <= moment(5));
}

#[test]
fn the_demonstration_waits_for_its_jobs() {
    assert_eq!(wait_step(true, WAIT_LIMIT + 1, WAIT_LIMIT), WaitStep::Done);
    assert_eq!(wait_step(false, WAIT_LIMIT, WAIT_LIMIT), WaitStep::Wait);
    assert_eq!(
        wait_step(false, WAIT_LIMIT + 1, WAIT_LIMIT),
        WaitStep::TimedOut
    );
}

#[test]
fn jobs_are_counted_by_queue_and_state() {
    let mut store = MemoryStore::new();
    let spec = JobSpec::new(b"x".to_vec());
    let queue = QueueName::new("q").unwrap();
    let other = QueueName::new("r").unwrap();
    for (id, state) in [
        (1, JobState::Queued),
        (2, JobState::Queued),
        (3, JobState::Running),
        (4, JobState::RetryWaiting),
        (5, JobState::Completed),
        (6, JobState::Dead),
        (7, JobState::Cancelled),
    ] {
        let id = JobId::from_uuid(id);
        let mut job =
            JobRecord::new(id, queue.clone(), spec.clone(), UnixMillis::from_millis(0));
        job.state = state;
        store.insert_job(job);
    }
    let tally = store.tally(&queue);
    assert_eq!((tally.submitted, tally.queued, tally.running), (7, 2, 1));
    assert_eq!((tally.retrying, tally.completed), (1, 1));
    assert_eq!((tally.dead, tally.cancelled), (1, 1));
    assert_eq!(store.tally(&other).submitted, 0);
}

#[test]
fn a_storage_keeps_its_path() {
    let path = std::path::PathBuf::from("data/log");
    let storage = StorageConfig::Wal { path: path.clone() };
    assert_eq!(storage.clone(), storage);
    let config = config_single("q", 1).with_storage(storage);
    assert_eq!(config.storage, StorageConfig::Wal { path });
}
