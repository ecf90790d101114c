use rust_durable_queue::wal::scanner::{repaired_len, scan_frames};
use rust_durable_queue::wal::{
    scan_wal, WalError, WalFrame, WalHeader, WalRecord, HEADER_SIZE,
};
use rust_durable_queue::{JobId, JobSpec, LeaseId, QueueName, UnixMillis};

fn submission() -> WalRecord {
    WalRecord::JobSubmitted {
        id: JobId::new(),
        queue: QueueName::new("q").unwrap(),
        spec: JobSpec::new(b"test".to_vec()),
        created_at: UnixMillis::now(),
    }
}

fn log_of(records: &[WalRecord]) -> Vec<u8> {
    let mut log = WalHeader::new().encode().to_vec();
    for (i, record) in records.iter().enumerate() {
        let frame = WalFrame::new(i as u64 + 1, record.clone());
        log.extend_from_slice(&frame.encode().unwrap());
    }
    log
}

#[test]
fn scan_empty_wal() {
    let result = scan_wal(&WalHeader::new().encode()).unwrap();
    assert!(result.records.is_empty());
    assert_eq!(result.last_sequence, 0);
    assert!(!result.had_truncated_tail);
}

#[test]
fn scan_nothing() {
    let result = scan_wal(&[]).unwrap();
    assert!(result.records.is_empty());
    assert_eq!(result.last_valid_offset, 0);
    assert!(!result.had_truncated_tail);
}

#[test]
fn scan_single_record() {
    let record = submission();
    let result = scan_wal(&log_of(std::slice::from_ref(&record))).unwrap();
    assert_eq!(result.records.len(), 1);
    assert_eq!(result.records[0], record);
    assert_eq!(result.last_sequence, 1);
    assert!(!result.had_truncated_tail);
}

#[test]
fn scan_multiple_records() {
    let job_id = JobId::new();
    let queue = QueueName::new("q").unwrap();
    let lease_id = LeaseId::new(42);

    let records = vec![
        WalRecord::JobSubmitted {
            id: job_id,
            queue: queue.clone(),
            spec: JobSpec::new(b"test".to_vec()),
            created_at: UnixMillis::now(),
        },
        WalRecord::JobLeased {
            id: job_id,
            lease_id,
            attempt: 1,
            leased_at: UnixMillis::now(),
        },
        WalRecord::JobCompleted {
            id: job_id,
            lease_id,
            completed_at: UnixMillis::now(),
        },
    ];

    let log = log_of(&records);
    let result = scan_wal(&log).unwrap();

    assert_eq!(result.records.len(), 3);
    assert_eq!(result.last_sequence, 3);
    assert_eq!(result.max_lease_epoch, 42);
    assert!(!result.had_truncated_tail);
    assert_eq!(result.records, records);
    assert_eq!(result.last_valid_offset, (log.len() - HEADER_SIZE) as u64);
}

#[test]
fn scan_detects_truncated_tail() {
    let mut log = log_of(&[submission()]);

    // Append partial frame bytes - start of a valid frame header.
    // 50 bytes payload (0x32 little endian) + partial metadata
    log.extend_from_slice(&[50, 0, 0, 0, 1, 1]);

    let result = scan_wal(&log).unwrap();
    assert_eq!(result.records.len(), 1);
    assert!(result.had_truncated_tail);
}

#[test]
fn scan_rejects_bad_checksum() {
    let mut log = WalHeader::new().encode().to_vec();
    let mut encoded = WalFrame::new(1, submission()).encode().unwrap();
    // Corrupt a byte in the middle (not truncated).
    encoded[15] ^= 0xFF;
    log.extend_from_slice(&encoded);

    let result = scan_wal(&log);
    assert!(matches!(result, Err(WalError::ChecksumMismatch { .. })));
}

#[test]
fn scan_rejects_sequence_gap() {
    let mut log = WalHeader::new().encode().to_vec();
    let record = submission();

    // Write frame with sequence 1.
    log.extend_from_slice(&WalFrame::new(1, record.clone()).encode().unwrap());
    // Write frame with sequence 3 (gap).
    log.extend_from_slice(&WalFrame::new(3, record).encode().unwrap());

    let result = scan_wal(&log);
    assert!(matches!(
        result,
        Err(WalError::SequenceViolation {
            expected: 2,
            got: 3
        })
    ));
}

#[test]
fn scan_rejects_sequence_duplicate() {
    let mut log = log_of(&[submission(), submission()]);
    log.extend_from_slice(&WalFrame::new(2, submission()).encode().unwrap());
    assert_eq!(
        scan_wal(&log),
        Err(WalError::SequenceViolation {
            expected: 3,
            got: 2
        })
    );
}

#[test]
fn scan_rejects_bad_headers() {
    assert_eq!(scan_wal(b"RDQUEUE"), Err(WalError::InvalidWalHeader));
    assert_eq!(scan_wal(b"RDQUEUEX\x01\x00"), Err(WalError::InvalidWalHeader));
    assert_eq!(
        scan_wal(b"RDQUEUE\0\x02\x00"),
        Err(WalError::UnsupportedWalVersion(2))
    );
}

#[test]
fn scan_judges_a_length_before_anything_else() {
    let mut log = log_of(&[]);
    // A length that no frame may have, although the frame is cut short.
    log.extend_from_slice(&[1, 0, 0x10, 0]);
    assert_eq!(scan_wal(&log), Err(WalError::RecordTooLarge(1024 * 1024 + 1)));
    // The largest length that one may have: the frame is only unfinished.
    let mut log = log_of(&[]);
    log.extend_from_slice(&[0, 0, 0x10, 0]);
    assert!(scan_wal(&log).unwrap().had_truncated_tail);
}

#[test]
fn every_crash_point_keeps_the_records_before_it() {
    let records = vec![submission(), submission()];
    let whole = log_of(&records);
    let first = log_of(&records[..1]).len();
    for kept in first + 1..whole.len() {
        let result = scan_wal(&whole[..kept]).unwrap();
        assert_eq!(result.records, records[..1].to_vec());
        assert!(result.had_truncated_tail);
        assert_eq!(result.last_valid_offset, (first - HEADER_SIZE) as u64);
    }
}

#[test]
fn repair_truncated_tail() {
    let mut log = log_of(&[submission()]);
    let original_len = log.len();

    // Append partial frame (valid-looking but incomplete).
    // Small payload length that's valid, then partial frame data.
    log.extend_from_slice(&[50, 0, 0, 0, 1, 1, 0, 0, 0, 0]);

    let scan_result = scan_wal(&log).unwrap();
    assert!(scan_result.had_truncated_tail);

    let repaired =
        rust_durable_queue::wal::repair_truncated_tail(&mut log, scan_result.last_valid_offset);
    assert!(repaired);
    assert_eq!(log.len(), original_len);

    // Verify clean scan after repair.
    let result = scan_wal(&log).unwrap();
    assert!(!result.had_truncated_tail);
    assert_eq!(result.records.len(), 1);

    // Nothing more is cut.
    assert!(!rust_durable_queue::wal::repair_truncated_tail(
        &mut log,
        result.last_valid_offset
    ));
    assert_eq!(log.len(), original_len);
}

#[test]
fn repaired_length() {
    assert_eq!(repaired_len(100, 90), None);
    assert_eq!(repaired_len(99, 90), None);
    assert_eq!(repaired_len(101, 90), Some(100));
}

#[test]
fn appended_frames_are_read_after_the_old_ones() {
    let mut log = log_of(&[submission()]);
    let next = submission();
    log.extend_from_slice(&WalFrame::new(2, next.clone()).encode().unwrap());
    let result = scan_wal(&log).unwrap();
    assert_eq!(result.records.len(), 2);
    assert_eq!(result.records[1], next);
}

#[test]
fn accepting_frames_one_by_one() {
    let mut result = scan_frames(&[]).unwrap();
    let lease = |epoch: u64| WalRecord::JobLeased {
        id: JobId::from_uuid(1),
        lease_id: LeaseId::new(epoch),
        attempt: 1,
        leased_at: UnixMillis::from_millis(0),
    };
    assert_eq!(result.accept(WalFrame::new(1, lease(9)), 40), Ok(()));
    assert_eq!(result.accept(WalFrame::new(2, lease(4)), 41), Ok(()));
    assert_eq!(result.max_lease_epoch, 9);
    assert_eq!(result.last_valid_offset, 81);
    assert_eq!(
        result.accept(WalFrame::new(2, lease(5)), 40),
        Err(WalError::SequenceViolation {
            expected: 3,
            got: 2
        })
    );
    assert_eq!(result.records.len(), 2);
    result.last_sequence = u64::MAX - 1;
    assert_eq!(
        result.accept(WalFrame::new(u64::MAX, lease(5)), 40),
        Err(WalError::SequenceViolation {
            expected: u64::MAX,
            got: 0
        })
    );
}
