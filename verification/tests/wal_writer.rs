use rust_durable_queue::wal::{
    scan_wal, TestableWalWriter, WalError, WalFrame, WalHeader, WalRecord, WalWriter,
};
use rust_durable_queue::{
    JobId, JobSpec, QueueName, Storage, StorageConfig, TestableStorage, UnixMillis,
};

fn submission(payload: &[u8]) -> WalRecord {
    WalRecord::JobSubmitted {
        id: JobId::new(),
        queue: QueueName::new("test").unwrap(),
        spec: JobSpec::new(payload.to_vec()),
        created_at: UnixMillis::now(),
    }
}

#[test]
fn writer_creates_wal_file() {
    let mut writer = TestableWalWriter::open(Vec::new()).unwrap();
    let record = submission(b"payload");
    let seq = writer.append(record.clone()).unwrap();
    assert_eq!(seq, 1);
    assert_eq!(writer.contents()[..10], WalHeader::new().encode());
    assert_eq!(scan_wal(writer.contents()).unwrap().records, vec![record]);
}

#[test]
fn sequence_increments() {
    let mut writer = TestableWalWriter::open(Vec::new()).unwrap();
    for i in 1..=5 {
        let seq = writer.append(submission(b"payload")).unwrap();
        assert_eq!(seq, i);
    }
    assert_eq!(scan_wal(writer.contents()).unwrap().last_sequence, 5);
}

#[test]
fn fault_injection_append() {
    let mut writer = TestableWalWriter::open(Vec::new()).unwrap();
    writer.fail_next_append();
    let result = writer.append(submission(b"payload"));
    assert_eq!(result, Err(WalError::Io("injected append failure".to_string())));
    // Nothing was written, and the next append takes the same number.
    assert_eq!(writer.contents().len(), 10);
    assert_eq!(writer.append(submission(b"payload")), Ok(1));
}

#[test]
fn fault_injection_sync() {
    let mut writer = TestableWalWriter::open(Vec::new()).unwrap();
    writer.fail_next_sync();
    let result = writer.append(submission(b"payload"));
    assert!(matches!(result, Err(WalError::SyncFailed)));
    // The bytes are there, but the number is not spent.
    assert!(writer.contents().len() > 10);
    assert_eq!(writer.append(submission(b"payload")), Ok(1));
}

#[test]
fn reopen_continues_sequence() {
    let mut writer = TestableWalWriter::open(Vec::new()).unwrap();
    for _ in 0..3 {
        writer.append(submission(b"data")).unwrap();
    }
    let contents = writer.contents().clone();

    let mut writer = TestableWalWriter::open(contents).unwrap();
    let seq = writer.append(submission(b"data")).unwrap();
    assert_eq!(seq, 4);
    assert_eq!(scan_wal(writer.contents()).unwrap().records.len(), 4);
}

#[test]
fn reopen_counts_frames_before_an_unfinished_one() {
    let mut writer = TestableWalWriter::open(Vec::new()).unwrap();
    writer.append(submission(b"data")).unwrap();
    let mut contents = writer.contents().clone();
    contents.extend_from_slice(&[50, 0, 0, 0, 1, 1]);
    let writer = WalWriter::open(&contents).unwrap();
    let frame = writer.append(&submission(b"data")).unwrap();
    assert_eq!(WalFrame::decode(&frame).unwrap().0.sequence, 2);
}

#[test]
fn open_refuses_what_it_cannot_read() {
    assert_eq!(
        WalWriter::open(b"RDQ").err(),
        Some(WalError::InvalidWalHeader)
    );
    assert_eq!(
        WalWriter::open(b"RDQUEUE\0\x07\x00").err(),
        Some(WalError::UnsupportedWalVersion(7))
    );
    let mut contents = WalHeader::new().encode().to_vec();
    let mut frame = WalFrame::new(1, submission(b"x")).encode().unwrap();
    frame[15] ^= 1;
    contents.extend_from_slice(&frame);
    assert!(matches!(
        WalWriter::open(&contents),
        Err(WalError::ChecksumMismatch { .. })
    ));
    // The last number of all leaves none to follow it.
    let mut contents = WalHeader::new().encode().to_vec();
    contents.extend_from_slice(&WalFrame::new(u64::MAX, submission(b"x")).encode().unwrap());
    assert_eq!(
        WalWriter::open(&contents).err(),
        Some(WalError::SequenceExhausted)
    );
}

#[test]
fn numbers_run_out() {
    let writer = WalWriter::from_recovered(u64::MAX);
    assert_eq!(
        writer.append(&submission(b"x")),
        Err(WalError::SequenceExhausted)
    );
    let mut writer = WalWriter::from_recovered(u64::MAX - 1);
    assert!(writer.append(&submission(b"x")).is_ok());
    assert_eq!(writer.acknowledge(Ok(())), Ok(u64::MAX - 1));
}

#[test]
fn a_failed_write_spends_no_number() {
    let mut writer = WalWriter::from_recovered(8);
    assert_eq!(
        writer.acknowledge(Err("disk full".to_string())),
        Err(WalError::Io("disk full".to_string()))
    );
    assert_eq!(writer.acknowledge(Ok(())), Ok(8));
    assert_eq!(writer.acknowledge(Ok(())), Ok(9));
}

#[test]
fn a_new_log_lacks_its_header() {
    assert_eq!(
        WalWriter::missing_header(&[]),
        WalHeader::new().encode().to_vec()
    );
    assert!(WalWriter::missing_header(&[1]).is_empty());
}

#[test]
fn storage_kinds() {
    let wal = StorageConfig::Wal {
        path: "data".into(),
    };
    assert_eq!(StorageConfig::default(), StorageConfig::Memory);
    let memory = Storage::open(&StorageConfig::Memory, b"ignored").unwrap();
    assert!(!memory.is_durable());
    assert_eq!(memory.persist(&submission(b"x")), Ok(None));

    let durable = Storage::open(&wal, &[]).unwrap();
    assert!(durable.is_durable());
    let record = submission(b"x");
    let frame = durable.persist(&record).unwrap().unwrap();
    let (decoded, _) = WalFrame::decode(&frame).unwrap();
    assert_eq!(decoded.sequence, 1);
    assert_eq!(decoded.record, record);
    assert!(Storage::open(&wal, b"junk").is_err());
}

#[test]
fn testable_storage_faults() {
    let wal = StorageConfig::Wal {
        path: "data".into(),
    };
    let mut storage = TestableStorage::open(&wal, Vec::new()).unwrap();
    assert!(storage.is_durable());
    assert_eq!(storage.persist(submission(b"1")), Ok(Some(1)));
    storage.fail_next_append();
    assert!(matches!(
        storage.persist(submission(b"2")),
        Err(WalError::Io(_))
    ));
    assert_eq!(storage.persist(submission(b"2")), Ok(Some(2)));
    storage.fail_next_sync();
    assert_eq!(storage.persist(submission(b"3")), Err(WalError::SyncFailed));

    let mut memory = TestableStorage::open(&StorageConfig::Memory, Vec::new()).unwrap();
    memory.fail_next_append();
    memory.fail_next_sync();
    assert!(!memory.is_durable());
    assert_eq!(memory.persist(submission(b"1")), Ok(None));
}
