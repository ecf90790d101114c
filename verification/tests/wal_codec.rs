use rust_durable_queue::wal::{
    WalError, WalFrame, WalHeader, WalRecord, FRAME_OVERHEAD, HEADER_SIZE, MAX_RECORD_SIZE,
    RECORD_VERSION, WAL_MAGIC, WAL_VERSION,
};
use rust_durable_queue::{JobId, JobSpec, LeaseId, QueueName, UnixMillis};
use serde::ser::{SerializeStruct, SerializeStructVariant};
use serde::{Serialize, Serializer};

fn queue(name: &str) -> QueueName {
    QueueName::new(name).unwrap()
}

fn submission(payload: &[u8]) -> WalRecord {
    WalRecord::JobSubmitted {
        id: JobId::new(),
        queue: queue("test"),
        spec: JobSpec::new(payload.to_vec()),
        created_at: UnixMillis::now(),
    }
}

/// A frame around any payload, with a checksum that fits.
fn framed(sequence: u64, tag: u8, payload: &[u8]) -> Vec<u8> {
    let mut frame = (payload.len() as u32).to_le_bytes().to_vec();
    frame.push(RECORD_VERSION);
    frame.push(tag);
    frame.extend_from_slice(&sequence.to_le_bytes());
    frame.extend_from_slice(payload);
    let sum = crc32fast::hash(&frame);
    frame.extend_from_slice(&sum.to_le_bytes());
    frame
}

#[test]
fn header_roundtrip() {
    let header = WalHeader::new();
    let encoded = header.encode();
    let decoded = WalHeader::decode(&encoded).unwrap();
    assert_eq!(header, decoded);
}

#[test]
fn bad_magic_rejected() {
    let mut buf = WalHeader::new().encode();
    buf[0] = b'X';
    assert!(matches!(
        WalHeader::decode(&buf),
        Err(WalError::InvalidWalHeader)
    ));
}

#[test]
fn unsupported_version_rejected() {
    let mut buf = WalHeader::new().encode();
    buf[8] = 99;
    buf[9] = 0;
    assert!(matches!(
        WalHeader::decode(&buf),
        Err(WalError::UnsupportedWalVersion(99))
    ));
}

#[test]
fn header_bytes_are_the_documented_ones() {
    assert_eq!(WalHeader::new().encode(), *b"RDQUEUE\0\x01\x00");
    assert_eq!(WAL_MAGIC, *b"RDQUEUE\0");
    assert_eq!(WAL_VERSION, 1);
    assert_eq!(HEADER_SIZE, 10);
    assert_eq!(WalHeader::default(), WalHeader::new());
    let mut wide = WalHeader::new().encode();
    wide[9] = 1;
    assert_eq!(
        WalHeader::decode(&wide),
        Err(WalError::UnsupportedWalVersion(257))
    );
}

#[test]
fn frame_roundtrip() {
    let record = submission(b"payload");
    let frame = WalFrame::new(1, record.clone());
    let encoded = frame.encode().unwrap();
    let (decoded, consumed) = WalFrame::decode(&encoded).unwrap();
    assert_eq!(consumed, encoded.len());
    assert_eq!(decoded.sequence, 1);
    assert_eq!(decoded.record, record);
}

#[test]
fn crc_validation() {
    let frame = WalFrame::new(1, submission(b"payload"));
    let mut encoded = frame.encode().unwrap();
    // Corrupt payload byte.
    encoded[15] ^= 0xFF;
    assert!(matches!(
        WalFrame::decode(&encoded),
        Err(WalError::ChecksumMismatch { .. })
    ));
}

#[test]
fn truncated_frame_rejected() {
    let frame = WalFrame::new(1, submission(b"payload"));
    let encoded = frame.encode().unwrap();
    // Truncate.
    let truncated = &encoded[..encoded.len() - 5];
    assert!(matches!(
        WalFrame::decode(truncated),
        Err(WalError::TruncatedFrame)
    ));
}

#[test]
fn every_cut_of_a_frame_is_truncated() {
    let encoded = WalFrame::new(7, submission(b"payload")).encode().unwrap();
    for kept in 0..encoded.len() {
        assert!(matches!(
            WalFrame::decode(&encoded[..kept]),
            Err(WalError::TruncatedFrame)
        ));
    }
}

#[test]
fn oversized_frame_rejected() {
    let mut buf = vec![0u8; FRAME_OVERHEAD + 100];
    // Set payload_len to exceed MAX_RECORD_SIZE.
    let huge_len = MAX_RECORD_SIZE + 1;
    buf[0..4].copy_from_slice(&huge_len.to_le_bytes());
    assert!(matches!(
        WalFrame::decode(&buf),
        Err(WalError::RecordTooLarge(_))
    ));
}

#[test]
fn oversized_record_is_not_encoded() {
    let record = submission(&vec![0u8; 1024 * 1024]);
    let size = record.to_payload().len();
    assert!(size > MAX_RECORD_SIZE as usize);
    assert_eq!(
        WalFrame::new(1, record).encode(),
        Err(WalError::RecordTooLarge(size))
    );
}

#[test]
fn all_record_types_roundtrip() {
    let job_id = JobId::new();
    let queue = queue("q");
    let lease_id = LeaseId::new(42);
    let ts = UnixMillis::now();

    let records = vec![
        WalRecord::JobSubmitted {
            id: job_id,
            queue: queue.clone(),
            spec: JobSpec::new(b"test".to_vec()),
            created_at: ts,
        },
        WalRecord::JobLeased {
            id: job_id,
            lease_id,
            attempt: 1,
            leased_at: ts,
        },
        WalRecord::JobRetryScheduled {
            id: job_id,
            lease_id,
            attempt: 1,
            available_at: ts,
        },
        WalRecord::JobCompleted {
            id: job_id,
            lease_id,
            completed_at: ts,
        },
        WalRecord::JobDead {
            id: job_id,
            lease_id,
            dead_at: ts,
        },
        WalRecord::JobCancelled {
            id: job_id,
            cancelled_at: ts,
        },
    ];

    for (seq, record) in records.into_iter().enumerate() {
        let frame = WalFrame::new(seq as u64 + 1, record.clone());
        let encoded = frame.encode().unwrap();
        let (decoded, _) = WalFrame::decode(&encoded).unwrap();
        assert_eq!(decoded.record, record);
        assert_eq!(record.record_type() as usize, seq + 1);
        assert_eq!(encoded[5] as usize, seq + 1);
        assert_eq!(record.job_id(), job_id);
    }
}

#[test]
fn frame_layout_is_the_documented_one() {
    let record = WalRecord::JobCancelled {
        id: JobId::from_uuid(0x00112233_4455_6677_8899_aabbccddeeff),
        cancelled_at: UnixMillis::from_millis(-3),
    };
    let payload = [
        5, 16, 0x00, 0x11, 0x22, 0x33, 0x44, 0x55, 0x66, 0x77, 0x88, 0x99, 0xaa, 0xbb, 0xcc, 0xdd,
        0xee, 0xff, 5,
    ];
    assert_eq!(record.to_payload(), payload.to_vec());
    let encoded = WalFrame::new(0x0102, record).encode().unwrap();
    assert_eq!(encoded, framed(0x0102, 6, &payload));
    assert_eq!(encoded.len(), FRAME_OVERHEAD + payload.len());
}

#[test]
fn payloads_are_postcard_messages() {
    let uuid = uuid::Uuid::from_u128(0xfedcba98_7654_4321_8012_3456789abcde);
    let id = JobId::from_uuid(uuid.as_u128());
    let at = UnixMillis::from_millis(1_700_000_000_123);
    let lease_id = LeaseId::new(300);

    let submitted = WalRecord::JobSubmitted {
        id,
        queue: queue("größe"),
        spec: JobSpec::new(vec![0, 255, 128]).with_max_attempts(700),
        created_at: at,
    };
    let plain = postcard::to_allocvec(&(
        0u32,
        uuid,
        "größe",
        vec![0u8, 255, 128],
        700u32,
        1_700_000_000_123i64,
    ))
    .unwrap();
    assert_eq!(submitted.to_payload(), plain);
    assert_eq!(WalRecord::from_payload(&plain), Ok(submitted));

    let leased = WalRecord::JobLeased {
        id,
        lease_id,
        attempt: 2,
        leased_at: UnixMillis::from_millis(i64::MIN),
    };
    let plain = postcard::to_allocvec(&(1u32, uuid, 300u64, 2u32, i64::MIN)).unwrap();
    assert_eq!(leased.to_payload(), plain);
    assert_eq!(WalRecord::from_payload(&plain), Ok(leased));

    let scheduled = WalRecord::JobRetryScheduled {
        id,
        lease_id: LeaseId::new(u64::MAX),
        attempt: u32::MAX,
        available_at: UnixMillis::from_millis(i64::MAX),
    };
    let plain = postcard::to_allocvec(&(2u32, uuid, u64::MAX, u32::MAX, i64::MAX)).unwrap();
    assert_eq!(scheduled.to_payload(), plain);
    assert_eq!(WalRecord::from_payload(&plain), Ok(scheduled));

    let completed = WalRecord::JobCompleted {
        id,
        lease_id,
        completed_at: at,
    };
    let plain = postcard::to_allocvec(&(3u32, uuid, 300u64, at.as_millis())).unwrap();
    assert_eq!(completed.to_payload(), plain);
    assert_eq!(WalRecord::from_payload(&plain), Ok(completed));

    let dead = WalRecord::JobDead {
        id,
        lease_id,
        dead_at: at,
    };
    let plain = postcard::to_allocvec(&(4u32, uuid, 300u64, at.as_millis())).unwrap();
    assert_eq!(dead.to_payload(), plain);
    assert_eq!(WalRecord::from_payload(&plain), Ok(dead));
}

#[test]
fn what_follows_a_record_in_its_payload_is_ignored() {
    let record = submission(b"x");
    let mut payload = record.to_payload();
    payload.extend_from_slice(b"rest");
    assert_eq!(WalRecord::from_payload(&payload), Ok(record));
}

#[test]
fn bad_payloads_name_their_failure() {
    let id = [16u8, 0, 0, 0, 0, 0, 0, 0, 0, 0, 0, 0, 0, 0, 0, 0, 7];
    let text = |payload: &[u8]| match WalFrame::decode(&framed(1, 1, payload)) {
        Err(WalError::Serialization(text)) => text,
        other => panic!("unexpected: {:?}", other),
    };

    // The payload ends inside the record.
    assert_eq!(text(&[]), "Hit the end of buffer, expected more data");
    assert_eq!(text(&[5]), "Hit the end of buffer, expected more data");
    // A variant number that does not end, and one that is too large.
    assert_eq!(
        text(&[0xff, 0xff, 0xff, 0xff, 0xff, 0]),
        "Found a varint that didn't terminate. Is the usize too big for this platform?"
    );
    assert_eq!(
        text(&[0xff, 0xff, 0xff, 0xff, 0x10]),
        "Found a varint that didn't terminate. Is the usize too big for this platform?"
    );
    // A variant that does not exist.
    assert_eq!(text(&[6]), "Serde Deserialization Error");
    // An identifier of the wrong length.
    assert_eq!(text(&[5, 2, 1, 2, 0]), "Serde Deserialization Error");
    // A queue name that is not UTF-8.
    let mut name = vec![0u8];
    name.extend_from_slice(&id);
    name.extend_from_slice(&[2, 0xc3, 0x28]);
    assert_eq!(text(&name), "Tried to parse invalid utf-8");
}

#[test]
fn numbers_written_long_are_read() {
    // The variant 5 in two bytes.
    let mut payload = vec![0x85, 0x00];
    payload.extend_from_slice(&[16, 0, 0, 0, 0, 0, 0, 0, 0, 0, 0, 0, 0, 0, 0, 0, 9]);
    payload.push(4);
    assert_eq!(
        WalRecord::from_payload(&payload),
        Ok(WalRecord::JobCancelled {
            id: JobId::from_uuid(9),
            cancelled_at: UnixMillis::from_millis(2),
        })
    );
}

#[test]
fn unknown_record_version_rejected() {
    let mut encoded = WalFrame::new(1, submission(b"x")).encode().unwrap();
    encoded[4] = 2;
    assert!(matches!(
        WalFrame::decode(&encoded),
        Err(WalError::UnsupportedRecordVersion(2))
    ));
}

#[test]
fn a_given_checksum_decides() {
    let frame = WalFrame::new(3, submission(b"x"));
    let body = frame.encode_body().unwrap();
    let sealed = WalFrame::seal(body.clone(), 0x01020304);
    assert_eq!(sealed[sealed.len() - 4..], [4, 3, 2, 1]);
    assert_eq!(
        WalFrame::decode_checked(&sealed, 0x01020304).map(|(f, n)| (f.sequence, n)).unwrap(),
        (3, sealed.len())
    );
    assert!(matches!(
        WalFrame::decode_checked(&sealed, 5),
        Err(WalError::ChecksumMismatch {
            expected: 0x01020304,
            computed: 5
        })
    ));
    // The checksum of the frame itself is the CRC-32 of its body.
    let sum = crc32fast::hash(&body);
    assert_eq!(WalFrame::seal(body, sum), frame.encode().unwrap());
}

/// A job's specification as serde sees one.
struct PlainSpec(Vec<u8>, u32);

impl Serialize for PlainSpec {
    fn serialize<S: Serializer>(&self, serializer: S) -> Result<S::Ok, S::Error> {
        let mut fields = serializer.serialize_struct("JobSpec", 2)?;
        fields.serialize_field("payload", &self.0)?;
        fields.serialize_field("max_attempts", &self.1)?;
        fields.end()
    }
}

/// A record as serde sees one: an enum whose variants have named fields.
struct Plain(WalRecord);

impl Serialize for Plain {
    fn serialize<S: Serializer>(&self, serializer: S) -> Result<S::Ok, S::Error> {
        let id = uuid::Uuid::from_u128(self.0.job_id().as_uuid());
        match &self.0 {
            WalRecord::JobSubmitted {
                queue,
                spec,
                created_at,
                ..
            } => {
                let mut v =
                    serializer.serialize_struct_variant("WalRecord", 0, "JobSubmitted", 4)?;
                v.serialize_field("id", &id)?;
                v.serialize_field("queue", queue.as_str())?;
                v.serialize_field("spec", &PlainSpec(spec.payload.clone(), spec.max_attempts))?;
                v.serialize_field("created_at", &created_at.as_millis())?;
                v.end()
            }
            WalRecord::JobLeased {
                lease_id,
                attempt,
                leased_at,
                ..
            } => {
                let mut v = serializer.serialize_struct_variant("WalRecord", 1, "JobLeased", 4)?;
                v.serialize_field("id", &id)?;
                v.serialize_field("lease_id", &lease_id.epoch())?;
                v.serialize_field("attempt", attempt)?;
                v.serialize_field("leased_at", &leased_at.as_millis())?;
                v.end()
            }
            WalRecord::JobRetryScheduled {
                lease_id,
                attempt,
                available_at,
                ..
            } => {
                let mut v =
                    serializer.serialize_struct_variant("WalRecord", 2, "JobRetryScheduled", 4)?;
                v.serialize_field("id", &id)?;
                v.serialize_field("lease_id", &lease_id.epoch())?;
                v.serialize_field("attempt", attempt)?;
                v.serialize_field("available_at", &available_at.as_millis())?;
                v.end()
            }
            WalRecord::JobCompleted {
                lease_id,
                completed_at,
                ..
            } => {
                let mut v =
                    serializer.serialize_struct_variant("WalRecord", 3, "JobCompleted", 3)?;
                v.serialize_field("id", &id)?;
                v.serialize_field("lease_id", &lease_id.epoch())?;
                v.serialize_field("completed_at", &completed_at.as_millis())?;
                v.end()
            }
            WalRecord::JobDead {
                lease_id, dead_at, ..
            } => {
                let mut v = serializer.serialize_struct_variant("WalRecord", 4, "JobDead", 3)?;
                v.serialize_field("id", &id)?;
                v.serialize_field("lease_id", &lease_id.epoch())?;
                v.serialize_field("dead_at", &dead_at.as_millis())?;
                v.end()
            }
            WalRecord::JobCancelled { cancelled_at, .. } => {
                let mut v =
                    serializer.serialize_struct_variant("WalRecord", 5, "JobCancelled", 2)?;
                v.serialize_field("id", &id)?;
                v.serialize_field("cancelled_at", &cancelled_at.as_millis())?;
                v.end()
            }
        }
    }
}

#[test]
fn payloads_are_what_serde_and_postcard_write() {
    for number in [0i64, 1, -1, 63, 64, -65, 8191, 1 << 40, i64::MAX, i64::MIN] {
        let id = JobId::new();
        let at = UnixMillis::from_millis(number);
        let lease_id = LeaseId::new(number as u64);
        let attempt = number as u32;
        let records = vec![
            WalRecord::JobSubmitted {
                id,
                queue: queue("some queue"),
                spec: JobSpec::new(vec![7u8; (number as usize) % 300]).with_max_attempts(attempt),
                created_at: at,
            },
            WalRecord::JobLeased {
                id,
                lease_id,
                attempt,
                leased_at: at,
            },
            WalRecord::JobRetryScheduled {
                id,
                lease_id,
                attempt,
                available_at: at,
            },
            WalRecord::JobCompleted {
                id,
                lease_id,
                completed_at: at,
            },
            WalRecord::JobDead {
                id,
                lease_id,
                dead_at: at,
            },
            WalRecord::JobCancelled {
                id,
                cancelled_at: at,
            },
        ];
        for record in records {
            let plain = postcard::to_allocvec(&Plain(record.clone())).unwrap();
            assert_eq!(record.to_payload(), plain);
            assert_eq!(WalRecord::from_payload(&plain), Ok(record));
        }
    }
}

/// The CRC-32 of bytes, one bit at a time.
fn bitwise_crc(bytes: &[u8]) -> u32 {
    let mut crc = u32::MAX;
    for byte in bytes {
        crc ^= u32::from(*byte);
        for _ in 0..8 {
            crc = if crc & 1 == 1 {
                (crc >> 1) ^ 0xedb8_8320
            } else {
                crc >> 1
            };
        }
    }
    !crc
}

#[test]
fn the_checksum_is_crc_32() {
    assert_eq!(bitwise_crc(b"123456789"), 0xcbf4_3926);
    for len in 0..700usize {
        let payload: Vec<u8> = (0..len).map(|i| (i * i + 31 * len) as u8).collect();
        let bytes = WalFrame::new(9, submission(&payload)).encode().unwrap();
        let (body, sum) = bytes.split_at(bytes.len() - 4);
        assert_eq!(sum, bitwise_crc(body).to_le_bytes());
    }
}

#[test]
fn every_changed_byte_is_noticed() {
    let bytes = WalFrame::new(9, submission(b"payload")).encode().unwrap();
    for at in 4..bytes.len() {
        for change in [1u8, 2, 0x10, 0x80, 0xff] {
            let mut changed = bytes.clone();
            changed[at] ^= change;
            match WalFrame::decode(&changed) {
                Err(WalError::UnsupportedRecordVersion(version)) => {
                    assert_eq!((at, version), (4, bytes[4] ^ change))
                }
                Err(WalError::ChecksumMismatch { .. }) => assert_ne!(at, 4),
                other => panic!("not noticed: {:?}", other),
            }
        }
    }
}
