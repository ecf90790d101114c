//! The records of the write-ahead log and their payload encoding.

use crate::types::{copy_bytes, JobId, JobSpec, LeaseId, QueueName, UnixMillis};
use crate::wal::bytes;
use crate::wal::wire;
use crate::wal::wire::DecodeFailure;
use vstd::prelude::*;

verus! {

/// One durable change of a job.
#[derive(Debug, PartialEq, Eq)]
pub enum WalRecord {
    /// A job was created.
    JobSubmitted { id: JobId, queue: QueueName, spec: JobSpec, created_at: UnixMillis },
    /// A job was handed to a worker.
    JobLeased { id: JobId, lease_id: LeaseId, attempt: u32, leased_at: UnixMillis },
    /// A job failed and is to be tried again.
    JobRetryScheduled { id: JobId, lease_id: LeaseId, attempt: u32, available_at: UnixMillis },
    /// A job succeeded.
    JobCompleted { id: JobId, lease_id: LeaseId, completed_at: UnixMillis },
    /// A job failed for good.
    JobDead { id: JobId, lease_id: LeaseId, dead_at: UnixMillis },
    /// A job was cancelled.
    JobCancelled { id: JobId, cancelled_at: UnixMillis },
}

/// What a [`WalRecord`] holds.
#[verifier::ext_equal]
pub enum RecordView {
    JobSubmitted {
        id: u128,
        queue: Seq<char>,
        payload: Seq<u8>,
        max_attempts: u32,
        created_at: i64,
    },
    JobLeased { id: u128, lease_id: u64, attempt: u32, leased_at: i64 },
    JobRetryScheduled { id: u128, lease_id: u64, attempt: u32, available_at: i64 },
    JobCompleted { id: u128, lease_id: u64, completed_at: i64 },
    JobDead { id: u128, lease_id: u64, dead_at: i64 },
    JobCancelled { id: u128, cancelled_at: i64 },
}

impl View for WalRecord {
    type V = RecordView;

    open spec fn view(&self) -> RecordView {
        match *self {
            WalRecord::JobSubmitted { id, queue, spec, created_at } => RecordView::JobSubmitted {
                id: id.0,
                queue: queue@,
                payload: spec.payload@,
                max_attempts: spec.max_attempts,
                created_at: created_at.0,
            },
            WalRecord::JobLeased { id, lease_id, attempt, leased_at } => RecordView::JobLeased {
                id: id.0,
                lease_id: lease_id.0,
                attempt,
                leased_at: leased_at.0,
            },
            WalRecord::JobRetryScheduled { id, lease_id, attempt, available_at } =>
                RecordView::JobRetryScheduled {
                id: id.0,
                lease_id: lease_id.0,
                attempt,
                available_at: available_at.0,
            },
            WalRecord::JobCompleted { id, lease_id, completed_at } => RecordView::JobCompleted {
                id: id.0,
                lease_id: lease_id.0,
                completed_at: completed_at.0,
            },
            WalRecord::JobDead { id, lease_id, dead_at } => RecordView::JobDead {
                id: id.0,
                lease_id: lease_id.0,
                dead_at: dead_at.0,
            },
            WalRecord::JobCancelled { id, cancelled_at } => RecordView::JobCancelled {
                id: id.0,
                cancelled_at: cancelled_at.0,
            },
        }
    }
}

impl Clone for WalRecord {
    fn clone(&self) -> (copy: Self)
        ensures
            copy@ == self@,
    {
        match self {
            WalRecord::JobSubmitted { id, queue, spec, created_at } => WalRecord::JobSubmitted {
                id: *id,
                queue: queue.clone(),
                spec: JobSpec {
                    payload: copy_bytes(&spec.payload),
                    max_attempts: spec.max_attempts,
                },
                created_at: *created_at,
            },
            WalRecord::JobLeased { id, lease_id, attempt, leased_at } => WalRecord::JobLeased {
                id: *id,
                lease_id: *lease_id,
                attempt: *attempt,
                leased_at: *leased_at,
            },
            WalRecord::JobRetryScheduled { id, lease_id, attempt, available_at } =>
                WalRecord::JobRetryScheduled {
                id: *id,
                lease_id: *lease_id,
                attempt: *attempt,
                available_at: *available_at,
            },
            WalRecord::JobCompleted { id, lease_id, completed_at } => WalRecord::JobCompleted {
                id: *id,
                lease_id: *lease_id,
                completed_at: *completed_at,
            },
            WalRecord::JobDead { id, lease_id, dead_at } => WalRecord::JobDead {
                id: *id,
                lease_id: *lease_id,
                dead_at: *dead_at,
            },
            WalRecord::JobCancelled { id, cancelled_at } => WalRecord::JobCancelled {
                id: *id,
                cancelled_at: *cancelled_at,
            },
        }
    }
}

impl RecordView {
    /// The job that the record is about.
    pub open spec fn job(self) -> u128 {
        match self {
            RecordView::JobSubmitted { id, .. } => id,
            RecordView::JobLeased { id, .. } => id,
            RecordView::JobRetryScheduled { id, .. } => id,
            RecordView::JobCompleted { id, .. } => id,
            RecordView::JobDead { id, .. } => id,
            RecordView::JobCancelled { id, .. } => id,
        }
    }

    /// The number that stands for the kind of record in a frame.
    pub open spec fn tag(self) -> u8 {
        match self {
            RecordView::JobSubmitted { .. } => 1,
            RecordView::JobLeased { .. } => 2,
            RecordView::JobRetryScheduled { .. } => 3,
            RecordView::JobCompleted { .. } => 4,
            RecordView::JobDead { .. } => 5,
            RecordView::JobCancelled { .. } => 6,
        }
    }

    /// The record's payload: the index of its variant, then its fields in
    /// order.
    pub open spec fn payload(self) -> Seq<u8> {
        wire::varint((self.tag() - 1) as nat) + uuid_bytes(self.job()) + self.fields()
    }

    /// The encoding of the fields after the job's identifier.
    pub open spec fn fields(self) -> Seq<u8> {
        match self {
            RecordView::JobSubmitted { id, queue, payload, max_attempts, created_at } =>
                wire::byte_string(vstd::utf8::encode_utf8(queue)) + wire::byte_string(payload)
                + wire::varint(max_attempts as nat) + time_bytes(created_at),
            RecordView::JobLeased { id, lease_id, attempt, leased_at } => wire::varint(
                lease_id as nat,
            ) + wire::varint(attempt as nat) + time_bytes(leased_at),
            RecordView::JobRetryScheduled { id, lease_id, attempt, available_at } => wire::varint(
                lease_id as nat,
            ) + wire::varint(attempt as nat) + time_bytes(available_at),
            RecordView::JobCompleted { id, lease_id, completed_at } => wire::varint(
                lease_id as nat,
            ) + time_bytes(completed_at),
            RecordView::JobDead { id, lease_id, dead_at } => wire::varint(lease_id as nat)
                + time_bytes(dead_at),
            RecordView::JobCancelled { id, cancelled_at } => time_bytes(cancelled_at),
        }
    }
}

/// A UUID as a byte string of its sixteen bytes, most significant first.
pub open spec fn uuid_bytes(id: u128) -> Seq<u8> {
    wire::byte_string(bytes::be_bytes(id as nat, 16))
}

/// A timestamp.
pub open spec fn time_bytes(millis: i64) -> Seq<u8> {
    wire::varint(wire::zigzag(millis as int))
}

/// Reads a UUID: a byte string that must have sixteen bytes.
pub open spec fn take_uuid(input: Seq<u8>) -> Result<(u128, nat), DecodeFailure> {
    match wire::take_byte_string(input) {
        Err(failure) => Err(failure),
        Ok((raw, used)) => if raw.len() == 16 {
            Ok((bytes::be_value(raw) as u128, used))
        } else {
            Err(DecodeFailure::BadValue)
        },
    }
}

/// Reads a record from the front of a payload; what follows it is ignored.
pub open spec fn take_record(input: Seq<u8>) -> Result<RecordView, DecodeFailure> {
    match wire::take_varint_32(input) {
        Err(failure) => Err(failure),
        Ok((variant, used)) => if variant >= 6 {
            Err(DecodeFailure::BadValue)
        } else {
            let after_variant = input.skip(used as int);
            match take_uuid(after_variant) {
                Err(failure) => Err(failure),
                Ok((id, used)) => take_fields(variant, id, after_variant.skip(used as int)),
            }
        },
    }
}

/// Reads the fields after the job's identifier.
pub open spec fn take_fields(variant: nat, id: u128, input: Seq<u8>) -> Result<
    RecordView,
    DecodeFailure,
> {
    if variant == 0 {
        match take_submission(input) {
            Err(failure) => Err(failure),
            Ok((queue, payload, max_attempts, created_at)) => Ok(
                RecordView::JobSubmitted { id, queue, payload, max_attempts, created_at },
            ),
        }
    } else if variant == 1 {
        match take_attempt(input) {
            Err(failure) => Err(failure),
            Ok((lease_id, attempt, leased_at)) => Ok(
                RecordView::JobLeased { id, lease_id, attempt, leased_at },
            ),
        }
    } else if variant == 2 {
        match take_attempt(input) {
            Err(failure) => Err(failure),
            Ok((lease_id, attempt, available_at)) => Ok(
                RecordView::JobRetryScheduled { id, lease_id, attempt, available_at },
            ),
        }
    } else if variant == 3 {
        match take_end(input) {
            Err(failure) => Err(failure),
            Ok((lease_id, completed_at)) => Ok(
                RecordView::JobCompleted { id, lease_id, completed_at },
            ),
        }
    } else if variant == 4 {
        match take_end(input) {
            Err(failure) => Err(failure),
            Ok((lease_id, dead_at)) => Ok(RecordView::JobDead { id, lease_id, dead_at }),
        }
    } else {
        match take_time(input) {
            Err(failure) => Err(failure),
            Ok(cancelled_at) => Ok(RecordView::JobCancelled { id, cancelled_at }),
        }
    }
}

/// Reads a timestamp.
pub open spec fn take_time(input: Seq<u8>) -> Result<i64, DecodeFailure> {
    match wire::take_varint_64(input) {
        Err(failure) => Err(failure),
        Ok((millis, _)) => Ok(wire::unzigzag(millis) as i64),
    }
}

/// Reads a lease and a timestamp.
pub open spec fn take_end(input: Seq<u8>) -> Result<(u64, i64), DecodeFailure> {
    match wire::take_varint_64(input) {
        Err(failure) => Err(failure),
        Ok((lease_id, used)) => match take_time(input.skip(used as int)) {
            Err(failure) => Err(failure),
            Ok(time) => Ok((lease_id as u64, time)),
        },
    }
}

/// Reads a lease, an attempt and a timestamp.
pub open spec fn take_attempt(input: Seq<u8>) -> Result<(u64, u32, i64), DecodeFailure> {
    match wire::take_varint_64(input) {
        Err(failure) => Err(failure),
        Ok((lease_id, used)) => {
            let after_lease = input.skip(used as int);
            match wire::take_varint_32(after_lease) {
                Err(failure) => Err(failure),
                Ok((attempt, used)) => match take_time(after_lease.skip(used as int)) {
                    Err(failure) => Err(failure),
                    Ok(time) => Ok((lease_id as u64, attempt as u32, time)),
                },
            }
        },
    }
}

/// Reads a queue's name, a job's payload, its attempts and a timestamp.
pub open spec fn take_submission(input: Seq<u8>) -> Result<
    (Seq<char>, Seq<u8>, u32, i64),
    DecodeFailure,
> {
    match wire::take_text(input) {
        Err(failure) => Err(failure),
        Ok((queue, used)) => {
            let after_queue = input.skip(used as int);
            match wire::take_byte_string(after_queue) {
                Err(failure) => Err(failure),
                Ok((payload, used)) => {
                    let after_payload = after_queue.skip(used as int);
                    match wire::take_varint_32(after_payload) {
                        Err(failure) => Err(failure),
                        Ok((max_attempts, used)) => match take_time(
                            after_payload.skip(used as int),
                        ) {
                            Err(failure) => Err(failure),
                            Ok(time) => Ok((queue, payload, max_attempts as u32, time)),
                        },
                    }
                },
            }
        },
    }
}

impl WalRecord {
    /// The job that the record is about.
    pub fn job_id(&self) -> (id: JobId)
        ensures
            id.0 == self@.job(),
    {
        match self {
            WalRecord::JobSubmitted { id, .. } => *id,
            WalRecord::JobLeased { id, .. } => *id,
            WalRecord::JobRetryScheduled { id, .. } => *id,
            WalRecord::JobCompleted { id, .. } => *id,
            WalRecord::JobDead { id, .. } => *id,
            WalRecord::JobCancelled { id, .. } => *id,
        }
    }

    /// The number that stands for the kind of record in a frame.
    pub fn record_type(&self) -> (tag: u8)
        ensures
            tag == self@.tag(),
    {
        match self {
            WalRecord::JobSubmitted { .. } => 1,
            WalRecord::JobLeased { .. } => 2,
            WalRecord::JobRetryScheduled { .. } => 3,
            WalRecord::JobCompleted { .. } => 4,
            WalRecord::JobDead { .. } => 5,
            WalRecord::JobCancelled { .. } => 6,
        }
    }

    /// The record's payload.
    pub fn to_payload(&self) -> (out: Vec<u8>)
        ensures
            out@ == self@.payload(),
    {
        let variant: u32 = self.record_type() as u32 - 1;
        let mut out = wire::encode_u32(variant);
        let id = bytes::u128_to_be(self.job_id().0);
        append(&mut out, wire::encode_bytes(id.as_slice()));
        match self {
            WalRecord::JobSubmitted { queue, spec, created_at, .. } => {
                append(&mut out, wire::encode_text(queue.as_str()));
                append(&mut out, wire::encode_bytes(spec.payload.as_slice()));
                append(&mut out, wire::encode_u32(spec.max_attempts));
                append(&mut out, wire::encode_i64(created_at.0));
            },
            WalRecord::JobLeased { lease_id, attempt, leased_at, .. } => {
                append(&mut out, wire::encode_u64(lease_id.0));
                append(&mut out, wire::encode_u32(*attempt));
                append(&mut out, wire::encode_i64(leased_at.0));
            },
            WalRecord::JobRetryScheduled { lease_id, attempt, available_at, .. } => {
                append(&mut out, wire::encode_u64(lease_id.0));
                append(&mut out, wire::encode_u32(*attempt));
                append(&mut out, wire::encode_i64(available_at.0));
            },
            WalRecord::JobCompleted { lease_id, completed_at, .. } => {
                append(&mut out, wire::encode_u64(lease_id.0));
                append(&mut out, wire::encode_i64(completed_at.0));
            },
            WalRecord::JobDead { lease_id, dead_at, .. } => {
                append(&mut out, wire::encode_u64(lease_id.0));
                append(&mut out, wire::encode_i64(dead_at.0));
            },
            WalRecord::JobCancelled { cancelled_at, .. } => {
                append(&mut out, wire::encode_i64(cancelled_at.0));
            },
        }
        assert(out@ =~= self@.payload());
        out
    }

    /// Reads a record from a payload.
    pub fn from_payload(input: &[u8]) -> (record: Result<WalRecord, DecodeFailure>)
        ensures
            match take_record(input@) {
                Ok(view) => record matches Ok(r) && r@ == view,
                Err(failure) => record matches Err(f) && f == failure,
            },
    {
        let (variant, rest) = match wire::take_u32(input) {
            Ok(taken) => taken,
            Err(failure) => return Err(failure),
        };
        if variant >= 6 {
            return Err(DecodeFailure::BadValue);
        }
        let (raw, rest) = match wire::take_bytes(rest) {
            Ok(taken) => taken,
            Err(failure) => return Err(failure),
        };
        if raw.len() != 16 {
            return Err(DecodeFailure::BadValue);
        }
        let id = JobId(bytes::u128_from_be(raw.as_slice()));
        if variant == 0 {
            let (queue, rest) = match wire::take_string(rest) {
                Ok(taken) => taken,
                Err(failure) => return Err(failure),
            };
            let (payload, rest) = match wire::take_bytes(rest) {
                Ok(taken) => taken,
                Err(failure) => return Err(failure),
            };
            let (max_attempts, rest) = match wire::take_u32(rest) {
                Ok(taken) => taken,
                Err(failure) => return Err(failure),
            };
            let (time, _) = match wire::take_i64(rest) {
                Ok(taken) => taken,
                Err(failure) => return Err(failure),
            };
            return Ok(
                WalRecord::JobSubmitted {
                    id,
                    queue: QueueName::from_record(queue),
                    spec: JobSpec { payload, max_attempts },
                    created_at: UnixMillis(time),
                },
            );
        }
        if variant == 5 {
            let (time, _) = match wire::take_i64(rest) {
                Ok(taken) => taken,
                Err(failure) => return Err(failure),
            };
            return Ok(WalRecord::JobCancelled { id, cancelled_at: UnixMillis(time) });
        }
        let (epoch, rest) = match wire::take_u64(rest) {
            Ok(taken) => taken,
            Err(failure) => return Err(failure),
        };
        let lease_id = LeaseId(epoch);
        if variant == 1 || variant == 2 {
            let (attempt, rest) = match wire::take_u32(rest) {
                Ok(taken) => taken,
                Err(failure) => return Err(failure),
            };
            let (time, _) = match wire::take_i64(rest) {
                Ok(taken) => taken,
                Err(failure) => return Err(failure),
            };
            return Ok(
                if variant == 1 {
                    WalRecord::JobLeased { id, lease_id, attempt, leased_at: UnixMillis(time) }
                } else {
                    WalRecord::JobRetryScheduled {
                        id,
                        lease_id,
                        attempt,
                        available_at: UnixMillis(time),
                    }
                },
            );
        }
        let (time, _) = match wire::take_i64(rest) {
            Ok(taken) => taken,
            Err(failure) => return Err(failure),
        };
        Ok(
            if variant == 3 {
                WalRecord::JobCompleted { id, lease_id, completed_at: UnixMillis(time) }
            } else {
                WalRecord::JobDead { id, lease_id, dead_at: UnixMillis(time) }
            },
        )
    }
}

/// Appends one byte vector to another.
fn append(out: &mut Vec<u8>, more: Vec<u8>)
    ensures
        final(out)@ == old(out)@ + more@,
{
    out.extend_from_slice(more.as_slice());
    assert(out@ =~= old(out)@ + more@);
}

/// A UUID is read back from the front of any longer input.
proof fn lemma_uuid_round_trip(id: u128, tail: Seq<u8>)
    ensures
        take_uuid(uuid_bytes(id) + tail) == Ok::<(u128, nat), DecodeFailure>(
            (id, uuid_bytes(id).len()),
        ),
{
    bytes::lemma_byte_limits();
    bytes::lemma_be_round_trip(id as nat, 16);
    wire::lemma_byte_string_round_trip(bytes::be_bytes(id as nat, 16), tail);
}

/// A timestamp is read back from the front of any longer input.
proof fn lemma_time_round_trip(millis: i64, tail: Seq<u8>)
    ensures
        take_time(time_bytes(millis) + tail) == Ok::<i64, DecodeFailure>(millis),
{
    wire::lemma_zigzag_round_trip(millis);
    wire::lemma_varint_limits();
    wire::lemma_varint_round_trip(wire::zigzag(millis as int), tail, 10, 1);
}

/// A 32-bit number is read back, and what follows it is left.
proof fn lemma_u32_round_trip(n: u32, tail: Seq<u8>)
    ensures
        wire::take_varint_32(wire::varint(n as nat) + tail) == Ok::<(nat, nat), DecodeFailure>(
            (n as nat, wire::varint(n as nat).len()),
        ),
        (wire::varint(n as nat) + tail).skip(wire::varint(n as nat).len() as int) == tail,
{
    wire::lemma_varint_limits();
    wire::lemma_varint_round_trip(n as nat, tail, 5, 15);
    lemma_skip_front(wire::varint(n as nat), tail);
}

/// A 64-bit number is read back, and what follows it is left.
proof fn lemma_u64_round_trip(n: u64, tail: Seq<u8>)
    ensures
        wire::take_varint_64(wire::varint(n as nat) + tail) == Ok::<(nat, nat), DecodeFailure>(
            (n as nat, wire::varint(n as nat).len()),
        ),
        (wire::varint(n as nat) + tail).skip(wire::varint(n as nat).len() as int) == tail,
{
    wire::lemma_varint_limits();
    wire::lemma_varint_round_trip(n as nat, tail, 10, 1);
    lemma_skip_front(wire::varint(n as nat), tail);
}

/// Skipping what stands in front leaves the rest.
proof fn lemma_skip_front(front: Seq<u8>, tail: Seq<u8>)
    ensures
        (front + tail).skip(front.len() as int) == tail,
{
    assert((front + tail).skip(front.len() as int) =~= tail);
}

/// A lease, an attempt and a time are read back.
proof fn lemma_attempt_round_trip(lease_id: u64, attempt: u32, time: i64, tail: Seq<u8>)
    ensures
        take_attempt(
            wire::varint(lease_id as nat) + wire::varint(attempt as nat) + time_bytes(time) + tail,
        ) == Ok::<(u64, u32, i64), DecodeFailure>((lease_id, attempt, time)),
{
    let after_attempt = time_bytes(time) + tail;
    let after_lease = wire::varint(attempt as nat) + after_attempt;
    lemma_u64_round_trip(lease_id, after_lease);
    lemma_u32_round_trip(attempt, after_attempt);
    lemma_time_round_trip(time, tail);
    let lease = wire::varint(lease_id as nat);
    let number = wire::varint(attempt as nat);
    let input = lease + number + time_bytes(time) + tail;
    assert(input =~= lease + after_lease);
    assert(input.skip(lease.len() as int) == after_lease);
    assert(after_lease.skip(number.len() as int) == after_attempt);
}

/// A lease and a time are read back.
proof fn lemma_end_round_trip(lease_id: u64, time: i64, tail: Seq<u8>)
    ensures
        take_end(wire::varint(lease_id as nat) + time_bytes(time) + tail) == Ok::<
            (u64, i64),
            DecodeFailure,
        >((lease_id, time)),
{
    let after_lease = time_bytes(time) + tail;
    lemma_u64_round_trip(lease_id, after_lease);
    lemma_time_round_trip(time, tail);
    assert(wire::varint(lease_id as nat) + time_bytes(time) + tail =~= wire::varint(
        lease_id as nat,
    ) + after_lease);
}

/// The fields of a submission are read back.
proof fn lemma_submission_round_trip(
    queue: Seq<char>,
    payload: Seq<u8>,
    max_attempts: u32,
    time: i64,
    tail: Seq<u8>,
)
    requires
        vstd::utf8::encode_utf8(queue).len() <= usize::MAX,
        payload.len() <= usize::MAX,
    ensures
        take_submission(
            wire::byte_string(vstd::utf8::encode_utf8(queue)) + wire::byte_string(payload)
                + wire::varint(max_attempts as nat) + time_bytes(time) + tail,
        ) == Ok::<(Seq<char>, Seq<u8>, u32, i64), DecodeFailure>(
            (queue, payload, max_attempts, time),
        ),
{
    let name = wire::byte_string(vstd::utf8::encode_utf8(queue));
    let data = wire::byte_string(payload);
    let after_attempts = time_bytes(time) + tail;
    let after_payload = wire::varint(max_attempts as nat) + after_attempts;
    let after_queue = data + after_payload;
    wire::lemma_text_round_trip(queue, after_queue);
    lemma_skip_front(name, after_queue);
    wire::lemma_byte_string_round_trip(payload, after_payload);
    lemma_skip_front(data, after_payload);
    lemma_u32_round_trip(max_attempts, after_attempts);
    lemma_time_round_trip(time, tail);
    assert(name + data + wire::varint(max_attempts as nat) + time_bytes(time) + tail =~= name
        + after_queue);
}

/// A record is read back from the front of any longer payload.
pub proof fn lemma_record_round_trip(record: RecordView, tail: Seq<u8>)
    requires
        record.payload().len() <= usize::MAX,
    ensures
        take_record(record.payload() + tail) == Ok::<RecordView, DecodeFailure>(record),
{
    let variant = (record.tag() - 1) as u32;
    let after_id = record.fields() + tail;
    let after_variant = uuid_bytes(record.job()) + after_id;
    assert(record.payload() + tail =~= wire::varint(variant as nat) + after_variant);
    lemma_u32_round_trip(variant, after_variant);
    lemma_uuid_round_trip(record.job(), after_id);
    lemma_skip_front(uuid_bytes(record.job()), after_id);
    match record {
        RecordView::JobSubmitted { id, queue, payload, max_attempts, created_at } => {
            lemma_submission_round_trip(queue, payload, max_attempts, created_at, tail);
        },
        RecordView::JobLeased { id, lease_id, attempt, leased_at } => {
            lemma_attempt_round_trip(lease_id, attempt, leased_at, tail);
        },
        RecordView::JobRetryScheduled { id, lease_id, attempt, available_at } => {
            lemma_attempt_round_trip(lease_id, attempt, available_at, tail);
        },
        RecordView::JobCompleted { id, lease_id, completed_at } => {
            lemma_end_round_trip(lease_id, completed_at, tail);
        },
        RecordView::JobDead { id, lease_id, dead_at } => {
            lemma_end_round_trip(lease_id, dead_at, tail);
        },
        RecordView::JobCancelled { id, cancelled_at } => {
            lemma_time_round_trip(cancelled_at, tail);
        },
    }
}

/// A record other than a submission fits a frame with room to spare.
pub proof fn lemma_small_payload(record: RecordView)
    requires
        !(record is JobSubmitted),
    ensures
        record.payload().len() <= 64,
{
    wire::lemma_varint_limits();
    let none = Seq::<u8>::empty();
    wire::lemma_varint_round_trip((record.tag() - 1) as nat, none, 5, 15);
    bytes::lemma_byte_limits();
    bytes::lemma_be_round_trip(record.job() as nat, 16);
    wire::lemma_varint_round_trip(16, none, 5, 15);
    match record {
        RecordView::JobLeased { id, lease_id, attempt, leased_at } => {
            lemma_attempt_size(lease_id, attempt, leased_at);
        },
        RecordView::JobRetryScheduled { id, lease_id, attempt, available_at } => {
            lemma_attempt_size(lease_id, attempt, available_at);
        },
        RecordView::JobCompleted { id, lease_id, completed_at } => {
            lemma_attempt_size(lease_id, 0, completed_at);
        },
        RecordView::JobDead { id, lease_id, dead_at } => {
            lemma_attempt_size(lease_id, 0, dead_at);
        },
        RecordView::JobCancelled { id, cancelled_at } => {
            lemma_attempt_size(0, 0, cancelled_at);
        },
        _ => {},
    }
}

proof fn lemma_attempt_size(lease_id: u64, attempt: u32, time: i64)
    ensures
        wire::varint(lease_id as nat).len() <= 10,
        wire::varint(attempt as nat).len() <= 5,
        time_bytes(time).len() <= 10,
{
    wire::lemma_varint_limits();
    wire::lemma_zigzag_round_trip(time);
    let none = Seq::<u8>::empty();
    wire::lemma_varint_round_trip(lease_id as nat, none, 10, 1);
    wire::lemma_varint_round_trip(attempt as nat, none, 5, 15);
    wire::lemma_varint_round_trip(wire::zigzag(time as int), none, 10, 1);
}

} // verus!
