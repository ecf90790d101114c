//! The bytes of a log, one by one.

use crate::wal::bytes;
use crate::wal::codec;
use crate::wal::codec::FrameView;
use crate::wal::crc;
use crate::wal::error::WalFault;
use crate::wal::record;
use crate::wal::record::RecordView;
use crate::wal::scanner;
use crate::wal::scanner::{ScanResult, ScanView};
use crate::wal::wire;
use crate::wal::writer;
use vstd::arithmetic::power::pow;
use vstd::prelude::*;

verus! {

/// The base-256 digit of a number that counts `256^k`.
pub open spec fn digit(value: nat, k: nat) -> nat {
    (value as int / pow(256, k) % 256) as nat
}

/// Numbers are written digit by digit, the least significant first; or, in the
/// other order, the most significant first.
pub proof fn lemma_digits_in_order(value: nat, width: nat, k: nat)
    requires
        k < width,
    ensures
        bytes::le_bytes(value, width).len() == width,
        bytes::le_bytes(value, width)[k as int] == digit(value, k),
        bytes::be_bytes(value, width).len() == width,
        bytes::be_bytes(value, width)[width - 1 - k] == digit(value, k),
    decreases width,
{
    bytes::lemma_le_bytes_len(value, width);
    reveal(pow);
    if k == 0 {
        assert(pow(256, 0) == 1);
        assert(value as int / 1 == value);
    } else {
        let low = (k - 1) as nat;
        lemma_digits_in_order(value / 256, (width - 1) as nat, low);
        vstd::arithmetic::power::lemma_pow_positive(256, low);
        vstd::arithmetic::div_mod::lemma_div_denominator(value as int, 256, pow(256, low));
        assert(pow(256, k) == 256 * pow(256, low));
        assert(bytes::le_bytes(value, width)[k as int] == bytes::le_bytes(
            value / 256,
            (width - 1) as nat,
        )[low as int]);
    }
}

/// Four bytes are read as the number whose digits they are, the first the least
/// significant.
pub proof fn lemma_four_bytes(buf: Seq<u8>)
    requires
        buf.len() >= 4,
    ensures
        codec::announced_len(buf) == buf[0] + 0x100 * buf[1] + 0x1_0000 * buf[2] + 0x100_0000
            * buf[3],
{
    let front = buf.take(4);
    let one = front.skip(1);
    let two = one.skip(1);
    let three = two.skip(1);
    let four = three.skip(1);
    assert(four.len() == 0);
    assert(bytes::le_value(four) == 0);
    assert(bytes::le_value(three) == buf[3]);
    assert(bytes::le_value(two) == buf[2] + 256 * buf[3]);
    assert(bytes::le_value(one) == buf[1] + 256 * (buf[2] + 256 * buf[3]));
}

/// A log begins with ten fixed bytes: the letters `RDQUEUE`, a zero byte, and the
/// version. Other letters make it no log at all, and another version is named.
pub proof fn lemma_header_is_fixed(buf: Seq<u8>)
    requires
        buf.len() >= 10,
    ensures
        codec::log_header() == seq![0x52u8, 0x44, 0x51, 0x55, 0x45, 0x55, 0x45, 0x00, 0x01, 0x00],
        ({
            let magic = seq![0x52u8, 0x44, 0x51, 0x55, 0x45, 0x55, 0x45, 0x00];
            let version = buf[8] + 0x100 * buf[9];
            &&& buf.take(8) != magic ==> codec::header_fault(buf) == Some(
                WalFault::InvalidWalHeader,
            )
            &&& buf.take(8) == magic && version != 1 ==> codec::header_fault(buf) == Some(
                WalFault::UnsupportedWalVersion(version as u16),
            )
            &&& buf.take(8) == magic && version == 1 ==> codec::header_fault(buf) is None
        }),
{
    let magic = seq![0x52u8, 0x44, 0x51, 0x55, 0x45, 0x55, 0x45, 0x00];
    assert(codec::WAL_MAGIC@ =~= magic);
    reveal_with_fuel(bytes::le_bytes, 3);
    assert(bytes::le_bytes(1, 2) =~= seq![1u8, 0u8]);
    assert(codec::log_header() =~= magic + seq![1u8, 0u8]);
    let back = buf.subrange(8, 10);
    let one = back.skip(1);
    let two = one.skip(1);
    assert(bytes::le_value(two) == 0);
    assert(bytes::le_value(one) == buf[9]);
    assert(bytes::le_value(back) == buf[8] + 256 * buf[9]);
}

/// A frame holds the length of its payload, a one, the number of its kind of
/// record, its sequence number, the payload, and the checksum of all of that, and
/// nothing else. Numbers begin with the least significant byte.
pub proof fn lemma_frame_is_laid_out(frame: FrameView)
    ensures
        frame.fits() <==> frame.record.payload().len() <= 1_048_576,
        ({
            let e = frame.encoding();
            let n = frame.record.payload().len();
            let sum = crc::crc32(e.take(14 + n as int));
            &&& e.len() == 18 + n
            &&& forall|k: nat| k < 4 ==> e[#[trigger] (0 + k) as int] == digit(n, k)
            &&& e[4] == 1
            &&& frame.record is JobSubmitted ==> e[5] == 1
            &&& frame.record is JobLeased ==> e[5] == 2
            &&& frame.record is JobRetryScheduled ==> e[5] == 3
            &&& frame.record is JobCompleted ==> e[5] == 4
            &&& frame.record is JobDead ==> e[5] == 5
            &&& frame.record is JobCancelled ==> e[5] == 6
            &&& forall|k: nat|
                k < 8 ==> e[#[trigger] (6 + k) as int] == digit(frame.sequence as nat, k)
            &&& e.subrange(14, 14 + n as int) == frame.record.payload()
            &&& forall|k: nat|
                k < 4 ==> e[#[trigger] (14 + n + k) as int] == digit(sum as nat, k)
        }),
{
    let e = frame.encoding();
    let n = frame.record.payload().len();
    let sum = crc::crc32(frame.body());
    bytes::lemma_le_bytes_len(n, 4);
    bytes::lemma_le_bytes_len(frame.sequence as nat, 8);
    bytes::lemma_le_bytes_len(sum as nat, 4);
    assert(frame.body().len() == 14 + n);
    assert(e.take(14 + n as int) =~= frame.body());
    assert(e.subrange(14, 14 + n as int) =~= frame.record.payload());
    assert forall|k: nat| k < 4 implies e[#[trigger] (0 + k) as int] == digit(n, k) by {
        lemma_digits_in_order(n, 4, k);
        assert(e[k as int] == bytes::le_bytes(n, 4)[k as int]);
    }
    assert forall|k: nat| k < 8 implies e[#[trigger] (6 + k) as int] == digit(
        frame.sequence as nat,
        k,
    ) by {
        lemma_digits_in_order(frame.sequence as nat, 8, k);
        assert(e[6 + k as int] == bytes::le_bytes(frame.sequence as nat, 8)[k as int]);
    }
    assert forall|k: nat| k < 4 implies e[#[trigger] (14 + n + k) as int] == digit(
        sum as nat,
        k,
    ) by {
        lemma_digits_in_order(sum as nat, 4, k);
        assert(e[14 + n as int + k as int] == bytes::le_bytes(sum as nat, 4)[k as int]);
    }
}

/// The front of every payload: the index of the kind of record, then sixteen bytes
/// with the job's identifier, the most significant first.
pub open spec fn begins(payload: Seq<u8>, index: u8, id: u128) -> bool {
    &&& payload.len() >= 18
    &&& payload[0] == index
    &&& payload[1] == 16
    &&& forall|k: nat| k < 16 ==> payload[#[trigger] (17 - k) as int] == digit(id as nat, k)
}

/// A time in a payload.
pub open spec fn time(millis: i64) -> Seq<u8> {
    wire::varint(
        (if millis >= 0 {
            2 * millis
        } else {
            -2 * millis - 1
        }) as nat,
    )
}

/// A payload names the kind of the record and its job, and then holds, in this
/// order, what else the record says: for a submission the queue, the payload of the
/// job, the attempts and the time; for a lease and a retry the lease, the attempt and
/// the time; for an end the lease and the time; for a cancellation the time.
pub proof fn lemma_payload_is_laid_out(r: RecordView)
    ensures
        ({
            let p = r.payload();
            let rest = p.skip(18);
            match r {
                RecordView::JobSubmitted { id, queue, payload, max_attempts, created_at } => begins(
                    p,
                    0,
                    id,
                ) && rest == wire::byte_string(vstd::utf8::encode_utf8(queue)) + wire::byte_string(
                    payload,
                ) + wire::varint(max_attempts as nat) + time(created_at),
                RecordView::JobLeased { id, lease_id, attempt, leased_at } => begins(p, 1, id)
                    && rest == wire::varint(lease_id as nat) + wire::varint(attempt as nat) + time(
                    leased_at,
                ),
                RecordView::JobRetryScheduled { id, lease_id, attempt, available_at } => begins(
                    p,
                    2,
                    id,
                ) && rest == wire::varint(lease_id as nat) + wire::varint(attempt as nat) + time(
                    available_at,
                ),
                RecordView::JobCompleted { id, lease_id, completed_at } => begins(p, 3, id) && rest
                    == wire::varint(lease_id as nat) + time(completed_at),
                RecordView::JobDead { id, lease_id, dead_at } => begins(p, 4, id) && rest
                    == wire::varint(lease_id as nat) + time(dead_at),
                RecordView::JobCancelled { id, cancelled_at } => begins(p, 5, id) && rest == time(
                    cancelled_at,
                ),
            }
        }),
{
    let p = r.payload();
    let id = bytes::be_bytes(r.job() as nat, 16);
    lemma_digits_in_order(r.job() as nat, 16, 0);
    assert(wire::varint(16) =~= seq![16u8]);
    assert(wire::varint((r.tag() - 1) as nat) =~= seq![(r.tag() - 1) as u8]);
    assert(record::uuid_bytes(r.job()) =~= seq![16u8] + id);
    assert(p.skip(18) =~= r.fields());
    assert forall|k: nat| k < 16 implies p[#[trigger] (17 - k) as int] == digit(
        r.job() as nat,
        k,
    ) by {
        lemma_digits_in_order(r.job() as nat, 16, k);
        assert(p[17 - k] == id[15 - k]);
    }
}

/// How a frame is judged: what is too short for any frame, or for the payload that
/// it announces, ends in the middle of one; too long a payload, another version and
/// a checksum that is not that of the bytes are each named; and a frame that is read
/// ends where its checksum does.
pub proof fn lemma_frames_are_judged(buf: Seq<u8>)
    ensures
        ({
            let n = buf[0] + 0x100 * buf[1] + 0x1_0000 * buf[2] + 0x100_0000 * buf[3];
            let sum = crc::crc32(buf.take(14 + n));
            let read = codec::first_frame(buf);
            &&& buf.len() < 18 ==> read is Err && read->Err_0 == WalFault::TruncatedFrame
            &&& buf.len() >= 18 && n > 1_048_576 ==> read is Err && read->Err_0
                == WalFault::RecordTooLarge(n as nat)
            &&& buf.len() >= 18 && n <= 1_048_576 && buf.len() < 18 + n ==> read is Err
                && read->Err_0 == WalFault::TruncatedFrame
            &&& buf.len() >= 18 + n && n <= 1_048_576 && buf[4] != 1 ==> read is Err && read->Err_0
                == WalFault::UnsupportedRecordVersion(buf[4])
            &&& buf.len() >= 18 + n && n <= 1_048_576 && buf[4] == 1 ==> {
                &&& read is Err ==> read->Err_0 is ChecksumMismatch || read->Err_0 is Serialization
                &&& read is Err && read->Err_0 is ChecksumMismatch <==> bytes::le_value(
                    buf.subrange(14 + n, 18 + n),
                ) != sum
                &&& read is Err && read->Err_0 is ChecksumMismatch ==> {
                    &&& read->Err_0->ChecksumMismatch_expected == bytes::le_value(
                        buf.subrange(14 + n, 18 + n),
                    )
                    &&& read->Err_0->ChecksumMismatch_computed == sum
                }
                &&& read is Err && read->Err_0 is Serialization ==> {
                    let failed = record::take_record(buf.subrange(14, 14 + n));
                    failed is Err && read->Err_0 == WalFault::Serialization(
                        failed->Err_0.message(),
                    )
                }
                &&& read is Ok ==> {
                    &&& read->Ok_0.1 == 18 + n
                    &&& read->Ok_0.0.sequence == bytes::le_value(buf.subrange(6, 14))
                    &&& Ok::<RecordView, wire::DecodeFailure>(read->Ok_0.0.record)
                        == record::take_record(buf.subrange(14, 14 + n))
                }
            }
        }),
{
    reveal(codec::read_frame);
    if buf.len() >= 18 {
        lemma_four_bytes(buf);
        let n = codec::announced_len(buf);
        bytes::lemma_byte_limits();
        bytes::lemma_le_value_bound(buf.subrange(6, 14));
        if buf.len() >= 18 + n {
            bytes::lemma_le_value_bound(buf.subrange(14 + n as int, 18 + n as int));
        }
    }
}

/// What no payload may be: nothing at all, a kind of record that there is not, or an
/// identifier of another length than sixteen bytes.
pub proof fn lemma_payloads_are_judged(input: Seq<u8>)
    ensures
        ({
            let read = record::take_record(input);
            &&& input.len() == 0 ==> read is Err && read->Err_0
                == wire::DecodeFailure::UnexpectedEnd
            &&& input.len() > 0 && 6 <= input[0] < 128 ==> read is Err && read->Err_0
                == wire::DecodeFailure::BadValue
            &&& input.len() == 1 && input[0] < 6 ==> read is Err && read->Err_0
                == wire::DecodeFailure::UnexpectedEnd
            &&& input.len() > 1 && input[0] < 6 && input[1] < 128 && input[1] != 16 && input.len()
                >= 2 + input[1] ==> read is Err && read->Err_0 == wire::DecodeFailure::BadValue
            &&& input.len() > 1 && input[0] < 6 && input[1] < 128 && input.len() < 2 + input[1]
                ==> read is Err && read->Err_0 == wire::DecodeFailure::UnexpectedEnd
        }),
{
    if input.len() > 0 && input[0] < 128 {
        assert(wire::take_varint_32(input) == Ok::<(nat, nat), wire::DecodeFailure>(
            (input[0] as nat, 1),
        ));
        let rest = input.skip(1);
        if rest.len() > 0 {
            assert(rest[0] == input[1]);
            if rest[0] < 128 {
                assert(wire::take_varint_32(rest) == Ok::<(nat, nat), wire::DecodeFailure>(
                    (rest[0] as nat, 1),
                ));
                assert(wire::take_varint_64(rest) == Ok::<(nat, nat), wire::DecodeFailure>(
                    (rest[0] as nat, 1),
                ));
            }
        }
    }
}

/// What keeps the first of several fields from being read, in turn.
pub open spec fn first_failure(
    first: Option<wire::DecodeFailure>,
    rest: Option<wire::DecodeFailure>,
) -> Option<wire::DecodeFailure> {
    if first is Some {
        first
    } else {
        rest
    }
}

/// Why something could not be read, if it could not.
pub open spec fn failure<T>(read: Result<T, wire::DecodeFailure>) -> Option<wire::DecodeFailure> {
    match read {
        Ok(_) => None,
        Err(failure) => Some(failure),
    }
}

/// The fields of a record are read in turn, each behind the one before, and the first
/// that cannot be read is what the payload is refused for: the lease, the attempt and
/// the time of a lease or a retry, the lease and the time of an end, and the time of
/// a cancellation.
pub proof fn lemma_fields_are_read_in_turn(variant: nat, id: u128, input: Seq<u8>)
    requires
        1 <= variant <= 5,
    ensures
        ({
            let read = failure(record::take_fields(variant, id, input));
            let lease = wire::take_varint_64(input);
            let behind = input.skip(lease->Ok_0.1 as int);
            let attempt = wire::take_varint_32(behind);
            let last = behind.skip(attempt->Ok_0.1 as int);
            &&& variant <= 2 ==> read == first_failure(
                failure(lease),
                first_failure(failure(attempt), failure(wire::take_varint_64(last))),
            )
            &&& 3 <= variant <= 4 ==> read == first_failure(
                failure(lease),
                failure(wire::take_varint_64(behind)),
            )
            &&& variant == 5 ==> read == failure(lease)
        }),
{
}

/// A scan reports the records that it found, how many there are, the largest epoch
/// of their leases, and where their frames end behind the header.
pub proof fn lemma_scans_report_what_they_found(result: ScanResult, contents: Seq<u8>)
    requires
        scanner::scan_log(contents) is Ok,
        result.reports(scanner::scan_log(contents)->Ok_0),
    ensures
        ({
            let found = scanner::scan_log(contents)->Ok_0;
            &&& result.records@.len() == found.records.len()
            &&& forall|i: int|
                0 <= i < found.records.len() ==> (#[trigger] result.records@[i])@
                    == found.records[i]
            &&& result.last_sequence == found.records.len()
            &&& result.max_lease_epoch == scanner::max_epoch(found.records)
            &&& result.had_truncated_tail == found.truncated
            &&& contents.len() > 0 && !found.truncated ==> 10 + result.last_valid_offset
                == contents.len()
            &&& found.truncated ==> 10 + result.last_valid_offset < contents.len()
        }),
{
    let found = scanner::scan_log(contents)->Ok_0;
    assert(scanner::record_views(result.records@).len() == result.records@.len());
    assert forall|i: int| 0 <= i < found.records.len() implies (#[trigger] result.records@[i])@
        == found.records[i] by {
        assert(scanner::record_views(result.records@)[i] == result.records@[i]@);
    }
    if found.truncated {
        scanner::lemma_repair_leaves_clean_log(contents);
    } else if contents.len() > 0 {
        let rest = contents.skip(10);
        scanner::lemma_scan_continues(rest, Seq::empty(), 1);
    }
}

/// Sequence numbers follow one another without a gap, and the largest is never used.
pub proof fn lemma_sequence_numbers_follow(expected: u64, got: u64)
    ensures
        scanner::sequence_fault(expected as int, got) is None <==> got == expected && got
            < u64::MAX,
        got != expected ==> scanner::sequence_fault(expected as int, got) == Some(
            WalFault::SequenceViolation { expected, got },
        ),
        got == expected == u64::MAX ==> scanner::sequence_fault(expected as int, got) == Some(
            WalFault::SequenceViolation { expected: u64::MAX, got: 0 },
        ),
{
}

/// A log without a byte holds nothing. One that ends inside its header, or whose
/// header is wrong, cannot be read; and bytes that end inside a frame are the end
/// of a log that was cut off.
pub proof fn lemma_logs_are_judged(contents: Seq<u8>, buf: Seq<u8>)
    ensures
        contents.len() == 0 ==> scanner::scan_log(contents) == Ok::<ScanView, WalFault>(
            ScanView { records: Seq::empty(), used: 0, truncated: false },
        ),
        0 < contents.len() < 10 ==> scanner::scan_log(contents) == Err::<ScanView, WalFault>(
            WalFault::InvalidWalHeader,
        ),
        contents.len() >= 10 && codec::header_fault(contents) is Some ==> scanner::scan_log(
            contents,
        ) == Err::<ScanView, WalFault>(codec::header_fault(contents)->Some_0),
        ({
            let n = buf[0] + 0x100 * buf[1] + 0x1_0000 * buf[2] + 0x100_0000 * buf[3];
            scanner::unfinished(buf) <==> buf.len() < 4 || (n <= 1_048_576 && buf.len() < 18 + n)
        }),
{
    if buf.len() >= 4 {
        lemma_four_bytes(buf);
    }
}

/// A record can be written while a number is left for the next one and its payload
/// fits a frame, and is then written as the frame of that number. The numbers of a
/// new log begin with one.
pub proof fn lemma_writes_are_judged(next: u64, r: RecordView)
    ensures
        writer::next_sequence(Seq::empty()) == Ok::<u64, WalFault>(1),
        writer::append_fault(next, r) is None <==> next < u64::MAX && r.payload().len()
            <= 1_048_576,
        next == u64::MAX ==> writer::append_fault(next, r) == Some(WalFault::SequenceExhausted),
        next < u64::MAX && r.payload().len() > 1_048_576 ==> writer::append_fault(next, r) == Some(
            WalFault::RecordTooLarge(r.payload().len()),
        ),
        writer::append_fault(next, r) is None ==> codec::first_frame(writer::appended(next, r))
            == Ok::<(FrameView, nat), WalFault>(
            (FrameView { sequence: next, record: r }, writer::appended(next, r).len()),
        ),
{
    let frame = FrameView { sequence: next, record: r };
    if frame.fits() {
        codec::lemma_frame_round_trip(frame, Seq::empty());
        assert(frame.encoding() + Seq::<u8>::empty() =~= frame.encoding());
    }
}

/// A log is continued behind the largest of its numbers, as far as there is a number
/// behind it. One with a wrong header is not continued, nor is one with a frame that
/// is wrong rather than cut off.
pub proof fn lemma_logs_are_continued(contents: Seq<u8>, bad: Seq<u8>)
    requires
        contents.len() > 0,
    ensures
        ({
            let next = writer::next_sequence(contents);
            let highest = writer::highest_sequence(contents.skip(10));
            let headed = contents.len() >= 10 && codec::header_fault(contents) is None;
            &&& contents.len() < 10 ==> next == Err::<u64, WalFault>(WalFault::InvalidWalHeader)
            &&& contents.len() >= 10 && !headed ==> next == Err::<u64, WalFault>(
                codec::header_fault(contents)->Some_0,
            )
            &&& headed && highest is Err ==> next == Err::<u64, WalFault>(highest->Err_0)
            &&& headed && highest is Ok && highest->Ok_0 == u64::MAX ==> next == Err::<
                u64,
                WalFault,
            >(WalFault::SequenceExhausted)
            &&& headed && highest is Ok && highest->Ok_0 < u64::MAX ==> next is Ok && next->Ok_0
                == highest->Ok_0 + 1
        }),
        bad.len() > 0 && codec::first_frame(bad) is Err ==> ({
            let fault = codec::first_frame(bad)->Err_0;
            let highest = writer::highest_sequence(bad);
            &&& fault == WalFault::TruncatedFrame ==> highest == Ok::<u64, WalFault>(0)
            &&& fault != WalFault::TruncatedFrame ==> highest == Err::<u64, WalFault>(fault)
        }),
{
}

/// The largest number of a log's frames is that of the first, unless one of the
/// others has a larger one.
pub proof fn lemma_largest_number(frame: FrameView, rest: Seq<u8>)
    requires
        frame.fits(),
        writer::highest_sequence(rest) is Ok,
    ensures
        ({
            let largest = writer::highest_sequence(frame.encoding() + rest);
            &&& largest is Ok
            &&& largest->Ok_0 >= frame.sequence
            &&& largest->Ok_0 >= writer::highest_sequence(rest)->Ok_0
            &&& largest->Ok_0 == frame.sequence || largest->Ok_0 == writer::highest_sequence(
                rest,
            )->Ok_0
        }),
        writer::highest_sequence(Seq::empty()) == Ok::<u64, WalFault>(0),
{
    let buf = frame.encoding() + rest;
    codec::lemma_frame_round_trip(frame, rest);
    codec::lemma_frame_size(buf);
    assert(buf.skip(frame.encoding().len() as int) =~= rest);
}

} // verus!
