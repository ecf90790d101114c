//! Reading a log from its first frame to its last.

use crate::wal::bytes;
use crate::wal::codec;
use crate::wal::codec::{
    FrameView, WalFrame, WalHeader, FRAME_OVERHEAD, HEADER_SIZE, MAX_RECORD_SIZE,
};
use crate::wal::error::{WalError, WalFault, WalResult};
use crate::wal::record::{RecordView, WalRecord};
use vstd::prelude::*;

verus! {

/// What a scan of a log found.
#[derive(Debug, PartialEq, Eq)]
pub struct ScanResult {
    /// The records, in order.
    pub records: Vec<WalRecord>,
    /// The last sequence number, 0 if there is no record.
    pub last_sequence: u64,
    /// The largest lease epoch, 0 if there is none.
    pub max_lease_epoch: u64,
    /// Where the last whole frame ends, counted from the end of the header.
    pub last_valid_offset: u64,
    /// Whether the log ends inside a frame.
    pub had_truncated_tail: bool,
}

/// What a scan found: the records, the bytes of their frames, and whether an
/// unfinished frame follows them.
#[verifier::ext_equal]
pub struct ScanView {
    pub records: Seq<RecordView>,
    pub used: nat,
    pub truncated: bool,
}

/// What records hold.
pub open spec fn record_views(records: Seq<WalRecord>) -> Seq<RecordView> {
    records.map_values(|r: WalRecord| r@)
}

/// The lease epoch that a record brings in, 0 if it brings none.
pub open spec fn leased_epoch(record: RecordView) -> u64 {
    match record {
        RecordView::JobLeased { lease_id, .. } => lease_id,
        _ => 0,
    }
}

/// The largest lease epoch among records, 0 if there is none.
pub open spec fn max_epoch(records: Seq<RecordView>) -> u64
    decreases records.len(),
{
    if records.len() == 0 {
        0
    } else {
        let before = max_epoch(records.drop_last());
        let last = leased_epoch(records.last());
        if last > before {
            last
        } else {
            before
        }
    }
}

impl ScanResult {
    /// Whether this is the outcome of a scan that found what the view says.
    pub open spec fn reports(self, view: ScanView) -> bool {
        &&& record_views(self.records@) == view.records
        &&& self.last_sequence == view.records.len()
        &&& self.max_lease_epoch == max_epoch(view.records)
        &&& self.last_valid_offset == view.used
        &&& self.had_truncated_tail == view.truncated
    }

    /// A scan that found nothing.
    fn empty() -> (result: Self)
        ensures
            result.reports(ScanView { records: Seq::empty(), used: 0, truncated: false }),
    {
        let result = ScanResult {
            records: Vec::new(),
            last_sequence: 0,
            max_lease_epoch: 0,
            last_valid_offset: 0,
            had_truncated_tail: false,
        };
        assert(record_views(result.records@) =~= Seq::empty());
        result
    }

    /// Takes the next frame, of the given size, into the result. A frame that
    /// does not carry the next sequence number is refused, and so is one that
    /// leaves no sequence number to follow it.
    pub fn accept(&mut self, frame: WalFrame, size: u64) -> (outcome: WalResult<()>)
        requires
            old(self).last_sequence < u64::MAX,
            old(self).last_valid_offset + size <= u64::MAX,
        ensures
            match sequence_fault(old(self).last_sequence + 1, frame.sequence) {
                Some(fault) => outcome matches Err(error) && error@ == fault && *final(self)
                    == *old(self),
                None => {
                    &&& outcome is Ok
                    &&& final(self).records@ == old(self).records@.push(frame.record)
                    &&& final(self).last_sequence == frame.sequence
                    &&& final(self).max_lease_epoch == (if leased_epoch(frame.record@) > old(self).max_lease_epoch {
                        leased_epoch(frame.record@)
                    } else {
                        old(self).max_lease_epoch
                    })
                    &&& final(self).last_valid_offset == old(self).last_valid_offset + size
                    &&& final(self).had_truncated_tail == old(self).had_truncated_tail
                },
            },
    {
        let expected: u64 = self.last_sequence + 1;
        if frame.sequence != expected {
            return Err(WalError::SequenceViolation { expected, got: frame.sequence });
        }
        if expected == u64::MAX {
            return Err(WalError::SequenceViolation { expected: u64::MAX, got: 0 });
        }
        if let WalRecord::JobLeased { lease_id, .. } = &frame.record {
            if lease_id.epoch() > self.max_lease_epoch {
                self.max_lease_epoch = lease_id.epoch();
            }
        }
        self.last_sequence = frame.sequence;
        self.last_valid_offset = self.last_valid_offset + size;
        self.records.push(frame.record);
        Ok(())
    }
}

/// What is wrong with a frame's sequence number, if anything is.
pub open spec fn sequence_fault(expected: int, got: u64) -> Option<WalFault> {
    if got != expected {
        Some(WalFault::SequenceViolation { expected: expected as u64, got })
    } else if got == u64::MAX {
        Some(WalFault::SequenceViolation { expected: u64::MAX, got: 0 })
    } else {
        None
    }
}

/// Whether bytes end before the frame that they begin does.
pub open spec fn unfinished(buf: Seq<u8>) -> bool {
    buf.len() < 4 || (codec::announced_len(buf) <= MAX_RECORD_SIZE && buf.len() < FRAME_OVERHEAD
        + codec::announced_len(buf))
}

/// Puts records that were read earlier, from `used` bytes, in front of what the
/// rest of a scan gives.
pub open spec fn after(
    records: Seq<RecordView>,
    used: nat,
    rest: Result<ScanView, WalFault>,
) -> Result<ScanView, WalFault> {
    match rest {
        Err(fault) => Err(fault),
        Ok(view) => Ok(
            ScanView {
                records: records + view.records,
                used: used + view.used,
                truncated: view.truncated,
            },
        ),
    }
}

/// Reads frame after frame, the first of which must carry the sequence number
/// `expected`, until the bytes end or something is wrong.
pub open spec fn scan(buf: Seq<u8>, expected: nat) -> Result<ScanView, WalFault>
    decreases buf.len(),
{
    if buf.len() == 0 {
        Ok(ScanView { records: Seq::empty(), used: 0, truncated: false })
    } else if unfinished(buf) {
        Ok(ScanView { records: Seq::empty(), used: 0, truncated: true })
    } else if codec::announced_len(buf) > MAX_RECORD_SIZE {
        Err(WalFault::RecordTooLarge(codec::announced_len(buf)))
    } else {
        match codec::first_frame(buf) {
            Err(fault) => Err(fault),
            Ok((frame, size)) => match sequence_fault(expected as int, frame.sequence) {
                Some(fault) => Err(fault),
                None => if size == 0 || size > buf.len() {
                    Err(WalFault::TruncatedFrame)
                } else {
                    after(seq![frame.record], size, scan(buf.skip(size as int), expected + 1))
                },
            },
        }
    }
}

/// Reads a whole log. Nothing at all is an empty log; anything else begins with
/// a header.
pub open spec fn scan_log(contents: Seq<u8>) -> Result<ScanView, WalFault> {
    if contents.len() == 0 {
        Ok(ScanView { records: Seq::empty(), used: 0, truncated: false })
    } else if contents.len() < HEADER_SIZE {
        Err(WalFault::InvalidWalHeader)
    } else {
        match codec::header_fault(contents) {
            Some(fault) => Err(fault),
            None => scan(contents.skip(HEADER_SIZE as int), 1),
        }
    }
}

/// Scans the contents of a log file.
pub fn scan_wal(contents: &[u8]) -> (result: WalResult<ScanResult>)
    ensures
        match scan_log(contents@) {
            Ok(view) => result matches Ok(r) && r.reports(view),
            Err(fault) => result matches Err(error) && error@ == fault,
        },
{
    if contents.len() == 0 {
        return Ok(ScanResult::empty());
    }
    if contents.len() < HEADER_SIZE {
        return Err(WalError::InvalidWalHeader);
    }
    let header: [u8; HEADER_SIZE] = [
        contents[0],
        contents[1],
        contents[2],
        contents[3],
        contents[4],
        contents[5],
        contents[6],
        contents[7],
        contents[8],
        contents[9],
    ];
    proof {
        assert(header@ =~= contents@.take(10));
        assert(header@.take(8) =~= contents@.take(8));
        assert(header@.subrange(8, 10) =~= contents@.subrange(8, 10));
        assert(contents@.subrange(10, contents@.len() as int) =~= contents@.skip(10));
    }
    match WalHeader::decode(&header) {
        Err(error) => Err(error),
        Ok(_) => scan_frames(&contents[HEADER_SIZE..contents.len()]),
    }
}

/// Scans the frames of a log, which is what follows its header.
pub fn scan_frames(buf: &[u8]) -> (result: WalResult<ScanResult>)
    ensures
        match scan(buf@, 1) {
            Ok(view) => result matches Ok(r) && r.reports(view),
            Err(fault) => result matches Err(error) && error@ == fault,
        },
{
    let total: usize = buf.len();
    let mut result = ScanResult::empty();
    let mut offset: usize = 0;
    proof {
        assert(buf@.skip(0) =~= buf@);
        lemma_after_nothing(scan(buf@, 1));
    }
    while offset < total
        invariant
            offset <= total == buf@.len(),
            record_views(result.records@).len() == result.records@.len(),
            result.reports(
                ScanView {
                    records: record_views(result.records@),
                    used: offset as nat,
                    truncated: false,
                },
            ),
            result.last_sequence < u64::MAX,
            scan(buf@, 1) == after(
                record_views(result.records@),
                offset as nat,
                scan(buf@.skip(offset as int), result.records@.len() + 1),
            ),
        decreases total - offset,
    {
        let remaining = &buf[offset..total];
        let ghost rest = buf@.skip(offset as int);
        let ghost before = record_views(result.records@);
        assert(remaining@ =~= rest);
        if remaining.len() < 4 {
            result.had_truncated_tail = true;
            assert(before + Seq::<RecordView>::empty() =~= before);
            return Ok(result);
        }
        let wide: u128 = bytes::read_le(remaining, 0, 4);
        proof {
            bytes::lemma_le_value_bound(rest.subrange(0, 4));
            bytes::lemma_byte_limits();
            assert(rest.subrange(0, 4) =~= rest.take(4));
        }
        let payload_len: u32 = wide as u32;
        if payload_len > MAX_RECORD_SIZE {
            return Err(WalError::RecordTooLarge(payload_len as usize));
        }
        if remaining.len() < FRAME_OVERHEAD + payload_len as usize {
            result.had_truncated_tail = true;
            assert(before + Seq::<RecordView>::empty() =~= before);
            return Ok(result);
        }
        match WalFrame::decode(remaining) {
            Err(error) => {
                return Err(error);
            },
            Ok((frame, consumed)) => {
                proof {
                    codec::lemma_frame_size(rest);
                }
                let ghost taken = frame.record@;
                match result.accept(frame, consumed as u64) {
                    Err(error) => {
                        return Err(error);
                    },
                    Ok(()) => {},
                }
                proof {
                    let now = record_views(result.records@);
                    assert(now =~= before.push(taken));
                    assert(now.drop_last() =~= before);
                    lemma_after_twice(
                        before,
                        offset as nat,
                        taken,
                        consumed as nat,
                        scan(rest.skip(consumed as int), (before.len() + 2) as nat),
                    );
                    assert(rest.skip(consumed as int) =~= buf@.skip((offset + consumed) as int));
                }
                offset = offset + consumed;
            },
        }
    }
    assert(buf@.skip(offset as int).len() == 0);
    assert(record_views(result.records@) + Seq::<RecordView>::empty() =~= record_views(
        result.records@,
    ));
    Ok(result)
}

/// How long a log of `file_len` bytes must become so that it ends where its last
/// whole frame ends; `None` if nothing is to be cut.
pub fn repaired_len(file_len: u64, last_valid_offset: u64) -> (len: Option<u64>)
    requires
        HEADER_SIZE + last_valid_offset <= u64::MAX,
    ensures
        len == (if file_len <= HEADER_SIZE + last_valid_offset {
            None
        } else {
            Some((HEADER_SIZE + last_valid_offset) as u64)
        }),
{
    let expected_len: u64 = HEADER_SIZE as u64 + last_valid_offset;
    if file_len <= expected_len {
        None
    } else {
        Some(expected_len)
    }
}

/// Cuts the contents of a log back to where its last whole frame ends. Returns
/// whether anything was cut.
pub fn repair_truncated_tail(contents: &mut Vec<u8>, last_valid_offset: u64) -> (repaired: bool)
    requires
        HEADER_SIZE + last_valid_offset <= u64::MAX,
    ensures
        repaired == (old(contents)@.len() > HEADER_SIZE + last_valid_offset),
        repaired ==> final(contents)@ == old(contents)@.take(HEADER_SIZE + last_valid_offset),
        !repaired ==> final(contents)@ == old(contents)@,
{
    match repaired_len(contents.len() as u64, last_valid_offset) {
        None => false,
        Some(len) => {
            contents.truncate(len as usize);
            assert(contents@ =~= old(contents)@.take(HEADER_SIZE + last_valid_offset));
            true
        },
    }
}

/// The frames of a log that holds the given records, numbered from `first`.
pub open spec fn frames(records: Seq<RecordView>, first: nat) -> Seq<u8>
    decreases records.len(),
{
    if records.len() == 0 {
        Seq::empty()
    } else {
        (FrameView { sequence: first as u64, record: records[0] }).encoding() + frames(
            records.skip(1),
            first + 1,
        )
    }
}

/// A log that holds the given records.
pub open spec fn log_of(records: Seq<RecordView>) -> Seq<u8> {
    codec::log_header() + frames(records, 1)
}

/// Whether every record fits a frame.
pub open spec fn all_fit(records: Seq<RecordView>) -> bool {
    forall|i: int| 0 <= i < records.len() ==> (#[trigger] records[i]).payload().len() <= MAX_RECORD_SIZE
}

proof fn lemma_after_nothing(rest: Result<ScanView, WalFault>)
    ensures
        after(Seq::empty(), 0, rest) == rest,
{
    if let Ok(view) = rest {
        assert(Seq::<RecordView>::empty() + view.records =~= view.records);
    }
}

proof fn lemma_after_twice(
    before: Seq<RecordView>,
    used: nat,
    record: RecordView,
    size: nat,
    rest: Result<ScanView, WalFault>,
)
    ensures
        after(before, used, after(seq![record], size, rest)) == after(
            before.push(record),
            used + size,
            rest,
        ),
{
    if let Ok(view) = rest {
        assert(before + (seq![record] + view.records) =~= before.push(record) + view.records);
    }
}

/// A frame that can be read is read from its own bytes alone.
proof fn lemma_frame_prefix(buf: Seq<u8>, len: int)
    requires
        codec::first_frame(buf) is Ok,
        codec::first_frame(buf)->Ok_0.1 <= len <= buf.len(),
    ensures
        FRAME_OVERHEAD <= codec::first_frame(buf)->Ok_0.1 <= buf.len(),
        codec::first_frame(buf)->Ok_0.1 == FRAME_OVERHEAD + codec::announced_len(buf),
        codec::announced_len(buf) <= MAX_RECORD_SIZE,
        codec::first_frame(buf.take(len)) == codec::first_frame(buf),
        codec::announced_len(buf.take(len)) == codec::announced_len(buf),
{
    reveal(codec::read_frame);
    let n = codec::announced_len(buf);
    let cut = buf.take(len);
    assert(cut.take(4) =~= buf.take(4));
    assert(codec::covered(cut) =~= codec::covered(buf));
    assert(cut.subrange(6, 14) =~= buf.subrange(6, 14));
    assert(cut.subrange(14, 14 + n as int) =~= buf.subrange(14, 14 + n as int));
    assert(cut.subrange(14 + n as int, 18 + n as int) =~= buf.subrange(
        14 + n as int,
        18 + n as int,
    ));
}

/// A scan goes on behind frames that it read to their end: whatever follows them
/// is read as it would be alone, with the next sequence number.
pub proof fn lemma_scan_continues(buf: Seq<u8>, more: Seq<u8>, expected: nat)
    requires
        scan(buf, expected) is Ok,
        !scan(buf, expected)->Ok_0.truncated,
    ensures
        scan(buf + more, expected) == after(
            scan(buf, expected)->Ok_0.records,
            buf.len(),
            scan(more, expected + scan(buf, expected)->Ok_0.records.len()),
        ),
        scan(buf, expected)->Ok_0.used == buf.len(),
    decreases buf.len(),
{
    let whole = buf + more;
    if buf.len() == 0 {
        assert(whole =~= more);
        lemma_after_nothing(scan(more, expected));
    } else {
        let (frame, size) = codec::first_frame(buf)->Ok_0;
        let rest = buf.skip(size as int);
        lemma_first_frame_extends(buf, more);
        lemma_scan_step(buf, expected);
        lemma_scan_step(whole, expected);
        lemma_scan_continues(rest, more, expected + 1);
        assert(whole.skip(size as int) =~= rest + more);
        let inner = scan(rest, expected + 1)->Ok_0;
        let found = scan(buf, expected)->Ok_0;
        assert(found.records =~= seq![frame.record] + inner.records);
        let tail = scan(more, (expected + 1 + inner.records.len()) as nat);
        assert(expected + 1 + inner.records.len() == expected + found.records.len());
        if let Ok(view) = tail {
            assert(seq![frame.record] + (inner.records + view.records) =~= found.records
                + view.records);
        }
    }
}

/// One step of a scan, over a frame that can be read.
proof fn lemma_scan_step(buf: Seq<u8>, expected: nat)
    requires
        codec::first_frame(buf) is Ok,
    ensures
        ({
            let (frame, size) = codec::first_frame(buf)->Ok_0;
            scan(buf, expected) == (match sequence_fault(expected as int, frame.sequence) {
                Some(fault) => Err(fault),
                None => after(
                    seq![frame.record],
                    size,
                    scan(buf.skip(size as int), expected + 1),
                ),
            })
        }),
{
    codec::lemma_frame_size(buf);
}

/// A frame that can be read is read alike when more bytes follow.
proof fn lemma_first_frame_extends(buf: Seq<u8>, more: Seq<u8>)
    requires
        codec::first_frame(buf) is Ok,
    ensures
        codec::first_frame(buf + more) == codec::first_frame(buf),
        codec::announced_len(buf + more) == codec::announced_len(buf),
        codec::first_frame(buf)->Ok_0.1 == FRAME_OVERHEAD + codec::announced_len(buf),
        codec::announced_len(buf) <= MAX_RECORD_SIZE,
        FRAME_OVERHEAD <= codec::first_frame(buf)->Ok_0.1 <= buf.len(),
{
    reveal(codec::read_frame);
    let n = codec::announced_len(buf);
    let whole = buf + more;
    assert(whole.take(4) =~= buf.take(4));
    assert(codec::covered(whole) =~= codec::covered(buf));
    assert(whole.subrange(6, 14) =~= buf.subrange(6, 14));
    assert(whole.subrange(14, 14 + n as int) =~= buf.subrange(14, 14 + n as int));
    assert(whole.subrange(14 + n as int, 18 + n as int) =~= buf.subrange(
        14 + n as int,
        18 + n as int,
    ));
}

/// One frame alone is read as the one record that it holds.
proof fn lemma_scan_one(frame: FrameView, expected: nat)
    requires
        frame.fits(),
    ensures
        scan(frame.encoding(), expected) == (match sequence_fault(expected as int, frame.sequence) {
            Some(fault) => Err(fault),
            None => Ok(
                ScanView {
                    records: seq![frame.record],
                    used: frame.encoding().len(),
                    truncated: false,
                },
            ),
        }),
        frame.encoding().len() > 0,
{
    let buf = frame.encoding();
    codec::lemma_frame_round_trip(frame, Seq::empty());
    assert(buf + Seq::<u8>::empty() =~= buf);
    lemma_frame_prefix(buf, buf.len() as int);
    let rest = buf.skip(buf.len() as int);
    assert(rest.len() == 0);
    assert(scan(rest, expected + 1) == Ok::<ScanView, WalFault>(
        ScanView { records: Seq::empty(), used: 0, truncated: false },
    ));
    assert(seq![frame.record] + Seq::<RecordView>::empty() =~= seq![frame.record]);
}

/// Frames that were written one behind the other are read back.
proof fn lemma_scan_frames(records: Seq<RecordView>, first: nat)
    requires
        all_fit(records),
        1 <= first,
        first + records.len() <= u64::MAX,
    ensures
        scan(frames(records, first), first) == Ok::<ScanView, WalFault>(
            ScanView { records, used: frames(records, first).len(), truncated: false },
        ),
    decreases records.len(),
{
    if records.len() == 0 {
        assert(records =~= Seq::empty());
    } else {
        let frame = FrameView { sequence: first as u64, record: records[0] };
        let rest = records.skip(1);
        assert forall|i: int| 0 <= i < rest.len() implies (#[trigger] rest[i]).payload().len()
            <= MAX_RECORD_SIZE by {
            assert(rest[i] == records[i + 1]);
        }
        lemma_scan_one(frame, first);
        lemma_scan_frames(rest, first + 1);
        lemma_scan_continues(frame.encoding(), frames(rest, first + 1), first);
        assert(seq![records[0]] + rest =~= records);
    }
}

/// What stands behind a log's header is what a scan reads.
proof fn lemma_log_header(rest: Seq<u8>)
    ensures
        scan_log(codec::log_header() + rest) == scan(rest, 1),
        (codec::log_header() + rest).len() == HEADER_SIZE + rest.len(),
{
    codec::lemma_header_round_trip(rest);
    assert((codec::log_header() + rest).skip(HEADER_SIZE as int) =~= rest);
}

/// A log gives back the records that were written to it, in order.
pub proof fn lemma_log_round_trip(records: Seq<RecordView>)
    requires
        all_fit(records),
        records.len() < u64::MAX,
    ensures
        scan_log(log_of(records)) == Ok::<ScanView, WalFault>(
            ScanView { records, used: frames(records, 1).len(), truncated: false },
        ),
{
    lemma_scan_frames(records, 1);
    lemma_log_header(frames(records, 1));
}

/// A crash in the middle of a write loses nothing that was written before it: a
/// log that ended cleanly and then has part of a frame behind it gives back every
/// earlier record and reports the unfinished frame.
pub proof fn lemma_crash_keeps_earlier_records(contents: Seq<u8>, last: FrameView, kept: nat)
    requires
        contents.len() >= HEADER_SIZE,
        scan_log(contents) is Ok,
        !scan_log(contents)->Ok_0.truncated,
        last.fits(),
        0 < kept < last.encoding().len(),
    ensures
        scan_log(contents + last.encoding().take(kept as int)) == Ok::<ScanView, WalFault>(
            ScanView { truncated: true, ..scan_log(contents)->Ok_0 },
        ),
{
    let found = scan_log(contents)->Ok_0;
    let cut = last.encoding().take(kept as int);
    let rest = contents.skip(HEADER_SIZE as int);
    let whole = contents + cut;
    codec::lemma_frame_round_trip(last, Seq::empty());
    assert(last.encoding() + Seq::<u8>::empty() =~= last.encoding());
    lemma_frame_prefix(last.encoding(), last.encoding().len() as int);
    if kept >= 4 {
        assert(cut.take(4) =~= last.encoding().take(4));
    }
    assert(unfinished(cut));
    lemma_scan_continues(rest, cut, 1);
    assert(whole.take(8) =~= contents.take(8));
    assert(whole.subrange(8, 10) =~= contents.subrange(8, 10));
    assert(whole.skip(HEADER_SIZE as int) =~= rest + cut);
    assert(found.records + Seq::<RecordView>::empty() =~= found.records);
}

/// Cutting frames back to where the last whole one ends leaves the same records
/// and no unfinished frame.
proof fn lemma_scan_repaired(buf: Seq<u8>, expected: nat)
    requires
        scan(buf, expected) is Ok,
    ensures
        ({
            let found = scan(buf, expected)->Ok_0;
            &&& found.used <= buf.len()
            &&& scan(buf.take(found.used as int), expected) == Ok::<ScanView, WalFault>(
                ScanView { truncated: false, ..found },
            )
            &&& (!found.truncated ==> found.used == buf.len())
            &&& (found.truncated ==> found.used < buf.len())
        }),
    decreases buf.len(),
{
    let found = scan(buf, expected)->Ok_0;
    if buf.len() == 0 {
        assert(buf.take(0) =~= buf);
    } else if unfinished(buf) {
        assert(buf.take(0).len() == 0);
    } else {
        let (frame, size) = codec::first_frame(buf)->Ok_0;
        let rest = buf.skip(size as int);
        lemma_scan_repaired(rest, expected + 1);
        let inner = scan(rest, expected + 1)->Ok_0;
        let cut = buf.take(found.used as int);
        lemma_frame_prefix(buf, found.used as int);
        assert(cut.skip(size as int) =~= rest.take(inner.used as int));
    }
}

/// After a log's unfinished end has been cut off, a scan finds the same records
/// and a clean end.
pub proof fn lemma_repair_leaves_clean_log(contents: Seq<u8>)
    requires
        scan_log(contents) is Ok,
        scan_log(contents)->Ok_0.truncated,
    ensures
        HEADER_SIZE + scan_log(contents)->Ok_0.used < contents.len(),
        scan_log(contents.take(HEADER_SIZE + scan_log(contents)->Ok_0.used as int)) == Ok::<
            ScanView,
            WalFault,
        >(ScanView { truncated: false, ..scan_log(contents)->Ok_0 }),
{
    let found = scan_log(contents)->Ok_0;
    let rest = contents.skip(HEADER_SIZE as int);
    lemma_scan_repaired(rest, 1);
    let cut = contents.take(HEADER_SIZE + found.used as int);
    assert(cut.take(8) =~= contents.take(8));
    assert(cut.subrange(8, 10) =~= contents.subrange(8, 10));
    assert(cut.skip(HEADER_SIZE as int) =~= rest.take(found.used as int));
}

/// A log that ends cleanly and has a frame written behind it: the scan reads the
/// new record after the old ones if the frame carries the next sequence number,
/// and refuses the log if it carries any other, a repeated one as well as one
/// that skips.
pub proof fn lemma_append_to_log(contents: Seq<u8>, frame: FrameView)
    requires
        contents.len() >= HEADER_SIZE,
        scan_log(contents) is Ok,
        !scan_log(contents)->Ok_0.truncated,
        scan_log(contents)->Ok_0.records.len() < u64::MAX,
        frame.fits(),
    ensures
        ({
            let found = scan_log(contents)->Ok_0;
            scan_log(contents + frame.encoding()) == (match sequence_fault(
                found.records.len() as int + 1,
                frame.sequence,
            ) {
                Some(fault) => Err(fault),
                None => Ok(
                    ScanView {
                        records: found.records.push(frame.record),
                        used: found.used + frame.encoding().len(),
                        truncated: false,
                    },
                ),
            })
        }),
{
    let found = scan_log(contents)->Ok_0;
    let rest = contents.skip(HEADER_SIZE as int);
    let whole = contents + frame.encoding();
    lemma_scan_one(frame, found.records.len() + 1);
    lemma_scan_continues(rest, frame.encoding(), 1);
    assert(whole.take(8) =~= contents.take(8));
    assert(whole.subrange(8, 10) =~= contents.subrange(8, 10));
    assert(whole.skip(HEADER_SIZE as int) =~= rest + frame.encoding());
    assert(found.records + seq![frame.record] =~= found.records.push(frame.record));
}

/// A whole frame that cannot be read, because its length, its checksum or its
/// payload is wrong or its version is unknown, makes the whole log unreadable: it is never
/// taken for an unfinished write.
pub proof fn lemma_corruption_is_fatal(contents: Seq<u8>, bad: Seq<u8>)
    requires
        contents.len() >= HEADER_SIZE,
        scan_log(contents) is Ok,
        !scan_log(contents)->Ok_0.truncated,
        bad.len() > 0,
        !unfinished(bad),
        codec::first_frame(bad) is Err,
    ensures
        scan_log(contents + bad) == Err::<ScanView, WalFault>(
            if codec::announced_len(bad) > MAX_RECORD_SIZE {
                WalFault::RecordTooLarge(codec::announced_len(bad))
            } else {
                codec::first_frame(bad)->Err_0
            },
        ),
{
    let rest = contents.skip(HEADER_SIZE as int);
    let whole = contents + bad;
    lemma_scan_continues(rest, bad, 1);
    assert(whole.take(8) =~= contents.take(8));
    assert(whole.subrange(8, 10) =~= contents.subrange(8, 10));
    assert(whole.skip(HEADER_SIZE as int) =~= rest + bad);
}

/// A change of one byte of a frame, behind its length, makes the whole log
/// unreadable, whatever stands before and behind it.
pub proof fn lemma_changed_byte_is_fatal(
    contents: Seq<u8>,
    frame: FrameView,
    tail: Seq<u8>,
    at: int,
    byte: u8,
)
    requires
        contents.len() >= HEADER_SIZE,
        scan_log(contents) is Ok,
        !scan_log(contents)->Ok_0.truncated,
        frame.fits(),
        4 <= at < frame.encoding().len(),
        byte != frame.encoding()[at],
    ensures
        ({
            let changed = scan_log(contents + (frame.encoding().update(at, byte) + tail));
            &&& changed is Err
            &&& if at == 4 {
                changed->Err_0 == WalFault::UnsupportedRecordVersion(byte)
            } else {
                changed->Err_0 is ChecksumMismatch
            }
        }),
{
    let bad = frame.encoding().update(at, byte) + tail;
    codec::lemma_changed_byte_is_noticed(frame, tail, at, byte);
    codec::lemma_frame_round_trip(frame, Seq::empty());
    codec::lemma_frame_size(frame.encoding() + Seq::empty());
    assert(frame.encoding() + Seq::<u8>::empty() =~= frame.encoding());
    assert(bad.take(4) =~= frame.encoding().take(4));
    lemma_corruption_is_fatal(contents, bad);
}

/// The frames of records with one more behind them.
pub proof fn lemma_frames_push(records: Seq<RecordView>, last: RecordView, first: nat)
    ensures
        frames(records.push(last), first) == frames(records, first) + (FrameView {
            sequence: (first + records.len()) as u64,
            record: last,
        }).encoding(),
    decreases records.len(),
{
    let all = records.push(last);
    let behind = (FrameView { sequence: (first + records.len()) as u64, record: last }).encoding();
    if records.len() == 0 {
        assert(all.skip(1) =~= Seq::empty());
        assert(frames(all.skip(1), first + 1) =~= Seq::empty());
        assert(frames(all, first) =~= behind);
        assert(frames(records, first) + behind =~= behind);
    } else {
        assert(all.skip(1) =~= records.skip(1).push(last));
        lemma_frames_push(records.skip(1), last, first + 1);
        let head = (FrameView { sequence: first as u64, record: records[0] }).encoding();
        assert(head + (frames(records.skip(1), first + 1) + behind) =~= (head + frames(
            records.skip(1),
            first + 1,
        )) + behind);
    }
}

/// A log that ends cleanly and has more records written behind it, numbered on,
/// gives back the old records and then the new ones.
pub proof fn lemma_append_all_to_log(contents: Seq<u8>, more: Seq<RecordView>)
    requires
        contents.len() >= HEADER_SIZE,
        scan_log(contents) is Ok,
        !scan_log(contents)->Ok_0.truncated,
        all_fit(more),
        scan_log(contents)->Ok_0.records.len() + more.len() < u64::MAX,
    ensures
        ({
            let found = scan_log(contents)->Ok_0;
            let added = frames(more, found.records.len() + 1);
            scan_log(contents + added) == Ok::<ScanView, WalFault>(
                ScanView {
                    records: found.records + more,
                    used: found.used + added.len(),
                    truncated: false,
                },
            )
        }),
{
    let found = scan_log(contents)->Ok_0;
    let rest = contents.skip(HEADER_SIZE as int);
    let added = frames(more, found.records.len() + 1);
    let whole = contents + added;
    lemma_scan_frames(more, found.records.len() + 1);
    lemma_scan_continues(rest, added, 1);
    assert(whole.take(8) =~= contents.take(8));
    assert(whole.subrange(8, 10) =~= contents.subrange(8, 10));
    assert(whole.skip(HEADER_SIZE as int) =~= rest + added);
}

/// Frames that are cut anywhere are some whole ones and part of the next.
proof fn lemma_cut_frames(more: Seq<RecordView>, first: nat, kept: nat) -> (whole: nat)
    requires
        kept <= frames(more, first).len(),
    ensures
        whole <= more.len(),
        ({
            let done = frames(more.take(whole as int), first);
            let cut = frames(more, first).take(kept as int);
            if whole == more.len() {
                cut == done
            } else {
                let next = (FrameView {
                    sequence: (first + whole) as u64,
                    record: more[whole as int],
                }).encoding();
                &&& done.len() <= kept < done.len() + next.len()
                &&& cut == done + next.take(kept - done.len())
            }
        }),
    decreases more.len(),
{
    let all = frames(more, first);
    if more.len() == 0 {
        assert(all.take(kept as int) =~= frames(more.take(0), first));
        0
    } else {
        let head = (FrameView { sequence: first as u64, record: more[0] }).encoding();
        let rest = more.skip(1);
        if kept < head.len() {
            assert(more.take(0).len() == 0);
            assert(all.take(kept as int) =~= Seq::<u8>::empty() + head.take(kept as int));
            0
        } else {
            let left = (kept - head.len()) as nat;
            let n = lemma_cut_frames(rest, first + 1, left);
            assert(more.take(n as int + 1).skip(1) =~= rest.take(n as int));
            assert(all.take(kept as int) =~= head + frames(rest, first + 1).take(left as int));
            let done = frames(rest.take(n as int), first + 1);
            assert(frames(more.take(n as int + 1), first) == head + done);
            if n < rest.len() {
                assert(rest[n as int] == more[n as int + 1]);
                let next = (FrameView {
                    sequence: (first + n + 1) as u64,
                    record: more[n as int + 1],
                }).encoding();
                assert(all.take(kept as int) =~= (head + done) + next.take(left - done.len()));
            }
            n + 1
        }
    }
}

/// However far the writing of records behind a clean log came before a crash, the
/// log gives back its own records and the first of the new ones.
pub proof fn lemma_cut_appends(contents: Seq<u8>, more: Seq<RecordView>, kept: nat) -> (whole: nat)
    requires
        contents.len() >= HEADER_SIZE,
        scan_log(contents) is Ok,
        !scan_log(contents)->Ok_0.truncated,
        all_fit(more),
        scan_log(contents)->Ok_0.records.len() + more.len() < u64::MAX,
        kept <= frames(more, scan_log(contents)->Ok_0.records.len() + 1).len(),
    ensures
        whole <= more.len(),
        ({
            let found = scan_log(contents)->Ok_0;
            let added = frames(more, found.records.len() + 1).take(kept as int);
            &&& scan_log(contents + added) is Ok
            &&& scan_log(contents + added)->Ok_0.records == found.records + more.take(whole as int)
        }),
{
    let found = scan_log(contents)->Ok_0;
    let first = (found.records.len() + 1) as nat;
    let whole = lemma_cut_frames(more, first, kept);
    let head = more.take(whole as int);
    let done = frames(head, first);
    let added = frames(more, first).take(kept as int);
    assert forall|i: int| 0 <= i < head.len() implies (#[trigger] head[i]).payload().len()
        <= MAX_RECORD_SIZE by {
        assert(head[i] == more[i]);
    }
    lemma_append_all_to_log(contents, head);
    if whole < more.len() {
        let next = FrameView { sequence: (first + whole) as u64, record: more[whole as int] };
        let part = (kept - done.len()) as nat;
        assert(contents + added =~= (contents + done) + next.encoding().take(part as int));
        if part > 0 {
            lemma_crash_keeps_earlier_records(contents + done, next, part);
        } else {
            assert(contents + added =~= contents + done);
        }
    }
    whole
}

proof fn lemma_scan_size(buf: Seq<u8>, expected: nat)
    requires
        scan(buf, expected) is Ok,
    ensures
        FRAME_OVERHEAD * scan(buf, expected)->Ok_0.records.len() <= scan(buf, expected)->Ok_0.used
            <= buf.len(),
    decreases buf.len(),
{
    if buf.len() > 0 && !unfinished(buf) {
        let (frame, size) = codec::first_frame(buf)->Ok_0;
        lemma_frame_prefix(buf, buf.len() as int);
        lemma_scan_step(buf, expected);
        lemma_scan_size(buf.skip(size as int), expected + 1);
    }
}

/// A log has at least as many bytes as the frames of its records need.
pub proof fn lemma_log_size(contents: Seq<u8>)
    requires
        scan_log(contents) is Ok,
    ensures
        FRAME_OVERHEAD * scan_log(contents)->Ok_0.records.len() <= contents.len(),
        scan_log(contents)->Ok_0.used <= contents.len(),
{
    if contents.len() > 0 {
        lemma_scan_size(contents.skip(HEADER_SIZE as int), 1);
    }
}

/// The frames of a log that ends cleanly take up all of it behind its header.
pub proof fn lemma_clean_log_is_used_up(contents: Seq<u8>)
    requires
        contents.len() >= HEADER_SIZE,
        scan_log(contents) is Ok,
        !scan_log(contents)->Ok_0.truncated,
    ensures
        HEADER_SIZE + scan_log(contents)->Ok_0.used == contents.len(),
{
    lemma_scan_repaired(contents.skip(HEADER_SIZE as int), 1);
}

} // verus!
