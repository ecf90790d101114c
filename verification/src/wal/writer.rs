//! Writing to a log: which bytes follow the ones that are there.

use crate::wal::codec;
use crate::wal::codec::{FrameView, WalFrame, WalHeader, HEADER_SIZE, MAX_RECORD_SIZE};
use crate::wal::error::{WalError, WalFault, WalResult};
use crate::wal::record::{RecordView, WalRecord};
use crate::wal::scanner;
use vstd::prelude::*;

verus! {

/// Numbers the frames of a log. It decides which bytes a record becomes; the
/// program around it writes them, forces them to disk and reports back.
#[derive(Debug)]
pub struct WalWriter {
    next_seq: u64,
}

/// The largest sequence number among the whole frames at the front of `buf`, 0
/// if there is none; or what is wrong with the first frame that cannot be read.
pub open spec fn highest_sequence(buf: Seq<u8>) -> Result<u64, WalFault>
    decreases buf.len(),
{
    if buf.len() == 0 {
        Ok(0)
    } else {
        match codec::first_frame(buf) {
            Err(fault) => if fault == WalFault::TruncatedFrame {
                Ok(0)
            } else {
                Err(fault)
            },
            Ok((frame, size)) => if size == 0 || size > buf.len() {
                Ok(0)
            } else {
                match highest_sequence(buf.skip(size as int)) {
                    Err(fault) => Err(fault),
                    Ok(rest) => Ok(
                        if rest > frame.sequence {
                            rest
                        } else {
                            frame.sequence
                        },
                    ),
                }
            },
        }
    }
}

/// The sequence number that follows those of a log's contents.
pub open spec fn next_sequence(contents: Seq<u8>) -> Result<u64, WalFault> {
    if contents.len() == 0 {
        Ok(1)
    } else if contents.len() < HEADER_SIZE {
        Err(WalFault::InvalidWalHeader)
    } else {
        match codec::header_fault(contents) {
            Some(fault) => Err(fault),
            None => match highest_sequence(contents.skip(HEADER_SIZE as int)) {
                Err(fault) => Err(fault),
                Ok(highest) => if highest == u64::MAX {
                    Err(WalFault::SequenceExhausted)
                } else {
                    Ok((highest + 1) as u64)
                },
            },
        }
    }
}

/// What is wrong with writing a record under the sequence number `next`, if
/// anything is. The largest number is never given out: no other could follow it.
pub open spec fn append_fault(next: u64, record: RecordView) -> Option<WalFault> {
    if next == u64::MAX {
        Some(WalFault::SequenceExhausted)
    } else if record.payload().len() > MAX_RECORD_SIZE {
        Some(WalFault::RecordTooLarge(record.payload().len()))
    } else {
        None
    }
}

/// The bytes of a record under the sequence number `next`.
pub open spec fn appended(next: u64, record: RecordView) -> Seq<u8> {
    (FrameView { sequence: next, record }).encoding()
}

impl WalWriter {
    /// The sequence number of the next frame.
    pub closed spec fn next(self) -> u64 {
        self.next_seq
    }

    /// A writer that continues a log with the given contents. An unfinished frame
    /// at its end does not count; a whole frame that cannot be read refuses the
    /// log, with the fault of that frame.
    pub fn open(contents: &[u8]) -> (writer: WalResult<Self>)
        ensures
            match next_sequence(contents@) {
                Ok(next) => writer matches Ok(w) && w.next() == next,
                Err(fault) => writer matches Err(error) && error@ == fault,
            },
    {
        if contents.len() == 0 {
            return Ok(WalWriter { next_seq: 1 });
        }
        if contents.len() < HEADER_SIZE {
            return Err(WalError::InvalidWalHeader);
        }
        let header: [u8; HEADER_SIZE] = [
            contents[0],
            contents[1],
            contents[2],
            contents[3],
            contents[4],
            contents[5],
            contents[6],
            contents[7],
            contents[8],
            contents[9],
        ];
        proof {
            assert(header@.take(8) =~= contents@.take(8));
            assert(header@.subrange(8, 10) =~= contents@.subrange(8, 10));
            assert(contents@.subrange(10, contents@.len() as int) =~= contents@.skip(10));
        }
        match WalHeader::decode(&header) {
            Err(error) => return Err(error),
            Ok(_) => {},
        }
        match Self::scan_for_next_sequence(&contents[HEADER_SIZE..contents.len()]) {
            Err(error) => Err(error),
            Ok(next_seq) => Ok(WalWriter { next_seq }),
        }
    }

    /// The sequence number that follows those of a log's frames.
    pub fn scan_for_next_sequence(buf: &[u8]) -> (next: WalResult<u64>)
        ensures
            match highest_sequence(buf@) {
                Err(fault) => next matches Err(error) && error@ == fault,
                Ok(highest) => if highest == u64::MAX {
                    next matches Err(error) && error@ == WalFault::SequenceExhausted
                } else {
                    next matches Ok(n) && n == highest + 1
                },
            },
    {
        let total: usize = buf.len();
        let mut offset: usize = 0;
        let mut max_seq: u64 = 0;
        let ghost whole = highest_sequence(buf@);
        assert(buf@.skip(0) =~= buf@);
        while offset < total
            invariant_except_break
                match highest_sequence(buf@.skip(offset as int)) {
                    Err(fault) => whole == Err::<u64, WalFault>(fault),
                    Ok(rest) => whole == Ok::<u64, WalFault>(
                        if rest > max_seq {
                            rest
                        } else {
                            max_seq
                        },
                    ),
                },
            invariant
                offset <= total == buf@.len(),
                whole == highest_sequence(buf@),
            ensures
                whole == Ok::<u64, WalFault>(max_seq),
            decreases total - offset,
        {
            let ghost rest = buf@.skip(offset as int);
            assert(buf@.subrange(offset as int, total as int) =~= rest);
            match WalFrame::decode(&buf[offset..total]) {
                Ok((frame, consumed)) => {
                    proof {
                        codec::lemma_frame_size(rest);
                    }
                    assert(rest.skip(consumed as int) =~= buf@.skip((offset + consumed) as int));
                    if frame.sequence > max_seq {
                        max_seq = frame.sequence;
                    }
                    offset = offset + consumed;
                },
                Err(WalError::TruncatedFrame) => {
                    break;
                },
                Err(error) => {
                    return Err(error);
                },
            }
        }
        if max_seq == u64::MAX {
            return Err(WalError::SequenceExhausted);
        }
        Ok(max_seq + 1)
    }

    /// A writer that continues with a known sequence number.
    pub fn from_recovered(next_seq: u64) -> (writer: Self)
        ensures
            writer.next() == next_seq,
    {
        WalWriter { next_seq }
    }

    /// What a log with the given contents lacks in front: the header if there is
    /// nothing in it yet, else nothing.
    pub fn missing_header(contents: &[u8]) -> (out: Vec<u8>)
        ensures
            out@ == (if contents@.len() == 0 {
                codec::log_header()
            } else {
                Seq::empty()
            }),
    {
        let mut out: Vec<u8> = Vec::new();
        if contents.len() == 0 {
            let header = WalHeader::new().encode();
            out.extend_from_slice(&header);
            assert(out@ =~= codec::log_header());
        }
        out
    }

    /// The bytes that a record adds to the log.
    pub fn append(&self, record: &WalRecord) -> (out: WalResult<Vec<u8>>)
        ensures
            match append_fault(self.next(), record@) {
                Some(fault) => out matches Err(error) && error@ == fault,
                None => out matches Ok(frame) && frame@ == appended(self.next(), record@),
            },
    {
        if self.next_seq == u64::MAX {
            return Err(WalError::SequenceExhausted);
        }
        WalFrame::new(self.next_seq, record.clone()).encode()
    }

    /// Takes note of how writing a frame and forcing it to disk went. Only when
    /// both succeeded is its sequence number spent.
    pub fn acknowledge(&mut self, outcome: Result<(), String>) -> (seq: WalResult<u64>)
        requires
            old(self).next() < u64::MAX,
        ensures
            match outcome {
                Ok(_) => seq == Ok::<u64, WalError>(old(self).next()) && final(self).next() == old(self).next() + 1,
                Err(text) => seq matches Err(error) && error@ == WalFault::Io(text@) && final(self).next() == old(self).next(),
            },
    {
        match outcome {
            Err(text) => Err(WalError::Io(text)),
            Ok(()) => {
                let seq: u64 = self.next_seq;
                self.next_seq = seq + 1;
                Ok(seq)
            },
        }
    }
}

/// A log kept in memory, whose writes can be made to fail.
#[derive(Debug)]
pub struct TestableWalWriter {
    inner: WalWriter,
    contents: Vec<u8>,
    fail_next_append: bool,
    fail_next_sync: bool,
}

impl TestableWalWriter {
    /// The sequence number of the next frame.
    pub closed spec fn next(self) -> u64 {
        self.inner.next()
    }

    /// The log's contents.
    pub closed spec fn log(self) -> Seq<u8> {
        self.contents@
    }

    /// Whether the next write is to fail.
    pub closed spec fn append_fails(self) -> bool {
        self.fail_next_append
    }

    /// Whether forcing the next write to disk is to fail.
    pub closed spec fn sync_fails(self) -> bool {
        self.fail_next_sync
    }

    /// Whether the log holds exactly the given records and the writer is to
    /// continue it.
    pub open spec fn holds(self, records: Seq<RecordView>) -> bool {
        &&& self.log().len() >= HEADER_SIZE
        &&& scanner::scan_log(self.log()) is Ok
        &&& scanner::scan_log(self.log())->Ok_0.records == records
        &&& !scanner::scan_log(self.log())->Ok_0.truncated
        &&& self.next() == records.len() + 1
    }

    /// Opens a log with the given contents; an empty one gets its header. A log
    /// that can be scanned to a clean end is continued behind its records.
    pub fn open(contents: Vec<u8>) -> (writer: WalResult<Self>)
        ensures
            match next_sequence(contents@) {
                Ok(next) => {
                    &&& writer matches Ok(w)
                    &&& w.next() == next
                    &&& w.log() == (if contents@.len() == 0 {
                        codec::log_header()
                    } else {
                        contents@
                    })
                    &&& !w.append_fails()
                    &&& !w.sync_fails()
                },
                Err(fault) => writer matches Err(error) && error@ == fault,
            },
            contents@.len() == 0 ==> (writer matches Ok(w) && w.holds(Seq::empty())),
            scanner::scan_log(contents@) matches Ok(found) ==> !found.truncated ==> contents@.len()
                > 0 ==> (writer matches Ok(w) && w.holds(found.records)),
    {
        proof {
            codec::lemma_header_round_trip(Seq::empty());
            assert(codec::log_header() + Seq::<u8>::empty() =~= codec::log_header());
            assert(codec::log_header().skip(HEADER_SIZE as int).len() == 0);
            if contents@.len() > 0 && scanner::scan_log(contents@) is Ok {
                lemma_next_follows_scan(contents@);
            }
        }
        match WalWriter::open(contents.as_slice()) {
            Err(error) => Err(error),
            Ok(inner) => {
                let contents = if contents.len() == 0 {
                    WalWriter::missing_header(contents.as_slice())
                } else {
                    contents
                };
                Ok(
                    TestableWalWriter {
                        inner,
                        contents,
                        fail_next_append: false,
                        fail_next_sync: false,
                    },
                )
            },
        }
    }

    /// The log's contents.
    pub fn contents(&self) -> (contents: &Vec<u8>)
        ensures
            contents@ == self.log(),
    {
        &self.contents
    }

    /// Writes a record and forces it to disk. A write that was made to fail
    /// leaves the log as it was; where only forcing it to disk was made to fail,
    /// the bytes are there, but the sequence number is not spent.
    pub fn append(&mut self, record: WalRecord) -> (seq: WalResult<u64>)
        ensures
            ({
                let fault = append_fault(old(self).next(), record@);
                if old(self).append_fails() {
                    &&& seq matches Err(error)
                    &&& error@ == WalFault::Io("injected append failure"@)
                    &&& final(self).log() == old(self).log()
                    &&& final(self).next() == old(self).next()
                    &&& !final(self).append_fails()
                    &&& final(self).sync_fails() == old(self).sync_fails()
                } else if fault is Some {
                    &&& seq matches Err(error)
                    &&& error@ == fault->Some_0
                    &&& *final(self) == *old(self)
                } else {
                    &&& final(self).log() == old(self).log() + appended(old(self).next(), record@)
                    &&& !final(self).append_fails()
                    &&& !final(self).sync_fails()
                    &&& if old(self).sync_fails() {
                        &&& seq matches Err(error)
                        &&& error@ == WalFault::SyncFailed
                        &&& final(self).next() == old(self).next()
                    } else {
                        &&& seq == Ok::<u64, WalError>(old(self).next())
                        &&& final(self).next() == old(self).next() + 1
                    }
                }
            }),
            forall|records: Seq<RecordView>| #[trigger]
                old(self).holds(records) && seq is Ok ==> final(self).holds(records.push(record@)),
    {
        let ghost before = *self;
        if self.fail_next_append {
            self.fail_next_append = false;
            return Err(WalError::Io("injected append failure".to_owned()));
        }
        let frame = match self.inner.append(&record) {
            Ok(frame) => frame,
            Err(error) => return Err(error),
        };
        self.contents.extend_from_slice(frame.as_slice());
        assert(self.contents@ =~= before.contents@ + frame@);
        if self.fail_next_sync {
            self.fail_next_sync = false;
            return Err(WalError::SyncFailed);
        }
        proof {
            assert forall|records: Seq<RecordView>| #[trigger] before.holds(records) implies {
                &&& scanner::scan_log(self.log()) is Ok
                &&& scanner::scan_log(self.log())->Ok_0.records == records.push(record@)
                &&& !scanner::scan_log(self.log())->Ok_0.truncated
                &&& self.log().len() >= HEADER_SIZE
                &&& before.next() == records.len() + 1
            } by {
                scanner::lemma_append_to_log(
                    before.log(),
                    FrameView { sequence: before.next(), record: record@ },
                );
            }
        }
        self.inner.acknowledge(Ok(()))
    }

    /// Makes the next write fail.
    pub fn fail_next_append(&mut self)
        ensures
            final(self).append_fails(),
            final(self).sync_fails() == old(self).sync_fails(),
            final(self).log() == old(self).log(),
            final(self).next() == old(self).next(),
    {
        self.fail_next_append = true;
    }

    /// Makes forcing the next write to disk fail.
    pub fn fail_next_sync(&mut self)
        ensures
            final(self).sync_fails(),
            final(self).append_fails() == old(self).append_fails(),
            final(self).log() == old(self).log(),
            final(self).next() == old(self).next(),
    {
        self.fail_next_sync = true;
    }
}

/// The frames that a scan accepts are numbered without a gap, so the largest
/// number is that of the last.
proof fn lemma_highest_of_scan(buf: Seq<u8>, expected: nat)
    requires
        scanner::scan(buf, expected) is Ok,
    ensures
        highest_sequence(buf) == Ok::<u64, WalFault>(
            if scanner::scan(buf, expected)->Ok_0.records.len() == 0 {
                0
            } else {
                (expected + scanner::scan(buf, expected)->Ok_0.records.len() - 1) as u64
            },
        ),
        scanner::scan(buf, expected)->Ok_0.records.len() > 0 ==> expected + scanner::scan(
            buf,
            expected,
        )->Ok_0.records.len() <= u64::MAX,
    decreases buf.len(),
{
    if buf.len() == 0 {
    } else if scanner::unfinished(buf) {
        codec::lemma_short_frame(buf);
    } else {
        codec::lemma_frame_size(buf);
        let (frame, size) = codec::first_frame(buf)->Ok_0;
        let rest = buf.skip(size as int);
        lemma_highest_of_scan(rest, expected + 1);
    }
}

/// A log that can be scanned is continued behind its last record, also where an
/// unfinished frame follows it: numbers are neither reused nor left out.
pub proof fn lemma_next_follows_scan(contents: Seq<u8>)
    requires
        scanner::scan_log(contents) is Ok,
    ensures
        next_sequence(contents) == Ok::<u64, WalFault>(
            (scanner::scan_log(contents)->Ok_0.records.len() + 1) as u64,
        ),
        scanner::scan_log(contents)->Ok_0.records.len() < u64::MAX,
{
    if contents.len() > 0 {
        lemma_highest_of_scan(contents.skip(HEADER_SIZE as int), 1);
    }
}

} // verus!
