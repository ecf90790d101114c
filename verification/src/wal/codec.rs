//! The byte layout of the log: its header and its frames.

use crate::wal::bytes;
use crate::wal::crc;
use crate::wal::error::{WalError, WalFault, WalResult};
use crate::wal::record;
use crate::wal::record::{RecordView, WalRecord};
use crate::wal::wire;
use vstd::prelude::*;

verus! {

/// The bytes that a log begins with: `RDQUEUE` and a zero byte.
pub const WAL_MAGIC: [u8; 8] = [0x52, 0x44, 0x51, 0x55, 0x45, 0x55, 0x45, 0x00];

/// The version of the log's format.
pub const WAL_VERSION: u16 = 1;

/// The size of the header: eight bytes of magic and two of version.
pub const HEADER_SIZE: usize = 10;

/// What a frame adds to its payload: the payload's length (4 bytes), the record
/// version (1), the record type (1), the sequence number (8) and the checksum
/// (4).
pub const FRAME_OVERHEAD: usize = 18;

/// The largest payload of a frame (1 MiB).
pub const MAX_RECORD_SIZE: u32 = 1024 * 1024;

/// The version of the record format.
pub const RECORD_VERSION: u8 = 1;

/// The log's header.
#[derive(Debug, Clone, Copy, PartialEq, Eq)]
pub struct WalHeader {
    pub magic: [u8; 8],
    pub version: u16,
}

/// A header's bytes.
pub open spec fn header_bytes(magic: Seq<u8>, version: u16) -> Seq<u8> {
    magic + bytes::le_bytes(version as nat, 2)
}

/// The header that every new log begins with.
pub open spec fn log_header() -> Seq<u8> {
    header_bytes(WAL_MAGIC@, WAL_VERSION)
}

/// What is wrong with the first bytes of a log, if anything is.
pub open spec fn header_fault(buf: Seq<u8>) -> Option<WalFault> {
    let version = bytes::le_value(buf.subrange(8, 10)) as u16;
    if buf.take(8) != WAL_MAGIC@ {
        Some(WalFault::InvalidWalHeader)
    } else if version != WAL_VERSION {
        Some(WalFault::UnsupportedWalVersion(version))
    } else {
        None
    }
}

impl WalHeader {
    /// The header of a new log.
    pub fn new() -> (header: Self)
        ensures
            header.magic@ == WAL_MAGIC@,
            header.version == WAL_VERSION,
    {
        WalHeader { magic: WAL_MAGIC, version: WAL_VERSION }
    }

    /// The header's bytes.
    pub fn encode(&self) -> (out: [u8; HEADER_SIZE])
        ensures
            out@ == header_bytes(self.magic@, self.version),
    {
        let mut low: Vec<u8> = Vec::new();
        bytes::push_le(&mut low, self.version as u128, 2);
        proof {
            bytes::lemma_le_bytes_len(self.version as nat, 2);
        }
        let m = &self.magic;
        let out: [u8; HEADER_SIZE] = [
            m[0],
            m[1],
            m[2],
            m[3],
            m[4],
            m[5],
            m[6],
            m[7],
            low[0],
            low[1],
        ];
        assert(out@ =~= header_bytes(self.magic@, self.version));
        out
    }

    /// Reads a header. Bytes that do not begin with the magic are no header;
    /// a header of another version is refused.
    pub fn decode(buf: &[u8; HEADER_SIZE]) -> (header: WalResult<Self>)
        ensures
            match header_fault(buf@) {
                Some(fault) => header matches Err(error) && error@ == fault,
                None => header matches Ok(h) && h.magic@ == WAL_MAGIC@ && h.version == WAL_VERSION,
            },
    {
        let whole: &[u8] = buf;
        let mut i: usize = 0;
        while i < 8
            invariant
                i <= 8,
                whole@ == buf@,
                buf@.len() == 10,
                forall|j: int| 0 <= j < i ==> buf@[j] == WAL_MAGIC@[j],
            decreases 8 - i,
        {
            if whole[i] != WAL_MAGIC[i] {
                assert(buf@.take(8)[i as int] != WAL_MAGIC@[i as int]);
                return Err(WalError::InvalidWalHeader);
            }
            i = i + 1;
        }
        assert(buf@.take(8) =~= WAL_MAGIC@);
        let wide: u128 = bytes::read_le(whole, 8, 2);
        proof {
            bytes::lemma_le_value_bound(buf@.subrange(8, 10));
            bytes::lemma_byte_limits();
        }
        let version: u16 = wide as u16;
        if version != WAL_VERSION {
            return Err(WalError::UnsupportedWalVersion(version));
        }
        Ok(WalHeader { magic: WAL_MAGIC, version })
    }
}

impl Default for WalHeader {
    fn default() -> (header: Self)
        ensures
            header.magic@ == WAL_MAGIC@,
            header.version == WAL_VERSION,
    {
        WalHeader::new()
    }
}

/// One record of the log with its sequence number.
///
/// A frame holds, in this order, the payload's length (`u32`, little endian),
/// the record version, the record type, the sequence number (`u64`, little
/// endian), the payload, and the CRC-32 of all of that (`u32`, little endian).
#[derive(Debug)]
pub struct WalFrame {
    pub sequence: u64,
    pub record: WalRecord,
}

/// What a [`WalFrame`] holds.
#[verifier::ext_equal]
pub struct FrameView {
    pub sequence: u64,
    pub record: RecordView,
}

impl View for WalFrame {
    type V = FrameView;

    open spec fn view(&self) -> FrameView {
        FrameView { sequence: self.sequence, record: self.record@ }
    }
}

impl Clone for WalFrame {
    fn clone(&self) -> (copy: Self)
        ensures
            copy@ == self@,
    {
        WalFrame { sequence: self.sequence, record: self.record.clone() }
    }
}

impl FrameView {
    /// The frame's bytes up to its checksum.
    pub open spec fn body(self) -> Seq<u8> {
        bytes::le_bytes(self.record.payload().len(), 4) + seq![RECORD_VERSION, self.record.tag()]
            + bytes::le_bytes(self.sequence as nat, 8) + self.record.payload()
    }

    /// The frame's bytes.
    pub open spec fn encoding(self) -> Seq<u8> {
        sealed(self.body(), crc::crc32(self.body()))
    }

    /// Whether the payload fits a frame.
    pub open spec fn fits(self) -> bool {
        self.record.payload().len() <= MAX_RECORD_SIZE
    }
}

/// A frame's body with its checksum behind it.
pub open spec fn sealed(body: Seq<u8>, sum: u32) -> Seq<u8> {
    body + bytes::le_bytes(sum as nat, 4)
}

/// The length of the payload that a frame announces.
pub open spec fn announced_len(buf: Seq<u8>) -> nat {
    bytes::le_value(buf.take(4))
}

/// The bytes of a frame that its checksum covers.
pub open spec fn covered(buf: Seq<u8>) -> Seq<u8> {
    buf.take(14 + announced_len(buf) as int)
}

/// Reads a frame from the front of `buf`, given the checksum of what it covers:
/// the frame and its size, or what is wrong with it.
#[verifier::opaque]
pub open spec fn read_frame(buf: Seq<u8>, computed: u32) -> Result<(FrameView, nat), WalFault> {
    let n = announced_len(buf);
    if buf.len() < FRAME_OVERHEAD {
        Err(WalFault::TruncatedFrame)
    } else if n > MAX_RECORD_SIZE {
        Err(WalFault::RecordTooLarge(n))
    } else if buf.len() < FRAME_OVERHEAD + n {
        Err(WalFault::TruncatedFrame)
    } else if buf[4] != RECORD_VERSION {
        Err(WalFault::UnsupportedRecordVersion(buf[4]))
    } else {
        let stored = bytes::le_value(buf.subrange(14 + n as int, 18 + n as int)) as u32;
        if stored != computed {
            Err(WalFault::ChecksumMismatch { expected: stored, computed })
        } else {
            match record::take_record(buf.subrange(14, 14 + n as int)) {
                Err(failure) => Err(WalFault::Serialization(failure.message())),
                Ok(record) => Ok(
                    (
                        FrameView {
                            sequence: bytes::le_value(buf.subrange(6, 14)) as u64,
                            record,
                        },
                        (18 + n) as nat,
                    ),
                ),
            }
        }
    }
}

/// Reads a frame from the front of `buf`.
pub open spec fn first_frame(buf: Seq<u8>) -> Result<(FrameView, nat), WalFault> {
    read_frame(buf, crc::crc32(covered(buf)))
}

impl WalFrame {
    /// A frame for a record.
    pub fn new(sequence: u64, record: WalRecord) -> (frame: Self)
        ensures
            frame@ == (FrameView { sequence, record: record@ }),
    {
        WalFrame { sequence, record }
    }

    /// The frame's bytes up to its checksum. A payload that is too large for a
    /// frame is refused.
    pub fn encode_body(&self) -> (out: WalResult<Vec<u8>>)
        ensures
            match out {
                Ok(body) => self@.fits() && body@ == self@.body(),
                Err(error) => !self@.fits() && error@ == WalFault::RecordTooLarge(
                    self@.record.payload().len(),
                ),
            },
    {
        let payload = self.record.to_payload();
        if payload.len() > MAX_RECORD_SIZE as usize {
            return Err(WalError::RecordTooLarge(payload.len()));
        }
        let mut out: Vec<u8> = Vec::new();
        bytes::push_le(&mut out, payload.len() as u128, 4);
        out.push(RECORD_VERSION);
        out.push(self.record.record_type());
        bytes::push_le(&mut out, self.sequence as u128, 8);
        out.extend_from_slice(payload.as_slice());
        assert(out@ =~= self@.body());
        Ok(out)
    }

    /// Puts a checksum behind a frame's body.
    pub fn seal(body: Vec<u8>, sum: u32) -> (out: Vec<u8>)
        ensures
            out@ == sealed(body@, sum),
    {
        let mut out = body;
        bytes::push_le(&mut out, sum as u128, 4);
        out
    }

    /// The frame's bytes. A payload that is too large for a frame is refused.
    pub fn encode(&self) -> (out: WalResult<Vec<u8>>)
        ensures
            match out {
                Ok(frame) => self@.fits() && frame@ == self@.encoding(),
                Err(error) => !self@.fits() && error@ == WalFault::RecordTooLarge(
                    self@.record.payload().len(),
                ),
            },
    {
        match self.encode_body() {
            Err(error) => Err(error),
            Ok(body) => {
                let sum: u32 = crc::checksum(body.as_slice());
                Ok(Self::seal(body, sum))
            },
        }
    }

    /// Reads the frame at the front of `buf`, given the checksum of the bytes
    /// that the frame's own checksum covers. Gives the frame and its size.
    pub fn decode_checked(buf: &[u8], computed: u32) -> (frame: WalResult<(Self, usize)>)
        ensures
            match read_frame(buf@, computed) {
                Ok((view, size)) => frame matches Ok((f, consumed)) && f@ == view && consumed
                    == size,
                Err(fault) => frame matches Err(error) && error@ == fault,
            },
    {
        reveal(read_frame);
        let len: usize = match Self::payload_len(buf) {
            Ok(len) => len,
            Err(error) => return Err(error),
        };
        if buf[4] != RECORD_VERSION {
            return Err(WalError::UnsupportedRecordVersion(buf[4]));
        }
        let wide_sequence: u128 = bytes::read_le(buf, 6, 8);
        let wide_stored: u128 = bytes::read_le(buf, 14 + len, 4);
        proof {
            bytes::lemma_le_value_bound(buf@.subrange(6, 14));
            bytes::lemma_le_value_bound(buf@.subrange(14 + len as int, 18 + len as int));
            bytes::lemma_byte_limits();
        }
        let stored: u32 = wide_stored as u32;
        if stored != computed {
            return Err(WalError::ChecksumMismatch { expected: stored, computed });
        }
        match WalRecord::from_payload(&buf[14..14 + len]) {
            Err(failure) => Err(WalError::Serialization(wire::failure_text(failure))),
            Ok(record) => Ok(
                (WalFrame { sequence: wide_sequence as u64, record }, FRAME_OVERHEAD + len),
            ),
        }
    }

    /// The length of the payload of the frame at the front of `buf`, which must
    /// be there whole.
    fn payload_len(buf: &[u8]) -> (len: WalResult<usize>)
        ensures
            match len {
                Ok(n) => n == announced_len(buf@) && n <= MAX_RECORD_SIZE && buf@.len()
                    >= FRAME_OVERHEAD + n,
                Err(error) => {
                    let n = announced_len(buf@);
                    if buf@.len() < FRAME_OVERHEAD {
                        error@ == WalFault::TruncatedFrame
                    } else if n > MAX_RECORD_SIZE {
                        error@ == WalFault::RecordTooLarge(n)
                    } else {
                        buf@.len() < FRAME_OVERHEAD + n && error@ == WalFault::TruncatedFrame
                    }
                },
            },
    {
        if buf.len() < FRAME_OVERHEAD {
            return Err(WalError::TruncatedFrame);
        }
        let wide: u128 = bytes::read_le(buf, 0, 4);
        proof {
            bytes::lemma_le_value_bound(buf@.subrange(0, 4));
            bytes::lemma_byte_limits();
            assert(buf@.subrange(0, 4) =~= buf@.take(4));
        }
        let len: u32 = wide as u32;
        if len > MAX_RECORD_SIZE {
            return Err(WalError::RecordTooLarge(len as usize));
        }
        if buf.len() < FRAME_OVERHEAD + len as usize {
            return Err(WalError::TruncatedFrame);
        }
        Ok(len as usize)
    }

    /// Reads the frame at the front of `buf`. Gives the frame and its size.
    pub fn decode(buf: &[u8]) -> (frame: WalResult<(Self, usize)>)
        ensures
            match first_frame(buf@) {
                Ok((view, size)) => frame matches Ok((f, consumed)) && f@ == view && consumed
                    == size,
                Err(fault) => frame matches Err(error) && error@ == fault,
            },
    {
        reveal(read_frame);
        match Self::payload_len(buf) {
            Err(error) => Err(error),
            Ok(len) => {
                assert(buf@.subrange(0, 14 + len as int) =~= covered(buf@));
                let computed: u32 = crc::checksum(&buf[0..14 + len]);
                Self::decode_checked(buf, computed)
            },
        }
    }
}

/// A frame that can be read is there whole, and has the size that it announces.
pub proof fn lemma_frame_size(buf: Seq<u8>)
    requires
        first_frame(buf) is Ok,
    ensures
        first_frame(buf)->Ok_0.1 == FRAME_OVERHEAD + announced_len(buf),
        announced_len(buf) <= MAX_RECORD_SIZE,
        FRAME_OVERHEAD <= first_frame(buf)->Ok_0.1 <= buf.len(),
{
    reveal(read_frame);
}

/// Bytes that end before their frame does are reported as truncated.
pub proof fn lemma_short_frame(buf: Seq<u8>)
    requires
        buf.len() < FRAME_OVERHEAD || (announced_len(buf) <= MAX_RECORD_SIZE && buf.len()
            < FRAME_OVERHEAD + announced_len(buf)),
    ensures
        first_frame(buf) == Err::<(FrameView, nat), WalFault>(WalFault::TruncatedFrame),
{
    reveal(read_frame);
}

/// The header is read back: a new log's header has no fault.
pub proof fn lemma_header_round_trip(tail: Seq<u8>)
    ensures
        log_header().len() == HEADER_SIZE,
        header_fault(log_header() + tail) is None,
{
    let buf = log_header() + tail;
    bytes::lemma_byte_limits();
    bytes::lemma_le_bytes_len(WAL_VERSION as nat, 2);
    bytes::lemma_le_round_trip(WAL_VERSION as nat, 2);
    assert(buf.take(8) =~= WAL_MAGIC@);
    assert(buf.subrange(8, 10) =~= bytes::le_bytes(WAL_VERSION as nat, 2));
}

/// The parts of a frame's encoding, each where the frame layout puts it.
proof fn lemma_frame_layout(frame: FrameView, tail: Seq<u8>)
    requires
        frame.fits(),
    ensures
        ({
            let buf = frame.encoding() + tail;
            let n = frame.record.payload().len();
            &&& frame.encoding().len() == FRAME_OVERHEAD + n
            &&& announced_len(buf) == n
            &&& covered(buf) == frame.body()
            &&& buf[4] == RECORD_VERSION
            &&& bytes::le_value(buf.subrange(6, 14)) == frame.sequence
            &&& buf.subrange(14, 14 + n as int) == frame.record.payload()
            &&& bytes::le_value(buf.subrange(14 + n as int, 18 + n as int)) == crc::crc32(
                frame.body(),
            )
        }),
{
    let buf = frame.encoding() + tail;
    let payload = frame.record.payload();
    let n = payload.len();
    let sum = crc::crc32(frame.body());
    bytes::lemma_byte_limits();
    bytes::lemma_le_bytes_len(n, 4);
    bytes::lemma_le_bytes_len(frame.sequence as nat, 8);
    bytes::lemma_le_bytes_len(sum as nat, 4);
    bytes::lemma_le_round_trip(n, 4);
    bytes::lemma_le_round_trip(frame.sequence as nat, 8);
    bytes::lemma_le_round_trip(sum as nat, 4);
    assert(frame.body().len() == 14 + n);
    assert(buf.take(4) =~= bytes::le_bytes(n, 4));
    assert(covered(buf) =~= frame.body());
    assert(buf.subrange(6, 14) =~= bytes::le_bytes(frame.sequence as nat, 8));
    assert(buf.subrange(14, 14 + n as int) =~= payload);
    assert(buf.subrange(14 + n as int, 18 + n as int) =~= bytes::le_bytes(sum as nat, 4));
}

/// What encoding a frame wrote, decoding reads back, whatever follows it; and
/// it reads no byte more.
pub proof fn lemma_frame_round_trip(frame: FrameView, tail: Seq<u8>)
    requires
        frame.fits(),
    ensures
        first_frame(frame.encoding() + tail) == Ok::<(FrameView, nat), WalFault>(
            (frame, frame.encoding().len()),
        ),
{
    reveal(read_frame);
    lemma_frame_layout(frame, tail);
    let payload = frame.record.payload();
    record::lemma_record_round_trip(frame.record, Seq::empty());
    assert(payload + Seq::<u8>::empty() =~= payload);
}

/// A frame that was cut short anywhere is reported as truncated.
pub proof fn lemma_cut_frame_is_truncated(frame: FrameView, kept: nat)
    requires
        frame.fits(),
        kept < frame.encoding().len(),
    ensures
        first_frame(frame.encoding().take(kept as int)) == Err::<(FrameView, nat), WalFault>(
            WalFault::TruncatedFrame,
        ),
{
    reveal(read_frame);
    let whole = frame.encoding();
    let cut = whole.take(kept as int);
    lemma_frame_layout(frame, Seq::empty());
    assert(whole + Seq::<u8>::empty() =~= whole);
    if kept >= FRAME_OVERHEAD {
        assert(cut.take(4) =~= whole.take(4));
    }
}

/// A change of any one byte behind the length is noticed: the frame is reported as
/// one of another version or with a wrong checksum, and never read as another.
pub proof fn lemma_changed_byte_is_noticed(frame: FrameView, tail: Seq<u8>, at: int, byte: u8)
    requires
        frame.fits(),
        4 <= at < frame.encoding().len(),
        byte != frame.encoding()[at],
    ensures
        ({
            let buf = frame.encoding().update(at, byte) + tail;
            &&& announced_len(buf) == frame.record.payload().len()
            &&& first_frame(buf) is Err
            &&& if at == 4 {
                first_frame(buf)->Err_0 == WalFault::UnsupportedRecordVersion(byte)
            } else {
                first_frame(buf)->Err_0 is ChecksumMismatch
            }
        }),
{
    reveal(read_frame);
    lemma_frame_layout(frame, tail);
    let whole = frame.encoding();
    let n = frame.record.payload().len();
    let sum = crc::crc32(frame.body());
    let buf = whole.update(at, byte) + tail;
    let old = whole + tail;
    assert(buf =~= old.update(at, byte));
    assert(buf.take(4) =~= old.take(4));
    bytes::lemma_le_bytes_len(sum as nat, 4);
    assert(frame.body().len() == 14 + n);
    let stored = buf.subrange(14 + n as int, 18 + n as int);
    let written = old.subrange(14 + n as int, 18 + n as int);
    bytes::lemma_byte_limits();
    bytes::lemma_le_value_bound(stored);
    if at < 14 + n {
        assert(covered(buf) =~= frame.body().update(at, byte));
        crc::lemma_changed_byte(frame.body(), at, byte);
        assert(stored =~= written);
    } else {
        assert(covered(buf) =~= covered(old));
        assert(stored[at - 14 - n] != written[at - 14 - n]);
        if bytes::le_value(stored) == bytes::le_value(written) {
            bytes::lemma_le_value_injective(stored, written);
        }
    }
}

} // verus!
