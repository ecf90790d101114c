//! The checksum of frames.

use vstd::prelude::*;

verus! {

/// A remainder moved on by one bit, in the division by the polynomial of CRC-32.
/// The first bit is the least significant one.
pub open spec fn moved_on(crc: u32) -> u32 {
    if crc & 1 == 1 {
        (crc >> 1) ^ 0xedb8_8320
    } else {
        crc >> 1
    }
}

/// A remainder moved on by a byte.
pub open spec fn with_byte(crc: u32, byte: u8) -> u32 {
    moved_on(
        moved_on(
            moved_on(
                moved_on(
                    moved_on(moved_on(moved_on(moved_on(crc ^ (byte as u32))))),
                ),
            ),
        ),
    )
}

/// The remainder of a sequence of bytes, with all bits set at the start.
pub open spec fn remainder(bytes: Seq<u8>) -> u32
    decreases bytes.len(),
{
    if bytes.len() == 0 {
        0xffff_ffff
    } else {
        with_byte(remainder(bytes.drop_last()), bytes.last())
    }
}

/// The CRC-32 checksum (IEEE) of a sequence of bytes: its remainder with all bits
/// turned over.
pub open spec fn crc32(bytes: Seq<u8>) -> u32 {
    remainder(bytes) ^ 0xffff_ffff
}

/// Calls `crc32fast::hash`, which computes the CRC-32 checksum (IEEE) of the
/// bytes.
#[verifier::external_body]
pub(crate) fn checksum(bytes: &[u8]) -> (sum: u32)
    ensures
        sum == crc32(bytes@),
{
    crc32fast::hash(bytes)
}

/// Different remainders stay different when they are moved on.
proof fn lemma_moved_on(a: u32, b: u32)
    ensures
        moved_on(a) == moved_on(b) ==> a == b,
{
    assert(moved_on(a) == moved_on(b) ==> a == b) by (bit_vector);
}

/// Different remainders stay different under the same byte, and one remainder
/// becomes different under different bytes.
proof fn lemma_with_byte(a: u32, x: u8, b: u32, y: u8)
    requires
        (a == b) != (x == y),
    ensures
        with_byte(a, x) != with_byte(b, y),
{
    let p = a ^ (x as u32);
    let q = b ^ (y as u32);
    if x == y {
        assert(p != q) by {
            assert(a ^ (x as u32) == b ^ (x as u32) ==> a == b) by (bit_vector);
        }
    } else {
        assert(p != q) by {
            assert(a ^ (x as u32) == a ^ (y as u32) ==> x == y) by (bit_vector);
        }
    }
    lemma_moved_on(p, q);
    lemma_moved_on(moved_on(p), moved_on(q));
    let (p2, q2) = (moved_on(moved_on(p)), moved_on(moved_on(q)));
    lemma_moved_on(p2, q2);
    lemma_moved_on(moved_on(p2), moved_on(q2));
    let (p4, q4) = (moved_on(moved_on(p2)), moved_on(moved_on(q2)));
    lemma_moved_on(p4, q4);
    lemma_moved_on(moved_on(p4), moved_on(q4));
    let (p6, q6) = (moved_on(moved_on(p4)), moved_on(moved_on(q4)));
    lemma_moved_on(p6, q6);
    lemma_moved_on(moved_on(p6), moved_on(q6));
}

/// A change of one byte changes the remainder.
proof fn lemma_changed_remainder(bytes: Seq<u8>, at: int, byte: u8)
    requires
        0 <= at < bytes.len(),
        byte != bytes[at],
    ensures
        remainder(bytes.update(at, byte)) != remainder(bytes),
    decreases bytes.len(),
{
    let changed = bytes.update(at, byte);
    let rest = bytes.drop_last();
    if at == bytes.len() - 1 {
        assert(changed.drop_last() =~= rest);
        lemma_with_byte(remainder(rest), byte, remainder(rest), bytes.last());
    } else {
        lemma_changed_remainder(rest, at, byte);
        assert(changed.drop_last() =~= rest.update(at, byte));
        lemma_with_byte(
            remainder(rest.update(at, byte)),
            bytes.last(),
            remainder(rest),
            bytes.last(),
        );
    }
}

/// A change of one byte changes the checksum.
pub proof fn lemma_changed_byte(bytes: Seq<u8>, at: int, byte: u8)
    requires
        0 <= at < bytes.len(),
        byte != bytes[at],
    ensures
        crc32(bytes.update(at, byte)) != crc32(bytes),
{
    lemma_changed_remainder(bytes, at, byte);
    let a = remainder(bytes.update(at, byte));
    let b = remainder(bytes);
    assert(a ^ 0xffff_ffff == b ^ 0xffff_ffff ==> a == b) by (bit_vector);
}

} // verus!
