//! Fixed-width little-endian and big-endian integers.

use vstd::prelude::*;

verus! {

/// The `width` low-order base-256 digits of `value`, least significant first.
pub open spec fn le_bytes(value: nat, width: nat) -> Seq<u8>
    decreases width,
{
    if width == 0 {
        Seq::empty()
    } else {
        seq![(value % 256) as u8] + le_bytes(value / 256, (width - 1) as nat)
    }
}

/// The number whose base-256 digits, least significant first, are `bytes`.
pub open spec fn le_value(bytes: Seq<u8>) -> nat
    decreases bytes.len(),
{
    if bytes.len() == 0 {
        0
    } else {
        bytes[0] as nat + 256 * le_value(bytes.skip(1))
    }
}

/// One more than the largest number that `width` bytes can hold.
pub open spec fn byte_limit(width: nat) -> nat
    decreases width,
{
    if width == 0 {
        1
    } else {
        256 * byte_limit((width - 1) as nat)
    }
}

/// The base-256 digits of `value`, most significant first.
pub open spec fn be_bytes(value: nat, width: nat) -> Seq<u8> {
    le_bytes(value, width).reverse()
}

/// The number whose base-256 digits, most significant first, are `bytes`.
pub open spec fn be_value(bytes: Seq<u8>) -> nat {
    le_value(bytes.reverse())
}

/// Writing a number takes exactly the requested number of bytes.
pub proof fn lemma_le_bytes_len(value: nat, width: nat)
    ensures
        le_bytes(value, width).len() == width,
    decreases width,
{
    if width > 0 {
        lemma_le_bytes_len(value / 256, (width - 1) as nat);
    }
}

/// A number that fits is read back from the bytes it was written as.
pub proof fn lemma_le_round_trip(value: nat, width: nat)
    requires
        value < byte_limit(width),
    ensures
        le_value(le_bytes(value, width)) == value,
    decreases width,
{
    if width > 0 {
        let rest = le_bytes(value / 256, (width - 1) as nat);
        lemma_le_round_trip(value / 256, (width - 1) as nat);
        assert(le_bytes(value, width).skip(1) =~= rest);
    }
}

/// What is read from a byte string fits in that many bytes.
pub proof fn lemma_le_value_bound(bytes: Seq<u8>)
    ensures
        le_value(bytes) < byte_limit(bytes.len()),
    decreases bytes.len(),
{
    if bytes.len() > 0 {
        lemma_le_value_bound(bytes.skip(1));
    }
}

/// Byte strings of one length that are read as the same number are the same.
pub proof fn lemma_le_value_injective(a: Seq<u8>, b: Seq<u8>)
    requires
        a.len() == b.len(),
        le_value(a) == le_value(b),
    ensures
        a == b,
    decreases a.len(),
{
    if a.len() > 0 {
        assert(a[0] == b[0] && le_value(a.skip(1)) == le_value(b.skip(1)));
        lemma_le_value_injective(a.skip(1), b.skip(1));
        assert(a =~= seq![a[0]] + a.skip(1));
        assert(b =~= seq![b[0]] + b.skip(1));
    }
}

/// A number that fits is read back from its big-endian bytes.
pub proof fn lemma_be_round_trip(value: nat, width: nat)
    requires
        value < byte_limit(width),
    ensures
        be_bytes(value, width).len() == width,
        be_value(be_bytes(value, width)) == value,
{
    lemma_le_bytes_len(value, width);
    lemma_le_round_trip(value, width);
    assert(be_bytes(value, width).reverse() =~= le_bytes(value, width));
}

/// The widths that the log uses, as powers of two.
pub proof fn lemma_byte_limits()
    ensures
        byte_limit(2) == 0x1_0000,
        byte_limit(4) == 0x1_0000_0000,
        byte_limit(8) == 0x1_0000_0000_0000_0000,
        byte_limit(16) == 0x1_0000_0000_0000_0000_0000_0000_0000_0000,
{
    reveal_with_fuel(byte_limit, 17);
}

/// Appends the `width` low-order bytes of `value` to `out`, least significant
/// first.
pub fn push_le(out: &mut Vec<u8>, value: u128, width: usize)
    ensures
        final(out)@ == old(out)@ + le_bytes(value as nat, width as nat),
{
    let mut rest: u128 = value;
    let mut done: usize = 0;
    while done < width
        invariant
            done <= width,
            old(out)@ + le_bytes(value as nat, width as nat) == out@ + le_bytes(
                rest as nat,
                (width - done) as nat,
            ),
        decreases width - done,
    {
        let digit: u8 = (rest % 256) as u8;
        proof {
            assert(out@.push(digit) + le_bytes(rest as nat / 256, (width - done - 1) as nat)
                =~= out@ + le_bytes(rest as nat, (width - done) as nat));
        }
        out.push(digit);
        rest = rest / 256;
        done = done + 1;
    }
    assert(out@ + le_bytes(rest as nat, 0) =~= out@);
}

/// Reads the `width` bytes at `at` as a little-endian number.
pub fn read_le(buf: &[u8], at: usize, width: usize) -> (value: u128)
    requires
        width <= 16,
        at + width <= buf@.len(),
    ensures
        value == le_value(buf@.subrange(at as int, at + width)),
{
    let total: usize = buf.len();
    let mut value: u128 = 0;
    let mut left: usize = width;
    proof {
        lemma_byte_limits();
        assert(buf@.subrange(at + width, at + width) =~= Seq::<u8>::empty());
    }
    while left > 0
        invariant
            left <= width <= 16,
            at + width <= total == buf@.len(),
            value == le_value(buf@.subrange(at + left, at + width)),
        decreases left,
    {
        left = left - 1;
        let digit: u8 = buf[at + left];
        let ghost tail = buf@.subrange(at + left, at + width);
        proof {
            assert(tail.skip(1) =~= buf@.subrange(at + left + 1, at + width));
            lemma_le_value_bound(tail);
            lemma_byte_limit_monotonic(tail.len(), 16);
            lemma_byte_limits();
        }
        value = digit as u128 + 256 * value;
    }
    value
}

/// A wider number holds at least as much.
pub proof fn lemma_byte_limit_monotonic(low: nat, high: nat)
    requires
        low <= high,
    ensures
        1 <= byte_limit(low) <= byte_limit(high),
    decreases high,
{
    if low < high {
        lemma_byte_limit_monotonic(low, (high - 1) as nat);
    } else if high > 0 {
        lemma_byte_limit_monotonic((low - 1) as nat, (high - 1) as nat);
    }
}

/// The 16 big-endian bytes of `value`.
pub fn u128_to_be(value: u128) -> (out: Vec<u8>)
    ensures
        out@ == be_bytes(value as nat, 16),
{
    let mut little: Vec<u8> = Vec::new();
    push_le(&mut little, value, 16);
    proof {
        lemma_le_bytes_len(value as nat, 16);
        assert(little@ =~= le_bytes(value as nat, 16));
    }
    let mut out: Vec<u8> = Vec::new();
    let mut left: usize = 16;
    while left > 0
        invariant
            left <= 16,
            little@.len() == 16,
            out@ =~= little@.reverse().take(16 - left),
        decreases left,
    {
        left = left - 1;
        out.push(little[left]);
    }
    assert(out@ =~= little@.reverse());
    out
}

/// The number whose 16 big-endian bytes are `bytes`.
pub fn u128_from_be(bytes: &[u8]) -> (value: u128)
    requires
        bytes@.len() == 16,
    ensures
        value == be_value(bytes@),
{
    let mut little: Vec<u8> = Vec::new();
    let mut left: usize = 16;
    while left > 0
        invariant
            left <= 16,
            bytes@.len() == 16,
            little@ =~= bytes@.reverse().take(16 - left),
        decreases left,
    {
        left = left - 1;
        little.push(bytes[left]);
    }
    assert(little@ =~= bytes@.reverse());
    assert(little@.subrange(0, 16) =~= little@);
    read_le(&little, 0, 16)
}

} // verus!
