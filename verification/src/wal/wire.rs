//! Postcard's wire encoding of plain values.
//!
//! The log's payloads are postcard messages. The functions here call postcard
//! for each plain value that a record is made of and state, over byte
//! sequences, what it writes and reads.

use vstd::prelude::*;

verus! {

/// Why a value could not be read from a payload.
#[derive(Debug, Clone, Copy, PartialEq, Eq, Structural)]
pub enum DecodeFailure {
    /// The payload ends inside the value.
    UnexpectedEnd,
    /// A variable-length integer is too long or too large for its type.
    BadVarint,
    /// The bytes of a string are not UTF-8.
    BadUtf8,
    /// The bytes are well formed but stand for no value of the type.
    BadValue,
}

impl DecodeFailure {
    /// The text that postcard gives for the failure.
    pub open spec fn message(self) -> Seq<char> {
        match self {
            DecodeFailure::UnexpectedEnd => "Hit the end of buffer, expected more data"@,
            DecodeFailure::BadVarint =>
                "Found a varint that didn't terminate. Is the usize too big for this platform?"@,
            DecodeFailure::BadUtf8 => "Tried to parse invalid utf-8"@,
            DecodeFailure::BadValue => "Serde Deserialization Error"@,
        }
    }
}

/// A variable-length integer: base-128 digits, least significant first, the
/// high bit set on every byte but the last.
pub open spec fn varint(n: nat) -> Seq<u8>
    decreases n,
{
    if n < 128 {
        seq![n as u8]
    } else {
        seq![(n % 128 + 128) as u8] + varint(n / 128)
    }
}

/// Reads a variable-length integer of at most `max` bytes, the last of which
/// may be at most `last` when all `max` bytes are used. Gives the number and
/// how many bytes it took.
pub open spec fn take_varint(bytes: Seq<u8>, max: nat, last: nat) -> Result<
    (nat, nat),
    DecodeFailure,
>
    decreases max,
{
    if max == 0 {
        Err(DecodeFailure::BadVarint)
    } else if bytes.len() == 0 {
        Err(DecodeFailure::UnexpectedEnd)
    } else if bytes[0] < 128 {
        if max == 1 && bytes[0] > last {
            Err(DecodeFailure::BadVarint)
        } else {
            Ok((bytes[0] as nat, 1))
        }
    } else {
        match take_varint(bytes.skip(1), (max - 1) as nat, last) {
            Ok((n, used)) => Ok(((bytes[0] - 128) as nat + 128 * n, used + 1)),
            Err(failure) => Err(failure),
        }
    }
}

/// Reads a 32-bit variable-length integer.
pub open spec fn take_varint_32(bytes: Seq<u8>) -> Result<(nat, nat), DecodeFailure> {
    take_varint(bytes, 5, 15)
}

/// Reads a 64-bit variable-length integer.
pub open spec fn take_varint_64(bytes: Seq<u8>) -> Result<(nat, nat), DecodeFailure> {
    take_varint(bytes, 10, 1)
}

/// Reads a length, which is as wide as the machine's `usize`.
pub open spec fn take_length(bytes: Seq<u8>) -> Result<(nat, nat), DecodeFailure> {
    if usize::BITS == 64 {
        take_varint_64(bytes)
    } else {
        take_varint_32(bytes)
    }
}

/// Maps signed to unsigned so that small magnitudes stay small.
pub open spec fn zigzag(n: int) -> nat {
    if n >= 0 {
        (2 * n) as nat
    } else {
        (-2 * n - 1) as nat
    }
}

/// Undoes [`zigzag`].
pub open spec fn unzigzag(n: nat) -> int {
    if n % 2 == 0 {
        n as int / 2
    } else {
        -(n as int / 2) - 1
    }
}

/// A byte string: its length, then its bytes.
pub open spec fn byte_string(bytes: Seq<u8>) -> Seq<u8> {
    varint(bytes.len()) + bytes
}

/// Reads a byte string: gives its bytes and how many bytes were taken in all.
pub open spec fn take_byte_string(bytes: Seq<u8>) -> Result<(Seq<u8>, nat), DecodeFailure> {
    match take_length(bytes) {
        Err(failure) => Err(failure),
        Ok((len, used)) => if bytes.len() < used + len {
            Err(DecodeFailure::UnexpectedEnd)
        } else {
            Ok((bytes.subrange(used as int, (used + len) as int), used + len))
        },
    }
}

/// Reads a string: gives its characters and how many bytes were taken in all.
pub open spec fn take_text(bytes: Seq<u8>) -> Result<(Seq<char>, nat), DecodeFailure> {
    match take_byte_string(bytes) {
        Err(failure) => Err(failure),
        Ok((raw, used)) => if vstd::utf8::valid_utf8(raw) {
            Ok((vstd::utf8::decode_utf8(raw), used))
        } else {
            Err(DecodeFailure::BadUtf8)
        },
    }
}

/// Calls `postcard::to_allocvec` on a `u32`. Postcard writes it as a
/// variable-length integer; writing to a growing buffer never fails.
#[verifier::external_body]
pub(crate) fn encode_u32(value: u32) -> (out: Vec<u8>)
    ensures
        out@ == varint(value as nat),
{
    postcard::to_allocvec(&value).expect("a growing buffer is never full")
}

/// Calls `postcard::to_allocvec` on a `u64`. Postcard writes it as a
/// variable-length integer; writing to a growing buffer never fails.
#[verifier::external_body]
pub(crate) fn encode_u64(value: u64) -> (out: Vec<u8>)
    ensures
        out@ == varint(value as nat),
{
    postcard::to_allocvec(&value).expect("a growing buffer is never full")
}

/// Calls `postcard::to_allocvec` on an `i64`. Postcard writes its zigzag
/// mapping as a variable-length integer; writing to a growing buffer never
/// fails.
#[verifier::external_body]
pub(crate) fn encode_i64(value: i64) -> (out: Vec<u8>)
    ensures
        out@ == varint(zigzag(value as int)),
{
    postcard::to_allocvec(&value).expect("a growing buffer is never full")
}

/// Calls `postcard::to_allocvec` on a `str`. Postcard writes the length in
/// bytes, then the UTF-8 bytes; writing to a growing buffer never fails.
#[verifier::external_body]
pub(crate) fn encode_text(value: &str) -> (out: Vec<u8>)
    ensures
        out@ == byte_string(vstd::utf8::encode_utf8(value@)),
{
    postcard::to_allocvec(value).expect("a growing buffer is never full")
}

/// Calls `postcard::to_allocvec` on a slice of bytes. Postcard writes the
/// length, then each byte as it is; writing to a growing buffer never fails.
#[verifier::external_body]
pub(crate) fn encode_bytes(value: &[u8]) -> (out: Vec<u8>)
    ensures
        out@ == byte_string(value@),
{
    postcard::to_allocvec(value).expect("a growing buffer is never full")
}

/// Calls `postcard::take_from_bytes` for a `u32`: the number at the front of
/// `bytes` and what follows it, or why there is none.
#[verifier::external_body]
pub(crate) fn take_u32<'a>(bytes: &'a [u8]) -> (taken: Result<(u32, &'a [u8]), DecodeFailure>)
    ensures
        match take_varint_32(bytes@) {
            Ok((n, used)) => taken matches Ok((value, rest)) && value == n && rest@ == bytes@.skip(
                used as int,
            ),
            Err(failure) => taken == Err::<(u32, &'a [u8]), DecodeFailure>(failure),
        },
{
    match postcard::take_from_bytes::<u32>(bytes) {
        Ok(taken) => Ok(taken),
        Err(postcard::Error::DeserializeUnexpectedEnd) => Err(DecodeFailure::UnexpectedEnd),
        Err(postcard::Error::DeserializeBadVarint) => Err(DecodeFailure::BadVarint),
        Err(_) => Err(DecodeFailure::BadValue),
    }
}

/// Calls `postcard::take_from_bytes` for a `u64`: the number at the front of
/// `bytes` and what follows it, or why there is none.
#[verifier::external_body]
pub(crate) fn take_u64<'a>(bytes: &'a [u8]) -> (taken: Result<(u64, &'a [u8]), DecodeFailure>)
    ensures
        match take_varint_64(bytes@) {
            Ok((n, used)) => taken matches Ok((value, rest)) && value == n && rest@ == bytes@.skip(
                used as int,
            ),
            Err(failure) => taken == Err::<(u64, &'a [u8]), DecodeFailure>(failure),
        },
{
    match postcard::take_from_bytes::<u64>(bytes) {
        Ok(taken) => Ok(taken),
        Err(postcard::Error::DeserializeUnexpectedEnd) => Err(DecodeFailure::UnexpectedEnd),
        Err(postcard::Error::DeserializeBadVarint) => Err(DecodeFailure::BadVarint),
        Err(_) => Err(DecodeFailure::BadValue),
    }
}

/// Calls `postcard::take_from_bytes` for an `i64`: the number at the front of
/// `bytes` and what follows it, or why there is none.
#[verifier::external_body]
pub(crate) fn take_i64<'a>(bytes: &'a [u8]) -> (taken: Result<(i64, &'a [u8]), DecodeFailure>)
    ensures
        match take_varint_64(bytes@) {
            Ok((n, used)) => taken matches Ok((value, rest)) && value == unzigzag(n) && rest@
                == bytes@.skip(used as int),
            Err(failure) => taken == Err::<(i64, &'a [u8]), DecodeFailure>(failure),
        },
{
    match postcard::take_from_bytes::<i64>(bytes) {
        Ok(taken) => Ok(taken),
        Err(postcard::Error::DeserializeUnexpectedEnd) => Err(DecodeFailure::UnexpectedEnd),
        Err(postcard::Error::DeserializeBadVarint) => Err(DecodeFailure::BadVarint),
        Err(_) => Err(DecodeFailure::BadValue),
    }
}

/// Calls `postcard::take_from_bytes` for a `String`: the string at the front of
/// `bytes` and what follows it, or why there is none.
#[verifier::external_body]
pub(crate) fn take_string<'a>(bytes: &'a [u8]) -> (taken: Result<
    (String, &'a [u8]),
    DecodeFailure,
>)
    ensures
        match take_text(bytes@) {
            Ok((text, used)) => taken matches Ok((value, rest)) && value@ == text && rest@
                == bytes@.skip(used as int),
            Err(failure) => taken == Err::<(String, &'a [u8]), DecodeFailure>(failure),
        },
{
    match postcard::take_from_bytes::<String>(bytes) {
        Ok(taken) => Ok(taken),
        Err(postcard::Error::DeserializeUnexpectedEnd) => Err(DecodeFailure::UnexpectedEnd),
        Err(postcard::Error::DeserializeBadVarint) => Err(DecodeFailure::BadVarint),
        Err(postcard::Error::DeserializeBadUtf8) => Err(DecodeFailure::BadUtf8),
        Err(_) => Err(DecodeFailure::BadValue),
    }
}

/// Calls `postcard::take_from_bytes` for a `Vec<u8>`: the byte string at the
/// front of `bytes` and what follows it, or why there is none.
#[verifier::external_body]
pub(crate) fn take_bytes<'a>(bytes: &'a [u8]) -> (taken: Result<
    (Vec<u8>, &'a [u8]),
    DecodeFailure,
>)
    ensures
        match take_byte_string(bytes@) {
            Ok((raw, used)) => taken matches Ok((value, rest)) && value@ == raw && rest@
                == bytes@.skip(used as int),
            Err(failure) => taken == Err::<(Vec<u8>, &'a [u8]), DecodeFailure>(failure),
        },
{
    match postcard::take_from_bytes::<Vec<u8>>(bytes) {
        Ok(taken) => Ok(taken),
        Err(postcard::Error::DeserializeUnexpectedEnd) => Err(DecodeFailure::UnexpectedEnd),
        Err(postcard::Error::DeserializeBadVarint) => Err(DecodeFailure::BadVarint),
        Err(_) => Err(DecodeFailure::BadValue),
    }
}

/// Calls the `Display` impl of `postcard::Error` through `to_string`: each
/// failure has one fixed text.
#[verifier::external_body]
pub(crate) fn failure_text(failure: DecodeFailure) -> (text: String)
    ensures
        text@ == failure.message(),
{
    let error: postcard::Error = match failure {
        DecodeFailure::UnexpectedEnd => postcard::Error::DeserializeUnexpectedEnd,
        DecodeFailure::BadVarint => postcard::Error::DeserializeBadVarint,
        DecodeFailure::BadUtf8 => postcard::Error::DeserializeBadUtf8,
        DecodeFailure::BadValue => postcard::Error::SerdeDeCustom,
    };
    error.to_string()
}

/// The largest number that `max` bytes hold when the last is at most `last`.
pub open spec fn varint_limit(max: nat, last: nat) -> nat
    decreases max,
{
    if max <= 1 {
        last
    } else {
        128 * varint_limit((max - 1) as nat, last) + 127
    }
}

/// The limits are exactly the ranges of the integer types.
pub proof fn lemma_varint_limits()
    ensures
        varint_limit(5, 15) == u32::MAX,
        varint_limit(10, 1) == u64::MAX,
{
    reveal_with_fuel(varint_limit, 10);
}

/// A number that fits is read back from the front of any longer input.
pub proof fn lemma_varint_round_trip(n: nat, tail: Seq<u8>, max: nat, last: nat)
    requires
        1 <= max,
        last < 128,
        n <= varint_limit(max, last),
    ensures
        1 <= varint(n).len() <= max,
        take_varint(varint(n) + tail, max, last) == Ok::<(nat, nat), DecodeFailure>(
            (n, varint(n).len()),
        ),
    decreases max,
{
    let bytes = varint(n) + tail;
    if n < 128 {
        assert(bytes[0] == n);
    } else {
        lemma_varint_round_trip(n / 128, tail, (max - 1) as nat, last);
        assert(bytes[0] == n % 128 + 128);
        assert(bytes.skip(1) =~= varint(n / 128) + tail);
    }
}

/// Zigzag loses nothing, and a 64-bit number stays within 64 bits.
pub proof fn lemma_zigzag_round_trip(n: i64)
    ensures
        unzigzag(zigzag(n as int)) == n,
        zigzag(n as int) <= u64::MAX,
{
}

/// A byte string is read back from the front of any longer input.
pub proof fn lemma_byte_string_round_trip(raw: Seq<u8>, tail: Seq<u8>)
    requires
        raw.len() <= usize::MAX,
    ensures
        take_byte_string(byte_string(raw) + tail) == Ok::<(Seq<u8>, nat), DecodeFailure>(
            (raw, byte_string(raw).len()),
        ),
{
    let bytes = byte_string(raw) + tail;
    lemma_varint_limits();
    if usize::BITS == 64 {
        lemma_varint_round_trip(raw.len(), raw + tail, 10, 1);
    } else {
        lemma_varint_round_trip(raw.len(), raw + tail, 5, 15);
    }
    assert(bytes =~= varint(raw.len()) + (raw + tail));
    let used = varint(raw.len()).len();
    assert(bytes.subrange(used as int, (used + raw.len()) as int) =~= raw);
}

/// A string is read back from the front of any longer input.
pub proof fn lemma_text_round_trip(text: Seq<char>, tail: Seq<u8>)
    requires
        vstd::utf8::encode_utf8(text).len() <= usize::MAX,
    ensures
        take_text(byte_string(vstd::utf8::encode_utf8(text)) + tail) == Ok::<
            (Seq<char>, nat),
            DecodeFailure,
        >((text, byte_string(vstd::utf8::encode_utf8(text)).len())),
{
    let raw = vstd::utf8::encode_utf8(text);
    lemma_byte_string_round_trip(raw, tail);
    vstd::utf8::encode_utf8_valid_utf8(text);
    vstd::utf8::encode_utf8_decode_utf8(text);
}

} // verus!
