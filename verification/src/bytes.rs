//! Byte sequences: integers in both byte orders, and writing over a part of a
//! buffer.
use byteorder::{BigEndian, ReadBytesExt, WriteBytesExt};
use std::io::Cursor;
use vstd::prelude::*;
use vstd::utf8::{is_ascii_chars, is_ascii_chars_encode_utf8};

verus! {

/// The value of the four bytes of `s` from index `at` on, most significant
/// byte first.
pub open spec fn be32_at(s: Seq<u8>, at: int) -> int {
    s[at] * 0x100_0000 + s[at + 1] * 0x1_0000 + s[at + 2] * 0x100 + s[at + 3]
}

/// The value of the eight bytes of `s` from index `at` on, most significant
/// byte first.
pub open spec fn be64_at(s: Seq<u8>, at: int) -> int {
    be32_at(s, at) * 0x1_0000_0000 + be32_at(s, at + 4)
}

/// The byte of `v` whose lowest bit is worth `unit`, a power of 256.
#[verifier::opaque]
pub open spec fn byte_of(v: int, unit: int) -> u8 {
    (v / unit % 0x100) as u8
}

/// The low 32 bits of `v` as four bytes, most significant byte first.
pub open spec fn be32_bytes(v: int) -> Seq<u8> {
    seq![byte_of(v, 0x100_0000), byte_of(v, 0x1_0000), byte_of(v, 0x100), byte_of(v, 1)]
}

/// The low 64 bits of `v` as eight bytes, most significant byte first.
pub open spec fn be64_bytes(v: int) -> Seq<u8> {
    be32_bytes(v / 0x1_0000_0000) + be32_bytes(v)
}

/// The low 32 bits of `v` as four bytes, least significant byte first.
pub open spec fn le32_bytes(v: int) -> Seq<u8> {
    seq![byte_of(v, 1), byte_of(v, 0x100), byte_of(v, 0x1_0000), byte_of(v, 0x100_0000)]
}

/// `s` with the bytes of `t` in place of its own from index `at` on.
pub open spec fn overwritten(s: Seq<u8>, at: int, t: Seq<u8>) -> Seq<u8> {
    s.take(at) + t + s.skip(at + t.len())
}

/// The codes of characters that are all below 128.
pub open spec fn ascii(text: Seq<char>) -> Seq<u8> {
    Seq::new(text.len(), |i: int| text[i] as u8)
}

/// `n` bytes of zero.
pub open spec fn zeros(n: int) -> Seq<u8> {
    Seq::new(n as nat, |i: int| 0u8)
}

/// The two 32-bit halves of the low 64 bits of a value.
proof fn lemma_halves(v: int)
    requires
        0 <= v,
    ensures
        v % 0x1_0000_0000_0000_0000 % 0x1_0000_0000 == v % 0x1_0000_0000,
        v % 0x1_0000_0000_0000_0000 / 0x1_0000_0000 == v / 0x1_0000_0000 % 0x1_0000_0000,
        v / 0x1_0000_0000 % 0x1_0000_0000 * 0x1_0000_0000 + v % 0x1_0000_0000 == v
            % 0x1_0000_0000_0000_0000,
{
    let q = v / 0x1_0000_0000_0000_0000;
    let low = v % 0x1_0000_0000_0000_0000;
    assert(v == (q * 0x1_0000_0000) * 0x1_0000_0000 + low);
    assert(v / 0x1_0000_0000 == q * 0x1_0000_0000 + low / 0x1_0000_0000);
}

/// The fourth byte of a value is one of its low 32 bits.
proof fn lemma_fourth_byte(v: int)
    ensures
        byte_of(v % 0x1_0000_0000, 0x100_0000) == byte_of(v, 0x100_0000),
{
    reveal(byte_of);
    let low = v % 0x1_0000_0000;
    let q = v / 0x1_0000_0000;
    assert(v / 0x100_0000 == q * 0x100 + low / 0x100_0000);
}

/// The third byte of a value is one of its low 32 bits.
proof fn lemma_third_byte(v: int)
    ensures
        byte_of(v % 0x1_0000_0000, 0x1_0000) == byte_of(v, 0x1_0000),
{
    reveal(byte_of);
    let low = v % 0x1_0000_0000;
    let q = v / 0x1_0000_0000;
    assert(v / 0x1_0000 == q * 0x1_0000 + low / 0x1_0000);
}

/// The second byte of a value is one of its low 32 bits.
proof fn lemma_second_byte(v: int)
    ensures
        byte_of(v % 0x1_0000_0000, 0x100) == byte_of(v, 0x100),
{
    reveal(byte_of);
    let low = v % 0x1_0000_0000;
    let q = v / 0x1_0000_0000;
    assert(v / 0x100 == q * 0x100_0000 + low / 0x100);
}

/// The first byte of a value is one of its low 32 bits.
proof fn lemma_first_byte(v: int)
    ensures
        byte_of(v % 0x1_0000_0000, 1) == byte_of(v, 1),
{
    reveal(byte_of);
    assert(v % 0x1_0000_0000 % 0x100 == v % 0x100);
}

/// Four bytes hold the low 32 bits of a value, whether or not its higher bits
/// are dropped first.
pub proof fn law_be32_low_bits(v: int)
    ensures
        be32_bytes(v % 0x1_0000_0000) == be32_bytes(v),
        le32_bytes(v % 0x1_0000_0000) == le32_bytes(v),
{
    lemma_fourth_byte(v);
    lemma_third_byte(v);
    lemma_second_byte(v);
    lemma_first_byte(v);
}

/// Eight bytes hold the low 64 bits of a value, whether or not its higher
/// bits are dropped first.
pub proof fn law_be64_low_bits(v: int)
    requires
        0 <= v,
    ensures
        be64_bytes(v % 0x1_0000_0000_0000_0000) == be64_bytes(v),
{
    let low = v % 0x1_0000_0000_0000_0000;
    lemma_halves(v);
    assert(be32_bytes(low) == be32_bytes(v)) by {
        law_be32_low_bits(v);
        law_be32_low_bits(low);
    }
    assert(be32_bytes(low / 0x1_0000_0000) == be32_bytes(v / 0x1_0000_0000)) by {
        law_be32_low_bits(v / 0x1_0000_0000);
    }
}

/// The low 32 bits of a value, written as four bytes, are what is read back
/// from them.
pub proof fn law_be32_round_trip(v: int)
    requires
        0 <= v,
    ensures
        be32_at(be32_bytes(v), 0) == v % 0x1_0000_0000,
{
    reveal(byte_of);
    let low = v % 0x1_0000_0000;
    let q = v / 0x1_0000_0000;
    assert(v / 0x100_0000 == q * 0x100 + low / 0x100_0000);
    assert(v / 0x1_0000 == q * 0x1_0000 + low / 0x1_0000);
    assert(v / 0x100 == q * 0x100_0000 + low / 0x100);
    let b3 = low / 0x100_0000;
    let b2 = low / 0x1_0000 - b3 * 0x100;
    let b1 = low / 0x100 - b3 * 0x1_0000 - b2 * 0x100;
    let b0 = low - b3 * 0x100_0000 - b2 * 0x1_0000 - b1 * 0x100;
    assert(0 <= b3 < 0x100 && 0 <= b2 < 0x100 && 0 <= b1 < 0x100 && 0 <= b0 < 0x100);
    assert(v / 0x100_0000 % 0x100 == b3);
    assert(v / 0x1_0000 % 0x100 == b2) by {
        assert(v / 0x1_0000 == (q * 0x100 + b3) * 0x100 + b2);
    }
    assert(v / 0x100 % 0x100 == b1) by {
        assert(v / 0x100 == (q * 0x1_0000 + b3 * 0x100 + b2) * 0x100 + b1);
    }
    assert(v / 1 % 0x100 == b0) by {
        assert(v == (q * 0x100_0000 + b3 * 0x1_0000 + b2 * 0x100 + b1) * 0x100 + b0);
    }
}

/// The low 32 bits of a value, written as four bytes with the lowest first, are
/// what is read back from them.
pub proof fn law_le32_round_trip(v: int)
    requires
        0 <= v,
    ensures
        le32_bytes(v).len() == 4,
        le32_bytes(v)[0] + 0x100 * le32_bytes(v)[1] + 0x1_0000 * le32_bytes(v)[2] + 0x100_0000
            * le32_bytes(v)[3] == v % 0x1_0000_0000,
{
    law_be32_round_trip(v);
    let b = be32_bytes(v);
    let l = le32_bytes(v);
    assert(l[0] == b[3] && l[1] == b[2] && l[2] == b[1] && l[3] == b[0]);
}

/// What is put over a part of a sequence stands there, and nothing else is
/// changed.
pub proof fn law_overwritten(s: Seq<u8>, at: int, t: Seq<u8>)
    requires
        0 <= at,
        at + t.len() <= s.len(),
    ensures
        overwritten(s, at, t).len() == s.len(),
        forall|i: int|
            0 <= i < s.len() ==> #[trigger] overwritten(s, at, t)[i] == if at <= i < at + t.len() {
                t[i - at]
            } else {
                s[i]
            },
{
}

/// The low 64 bits of a value, written as eight bytes, are what is read back
/// from them.
pub proof fn law_be64_round_trip(v: int)
    requires
        0 <= v,
    ensures
        be64_at(be64_bytes(v), 0) == v % 0x1_0000_0000_0000_0000,
{
    let b = be64_bytes(v);
    let high = be32_bytes(v / 0x1_0000_0000);
    let low = be32_bytes(v);
    assert(be32_at(b, 0) == be32_at(high, 0));
    assert(be32_at(b, 4) == be32_at(low, 0));
    law_be32_round_trip(v / 0x1_0000_0000);
    law_be32_round_trip(v);
    lemma_halves(v);
}

/// Reads a big-endian `u32` with `ReadBytesExt::read_u32` of `byteorder` from
/// a cursor over `data`. It is the value of the first four bytes; with fewer
/// than four bytes the read fails, which is `None` here.
#[verifier::external_body]
pub(crate) fn read_u32_be(data: &[u8]) -> (r: Option<u32>)
    ensures
        r is Some <==> data@.len() >= 4,
        r matches Some(v) ==> v == be32_at(data@, 0),
{
    Cursor::new(data).read_u32::<BigEndian>().ok()
}

/// Reads a big-endian `u64` with `ReadBytesExt::read_u64` of `byteorder` from
/// a cursor over `data`. It is the value of the first eight bytes; with fewer
/// than eight bytes the read fails, which is `None` here.
#[verifier::external_body]
pub(crate) fn read_u64_be(data: &[u8]) -> (r: Option<u64>)
    ensures
        r is Some <==> data@.len() >= 8,
        r matches Some(v) ==> v == be64_at(data@, 0),
{
    Cursor::new(data).read_u64::<BigEndian>().ok()
}

/// `std::io::Error`, what goes wrong where bytes are read or written.
#[verifier::external_type_specification]
#[verifier::external_body]
pub struct ExIoError(std::io::Error);

/// Writes `v` with `WriteBytesExt::write_u32` of `byteorder` to the slice, in
/// big-endian order. A slice takes what it has room for, so with four bytes of
/// room the write succeeds; it replaces those four and no others.
#[verifier::external_body]
pub(crate) fn write_u32_be(slot: &mut [u8], v: u32) -> (r: std::io::Result<()>)
    requires
        old(slot)@.len() >= 4,
    ensures
        r is Ok,
        final(slot)@ == overwritten(old(slot)@, 0, be32_bytes(v as int)),
{
    let mut room = slot;
    room.write_u32::<BigEndian>(v)
}

/// Writes `v` with `WriteBytesExt::write_u64` of `byteorder` to the slice, in
/// big-endian order. A slice takes what it has room for, so with eight bytes
/// of room the write succeeds; it replaces those eight and no others.
#[verifier::external_body]
pub(crate) fn write_u64_be(slot: &mut [u8], v: u64) -> (r: std::io::Result<()>)
    requires
        old(slot)@.len() >= 8,
    ensures
        r is Ok,
        final(slot)@ == overwritten(old(slot)@, 0, be64_bytes(v as int)),
{
    let mut room = slot;
    room.write_u64::<BigEndian>(v)
}

/// The bytes of a text of characters with codes below 128.
pub fn ascii_bytes(text: &'static str) -> (r: &'static [u8])
    requires
        is_ascii_chars(text@),
    ensures
        r@ == ascii(text@),
{
    proof {
        is_ascii_chars_encode_utf8(text@);
    }
    text.as_bytes()
}

/// Puts the bytes of `src` over those of `buf` from index `at` on.
pub fn overwrite(buf: &mut [u8], at: usize, src: &[u8])
    requires
        at + src@.len() <= old(buf)@.len(),
    ensures
        final(buf)@ == overwritten(old(buf)@, at as int, src@),
{
    let ghost start = buf@;
    let len = buf.len();
    let mut i: usize = 0;
    while i < src.len()
        invariant
            i <= src@.len(),
            at + src@.len() <= len == buf@.len(),
            buf@ == overwritten(start, at as int, src@.take(i as int)),
            start.len() == buf@.len(),
        decreases src@.len() - i,
    {
        buf[at + i] = src[i];
        assert(src@.take(i + 1) =~= src@.take(i as int).push(src@[i as int]));
        i = i + 1;
        assert(buf@ =~= overwritten(start, at as int, src@.take(i as int)));
    }
    assert(src@.take(i as int) =~= src@);
}

} // verus!
