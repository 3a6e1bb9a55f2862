//! Numbers and text on the wire: big-endian integers and UTF-8.

use byteorder::{BigEndian, ByteOrder, WriteBytesExt};
use vstd::prelude::*;
use vstd::utf8::*;

verus! {

/// `value` in `width` bytes, most significant byte first.
pub open spec fn be_bytes(value: nat, width: nat) -> Seq<u8>
    decreases width,
{
    if width == 0 {
        Seq::empty()
    } else {
        be_bytes(value / 256, (width - 1) as nat).push((value % 256) as u8)
    }
}

/// The number that bytes stand for, most significant byte first.
pub open spec fn be_value(s: Seq<u8>) -> nat
    decreases s.len(),
{
    if s.len() == 0 {
        0
    } else {
        be_value(s.drop_last()) * 256 + s.last() as nat
    }
}

/// The number of values that `width` bytes can tell apart.
pub open spec fn be_limit(width: nat) -> nat
    decreases width,
{
    if width == 0 {
        1
    } else {
        256 * be_limit((width - 1) as nat)
    }
}

/// `WriteBytesExt::write_u16` of the `byteorder` crate, big-endian, on a `Vec<u8>`: the two bytes
/// are put behind what is there. Writing to a vector does not fail.
#[verifier::external_body]
pub(crate) fn put_u16(buf: &mut Vec<u8>, n: u16)
    ensures
        final(buf)@ == old(buf)@ + be_bytes(n as nat, 2),
{
    buf.write_u16::<BigEndian>(n).unwrap()
}

/// `WriteBytesExt::write_u64` of the `byteorder` crate, big-endian, on a `Vec<u8>`: the eight
/// bytes are put behind what is there. Writing to a vector does not fail.
#[verifier::external_body]
pub(crate) fn put_u64(buf: &mut Vec<u8>, n: u64)
    ensures
        final(buf)@ == old(buf)@ + be_bytes(n as nat, 8),
{
    buf.write_u64::<BigEndian>(n).unwrap()
}

/// `ByteOrder::read_u16` of the `byteorder` crate for `BigEndian`: the number in the first two
/// bytes. It panics on fewer.
#[verifier::external_body]
pub(crate) fn get_u16(buf: &[u8]) -> (n: u16)
    requires
        buf@.len() >= 2,
    ensures
        n == be_value(buf@.take(2)),
{
    BigEndian::read_u16(buf)
}

/// `ByteOrder::read_u32` of the `byteorder` crate for `BigEndian`: the number in the first four
/// bytes. It panics on fewer.
#[verifier::external_body]
pub(crate) fn get_u32(buf: &[u8]) -> (n: u32)
    requires
        buf@.len() >= 4,
    ensures
        n == be_value(buf@.take(4)),
{
    BigEndian::read_u32(buf)
}

/// `ByteOrder::read_u64` of the `byteorder` crate for `BigEndian`: the number in the first eight
/// bytes. It panics on fewer.
#[verifier::external_body]
pub(crate) fn get_u64(buf: &[u8]) -> (n: u64)
    requires
        buf@.len() >= 8,
    ensures
        n == be_value(buf@.take(8)),
{
    BigEndian::read_u64(buf)
}

/// What `String::from_utf8_lossy` makes of bytes.
pub uninterp spec fn lossy_text(bytes: Seq<u8>) -> Seq<char>;

/// `String::from_utf8_lossy`: bytes that are UTF-8 become the text that they encode. How broken
/// bytes are replaced is left to the name `lossy_text`.
#[verifier::external_body]
pub(crate) fn lossy(bytes: &[u8]) -> (s: String)
    ensures
        s@ == lossy_text(bytes@),
        valid_utf8(bytes@) ==> s@ == decode_utf8(bytes@),
{
    String::from_utf8_lossy(bytes).to_string()
}

/// A number is read as it was written.
pub proof fn lemma_be_value_of_bytes(value: nat, width: nat)
    requires
        value < be_limit(width),
    ensures
        be_value(be_bytes(value, width)) == value,
        be_bytes(value, width).len() == width,
    decreases width,
{
    if width > 0 {
        assert(value / 256 < be_limit((width - 1) as nat));
        lemma_be_value_of_bytes(value / 256, (width - 1) as nat);
        let s = be_bytes(value, width);
        assert(s.drop_last() =~= be_bytes(value / 256, (width - 1) as nat));
    }
}

/// Bytes are written as they were read.
pub proof fn lemma_be_bytes_of_value(s: Seq<u8>)
    ensures
        be_value(s) < be_limit(s.len()),
        be_bytes(be_value(s), s.len()) == s,
    decreases s.len(),
{
    if s.len() > 0 {
        lemma_be_bytes_of_value(s.drop_last());
        let v = be_value(s.drop_last());
        assert((v * 256 + s.last() as nat) / 256 == v);
        assert((v * 256 + s.last() as nat) % 256 == s.last() as nat);
        assert(be_bytes(be_value(s), s.len()) =~= s);
    } else {
        assert(be_bytes(be_value(s), s.len()) =~= s);
    }
}

/// How many numbers fit in two, four and eight bytes.
pub proof fn lemma_be_limits()
    ensures
        be_limit(2) == 0x1_0000,
        be_limit(4) == 0x1_0000_0000,
        be_limit(8) == 0x1_0000_0000_0000_0000,
{
    reveal_with_fuel(be_limit, 9);
}

} // verus!
