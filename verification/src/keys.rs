//! Fixed-width little-endian keys of the persistent column families.

use vstd::prelude::*;
use vstd::bytes::{spec_u64_from_le_bytes, spec_u64_to_le_bytes};
use byteorder::{ByteOrder, LittleEndian};

verus! {

/// Width in bytes of every integer key and of a stored color.
pub const KEY_LEN: usize = 8;

/// The eight bytes that stand for `value` as a key: least significant byte first.
pub open spec fn key_of(value: u64) -> Seq<u8> {
    spec_u64_to_le_bytes(value)
}

/// `byteorder::LittleEndian::write_u64` on a fresh buffer of eight bytes.
///
/// Claimed of it: the buffer then holds the little-endian bytes of `value`,
/// least significant first.
#[verifier::external_body]
fn write_u64_le(value: u64) -> (bytes: Vec<u8>)
    ensures
        bytes@ == spec_u64_to_le_bytes(value),
        bytes@.len() == 8,
{
    let mut buf = vec![0u8; 8];
    LittleEndian::write_u64(&mut buf, value);
    buf
}

/// `byteorder::LittleEndian::read_u64` on the eight bytes of `bytes` that
/// start at `offset`.
///
/// Claimed of it: it returns the integer whose little-endian bytes are those
/// eight. It panics on a slice with fewer than eight bytes, which `requires`
/// leaves out.
#[verifier::external_body]
fn read_u64_le(bytes: &[u8], offset: usize) -> (value: u64)
    requires
        offset + 8 <= bytes@.len(),
    ensures
        value == spec_u64_from_le_bytes(bytes@.subrange(offset as int, offset + 8)),
{
    LittleEndian::read_u64(&bytes[offset..])
}

/// Encodes a hash, a dataset identifier or a color as a store key.
pub fn encode_key(value: u64) -> (key: Vec<u8>)
    ensures
        key@ == key_of(value),
        key@.len() == KEY_LEN,
{
    write_u64_le(value)
}

/// Decodes a store key; `None` unless the slice is exactly eight bytes long.
pub fn decode_key(bytes: &[u8]) -> (value: Option<u64>)
    ensures
        value is Some <==> bytes@.len() == KEY_LEN,
        value matches Some(v) ==> key_of(v) == bytes@,
{
    if bytes.len() == KEY_LEN {
        let v = read_u64_le(bytes, 0);
        proof {
            vstd::bytes::lemma_auto_spec_u64_to_from_le_bytes();
            assert(bytes@.subrange(0, 8) == bytes@);
        }
        Some(v)
    } else {
        None
    }
}

/// Reads the integer held little-endian in the eight bytes from `offset` on.
pub fn read_u64_at(bytes: &[u8], offset: usize) -> (value: u64)
    requires
        offset + 8 <= bytes@.len(),
    ensures
        value == spec_u64_from_le_bytes(bytes@.subrange(offset as int, offset + 8)),
        key_of(value) == bytes@.subrange(offset as int, offset + 8),
{
    proof {
        vstd::bytes::lemma_auto_spec_u64_to_from_le_bytes();
    }
    read_u64_le(bytes, offset)
}

/// Appends the bytes of `src` to `out`.
pub fn append_bytes(out: &mut Vec<u8>, src: &[u8])
    ensures
        final(out)@ == old(out)@ + src@,
{
    let mut i: usize = 0;
    while i < src.len()
        invariant
            i <= src.len(),
            out@ == old(out)@ + src@.take(i as int),
        decreases src.len() - i,
    {
        out.push(src[i]);
        i += 1;
        assert(src@.take(i as int) == src@.take(i - 1).push(src@[i - 1]));
    }
    assert(src@.take(i as int) == src@);
}

/// Distinct integers have distinct keys.
pub proof fn lemma_key_of_injective(a: u64, b: u64)
    requires
        key_of(a) == key_of(b),
    ensures
        a == b,
{
    vstd::bytes::lemma_auto_spec_u64_to_from_le_bytes();
}

/// A key is eight bytes long.
pub proof fn lemma_key_len(a: u64)
    ensures
        key_of(a).len() == 8,
{
    vstd::bytes::lemma_auto_spec_u64_to_from_le_bytes();
}

} // verus!
