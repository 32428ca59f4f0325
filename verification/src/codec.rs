//! Little-endian integer and byte-string framing shared by the command, WAL
//! and storage formats.

use vstd::prelude::*;
use vstd::bytes::{
    spec_u32_from_le_bytes, spec_u32_to_le_bytes, spec_u64_from_le_bytes, spec_u64_to_le_bytes,
    u32_from_le_bytes, u32_to_le_bytes, u64_from_le_bytes, u64_to_le_bytes,
};
use vstd::slice::slice_subrange;
use vstd::utf8::{decode_utf8, encode_utf8, valid_utf8};

verus! {

/// The four little-endian bytes of `x`.
pub open spec fn le32(x: u32) -> Seq<u8> {
    spec_u32_to_le_bytes(x)
}

/// The eight little-endian bytes of `x`.
pub open spec fn le64(x: u64) -> Seq<u8> {
    spec_u64_to_le_bytes(x)
}

/// The `u32` stored little-endian at `pos`.
pub open spec fn u32_at(buf: Seq<u8>, pos: int) -> u32 {
    spec_u32_from_le_bytes(buf.subrange(pos, pos + 4))
}

/// The `u64` stored little-endian at `pos`.
pub open spec fn u64_at(buf: Seq<u8>, pos: int) -> u64 {
    spec_u64_from_le_bytes(buf.subrange(pos, pos + 8))
}

pub proof fn lemma_le32_len(x: u32)
    ensures
        le32(x).len() == 4,
{
    vstd::bytes::lemma_auto_spec_u32_to_from_le_bytes();
}

pub proof fn lemma_le64_len(x: u64)
    ensures
        le64(x).len() == 8,
{
    vstd::bytes::lemma_auto_spec_u64_to_from_le_bytes();
}

/// Reading back a `u32` written at `p.len()`, whatever surrounds it.
pub proof fn lemma_u32_roundtrip(p: Seq<u8>, x: u32, q: Seq<u8>)
    ensures
        u32_at(p + le32(x) + q, p.len() as int) == x,
        (p + le32(x) + q).len() == p.len() + 4 + q.len(),
{
    vstd::bytes::lemma_auto_spec_u32_to_from_le_bytes();
    assert((p + le32(x) + q).subrange(p.len() as int, p.len() + 4int) =~= le32(x));
}

/// Reading back a `u64` written at `p.len()`, whatever surrounds it.
pub proof fn lemma_u64_roundtrip(p: Seq<u8>, x: u64, q: Seq<u8>)
    ensures
        u64_at(p + le64(x) + q, p.len() as int) == x,
        (p + le64(x) + q).len() == p.len() + 8 + q.len(),
{
    vstd::bytes::lemma_auto_spec_u64_to_from_le_bytes();
    assert((p + le64(x) + q).subrange(p.len() as int, p.len() + 8int) =~= le64(x));
}

/// Appends the bytes of `src`.
pub fn put_bytes(buf: &mut Vec<u8>, src: &[u8])
    ensures
        final(buf)@ == old(buf)@ + src@,
{
    let mut i: usize = 0;
    while i < src.len()
        invariant
            i <= src@.len(),
            buf@ == old(buf)@ + src@.subrange(0, i as int),
        decreases src@.len() - i,
    {
        buf.push(src[i]);
        i = i + 1;
        assert(buf@ =~= old(buf)@ + src@.subrange(0, i as int));
    }
    assert(src@.subrange(0, src@.len() as int) =~= src@);
}

/// Appends `x` as four little-endian bytes.
pub fn put_u32(buf: &mut Vec<u8>, x: u32)
    ensures
        final(buf)@ == old(buf)@ + le32(x),
{
    let b = u32_to_le_bytes(x);
    put_bytes(buf, b.as_slice());
}

/// Appends `x` as eight little-endian bytes.
pub fn put_u64(buf: &mut Vec<u8>, x: u64)
    ensures
        final(buf)@ == old(buf)@ + le64(x),
{
    let b = u64_to_le_bytes(x);
    put_bytes(buf, b.as_slice());
}

/// The `u32` at `pos`, when four bytes are there.
pub fn get_u32(buf: &[u8], pos: usize) -> (r: Option<u32>)
    ensures
        r == if pos + 4 <= buf@.len() {
            Some(u32_at(buf@, pos as int))
        } else {
            None::<u32>
        },
{
    if pos <= buf.len() && 4 <= buf.len() - pos {
        Some(u32_from_le_bytes(slice_subrange(buf, pos, pos + 4)))
    } else {
        None
    }
}

/// The `u64` at `pos`, when eight bytes are there.
pub fn get_u64(buf: &[u8], pos: usize) -> (r: Option<u64>)
    ensures
        r == if pos + 8 <= buf@.len() {
            Some(u64_at(buf@, pos as int))
        } else {
            None::<u64>
        },
{
    if pos <= buf.len() && 8 <= buf.len() - pos {
        Some(u64_from_le_bytes(slice_subrange(buf, pos, pos + 8)))
    } else {
        None
    }
}

/// The `len` bytes at `pos`, when they are there.
pub fn get_bytes(buf: &[u8], pos: usize, len: usize) -> (r: Option<&[u8]>)
    ensures
        match r {
            Some(s) => pos + len <= buf@.len() && s@ == buf@.subrange(pos as int, pos + len),
            None => pos + len > buf@.len(),
        },
{
    if pos <= buf.len() && len <= buf.len() - pos {
        Some(slice_subrange(buf, pos, pos + len))
    } else {
        None
    }
}

/// Calls `core::str::from_utf8`: the bytes as a string when they are valid
/// UTF-8, as the standard library documents.
#[verifier::external_body]
pub(crate) fn str_from_utf8(bytes: &[u8]) -> (r: Option<&str>)
    ensures
        r is Some <==> valid_utf8(bytes@),
        r matches Some(s) ==> s@ == decode_utf8(bytes@),
{
    core::str::from_utf8(bytes).ok()
}

/// The UTF-8 bytes of a string.
pub open spec fn utf8(s: Seq<char>) -> Seq<u8> {
    encode_utf8(s)
}

/// Decoding the UTF-8 encoding of `s` gives `s` back.
pub proof fn lemma_utf8_roundtrip(s: Seq<char>)
    ensures
        valid_utf8(utf8(s)),
        decode_utf8(utf8(s)) == s,
{
    vstd::utf8::encode_utf8_valid_utf8(s);
    vstd::utf8::encode_utf8_decode_utf8(s);
}

} // verus!
