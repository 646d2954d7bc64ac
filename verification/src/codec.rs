//! The byte format of one record.
//!
//! A record is `key_length (4 bytes, little-endian) || value_length (4 bytes,
//! little-endian) || key bytes || value bytes`. A record whose value length
//! field holds [`TOMBSTONE`] carries no value bytes and marks its key as
//! removed.

use byteorder::{ByteOrder, LittleEndian};
use vstd::prelude::*;
use vstd::slice::{slice_subrange, slice_to_vec};
use vstd::utf8::*;

use crate::error::StoreError;

verus! {

/// Number of bytes in a record header.
pub const HEADER_LEN: usize = 8;

/// The value-length field of a record that marks a removal.
pub const TOMBSTONE: u32 = 0xFFFF_FFFF;

/// The number that four bytes hold in little-endian order.
pub open spec fn le_value(b: Seq<u8>) -> int
    recommends
        b.len() >= 4,
{
    b[0] as int + 256 * (b[1] as int) + 65536 * (b[2] as int) + 16777216 * (b[3] as int)
}

/// The four bytes that hold `n` in little-endian order.
pub open spec fn le_encoding(n: u32) -> Seq<u8> {
    seq![
        (n % 256) as u8,
        ((n / 256) % 256) as u8,
        ((n / 65536) % 256) as u8,
        (n / 16777216) as u8,
    ]
}

/// Reading back what was written gives the number again.
pub proof fn lemma_le_round_trip(n: u32)
    ensures
        le_encoding(n).len() == 4,
        le_value(le_encoding(n)) == n,
{
}

/// Whether `key` can be the key of a record: its UTF-8 length fits 32 bits.
pub open spec fn key_fits(key: Seq<char>) -> bool {
    encode_utf8(key).len() <= u32::MAX
}

/// Whether `value` can be the value of a record: its UTF-8 length fits 32
/// bits and is not the length that marks a removal.
pub open spec fn value_fits(value: Seq<char>) -> bool {
    encode_utf8(value).len() < u32::MAX
}

/// The bytes of the record that sets `key` to `value`.
pub open spec fn record_bytes(key: Seq<char>, value: Seq<char>) -> Seq<u8> {
    le_encoding(encode_utf8(key).len() as u32) + le_encoding(encode_utf8(value).len() as u32)
        + encode_utf8(key) + encode_utf8(value)
}

/// The bytes of the record that removes `key`.
pub open spec fn tombstone_bytes(key: Seq<char>) -> Seq<u8> {
    le_encoding(encode_utf8(key).len() as u32) + le_encoding(TOMBSTONE) + encode_utf8(key)
}

/// The two length fields of the header that starts at `pos`.
pub open spec fn header_at(log: Seq<u8>, pos: int) -> Result<(u32, u32), StoreError> {
    if pos < 0 || pos >= log.len() {
        Err(StoreError::EndOfLog)
    } else if log.len() - pos < 8 {
        Err(StoreError::TruncatedRecord)
    } else {
        Ok(
            (
                le_value(log.subrange(pos, pos + 4)) as u32,
                le_value(log.subrange(pos + 4, pos + 8)) as u32,
            ),
        )
    }
}

/// The text that the `len` bytes from `pos` on hold.
pub open spec fn text_at(log: Seq<u8>, pos: int, len: int) -> Result<Seq<char>, StoreError> {
    if pos < 0 || pos > log.len() || log.len() - pos < len {
        Err(StoreError::TruncatedRecord)
    } else if !valid_utf8(log.subrange(pos, pos + len)) {
        Err(StoreError::InvalidEncoding)
    } else {
        Ok(decode_utf8(log.subrange(pos, pos + len)))
    }
}

/// Calls `byteorder::LittleEndian::read_u32`, which reads the first four
/// bytes of `buf` as a little-endian number and panics on a shorter slice.
#[verifier::external_body]
fn read_le_u32(buf: &[u8]) -> (n: u32)
    requires
        buf@.len() >= 4,
    ensures
        n == le_value(buf@),
{
    LittleEndian::read_u32(buf)
}

/// Calls `byteorder::LittleEndian::write_u32` on a buffer of four bytes,
/// which it fills with `n` in little-endian order.
#[verifier::external_body]
fn write_le_u32(n: u32) -> (out: Vec<u8>)
    ensures
        out@ == le_encoding(n),
{
    let mut buf = [0u8; 4];
    LittleEndian::write_u32(&mut buf, n);
    buf.to_vec()
}

/// Calls `String::from_utf8`, which succeeds exactly on valid UTF-8 and then
/// returns the text that the bytes encode.
#[verifier::external_body]
fn text_from_utf8(bytes: Vec<u8>) -> (text: Option<String>)
    ensures
        text is Some <==> valid_utf8(bytes@),
        text is Some ==> text->0@ == decode_utf8(bytes@),
{
    String::from_utf8(bytes).ok()
}

/// Appends `src` to `dst`.
pub fn append_bytes(dst: &mut Vec<u8>, src: &[u8])
    ensures
        final(dst)@ == old(dst)@ + src@,
{
    dst.extend_from_slice(src);
    assert(dst@ =~= old(dst)@ + src@);
}

/// Encodes the record that sets `key` to `value`.
pub fn encode(key: &str, value: &str) -> (out: Vec<u8>)
    requires
        key_fits(key@),
        value_fits(value@),
    ensures
        out@ == record_bytes(key@, value@),
{
    let key_bytes = key.as_bytes();
    let value_bytes = value.as_bytes();
    let mut out = write_le_u32(key_bytes.len() as u32);
    let value_len = write_le_u32(value_bytes.len() as u32);
    append_bytes(&mut out, value_len.as_slice());
    append_bytes(&mut out, key_bytes);
    append_bytes(&mut out, value_bytes);
    out
}

/// Encodes the record that removes `key`.
pub fn encode_tombstone(key: &str) -> (out: Vec<u8>)
    requires
        key_fits(key@),
    ensures
        out@ == tombstone_bytes(key@),
{
    let key_bytes = key.as_bytes();
    let mut out = write_le_u32(key_bytes.len() as u32);
    let marker = write_le_u32(TOMBSTONE);
    append_bytes(&mut out, marker.as_slice());
    append_bytes(&mut out, key_bytes);
    out
}

/// Decodes the record header that starts at `pos`: the key's length and the
/// value's length.
pub fn decode_header(log: &[u8], pos: usize) -> (r: Result<(u32, u32), StoreError>)
    ensures
        r == header_at(log@, pos as int),
{
    if pos >= log.len() {
        return Err(StoreError::EndOfLog);
    }
    if log.len() - pos < HEADER_LEN {
        return Err(StoreError::TruncatedRecord);
    }
    let key_len = read_le_u32(slice_subrange(log, pos, pos + 4));
    let value_len = read_le_u32(slice_subrange(log, pos + 4, pos + 8));
    Ok((key_len, value_len))
}

/// Decodes the `len` bytes from `pos` on as text.
fn decode_text(log: &[u8], pos: usize, len: u32) -> (r: Result<String, StoreError>)
    ensures
        match text_at(log@, pos as int, len as int) {
            Ok(text) => r is Ok && r->Ok_0@ == text,
            Err(e) => r == Err::<String, StoreError>(e),
        },
{
    if pos > log.len() || log.len() - pos < len as usize {
        return Err(StoreError::TruncatedRecord);
    }
    let bytes = slice_to_vec(slice_subrange(log, pos, pos + len as usize));
    match text_from_utf8(bytes) {
        Some(text) => Ok(text),
        None => Err(StoreError::InvalidEncoding),
    }
}

/// Decodes the key whose `key_len` bytes start at `pos`, just behind a
/// record's header.
pub fn decode_key(log: &[u8], pos: usize, key_len: u32) -> (r: Result<String, StoreError>)
    ensures
        match text_at(log@, pos as int, key_len as int) {
            Ok(key) => r is Ok && r->Ok_0@ == key,
            Err(e) => r == Err::<String, StoreError>(e),
        },
{
    decode_text(log, pos, key_len)
}

/// Decodes the value whose `value_len` bytes start at `pos`, just behind a
/// record's key.
pub fn decode_value(log: &[u8], pos: usize, value_len: u32) -> (r: Result<String, StoreError>)
    ensures
        match text_at(log@, pos as int, value_len as int) {
            Ok(value) => r is Ok && r->Ok_0@ == value,
            Err(e) => r == Err::<String, StoreError>(e),
        },
{
    decode_text(log, pos, value_len)
}

} // verus!
