//! The recovery scan: what a log means, record by record.
//!
//! Replaying a log from its first byte gives the index: each key's latest
//! record offset, without the keys whose latest record is a removal.

use vstd::prelude::*;
use vstd::utf8::*;

use crate::codec::{
    header_at, key_fits, le_encoding, lemma_le_round_trip, record_bytes, text_at, tombstone_bytes,
    value_fits, TOMBSTONE,
};
use crate::error::StoreError;

verus! {

/// What the scan learns of one record.
pub struct Entry {
    /// The record's key.
    pub key: Seq<char>,
    /// Whether the record removes the key.
    pub tombstone: bool,
    /// The offset just behind the record.
    pub end: int,
}

/// The record that starts at `pos`. Its value bytes must be there, but they
/// are not decoded.
pub open spec fn record_at(log: Seq<u8>, pos: int) -> Result<Entry, StoreError> {
    match header_at(log, pos) {
        Err(e) => Err(e),
        Ok((key_len, value_len)) => match text_at(log, pos + 8, key_len as int) {
            Err(e) => Err(e),
            Ok(key) => if value_len == TOMBSTONE {
                Ok(Entry { key, tombstone: true, end: pos + 8 + key_len })
            } else if log.len() - (pos + 8 + key_len) < value_len {
                Err(StoreError::TruncatedRecord)
            } else {
                Ok(Entry { key, tombstone: false, end: pos + 8 + key_len + value_len })
            },
        },
    }
}

/// The value of the record that starts at `pos`. The key bytes are skipped,
/// not decoded.
pub open spec fn value_at(log: Seq<u8>, pos: int) -> Result<Seq<char>, StoreError> {
    match header_at(log, pos) {
        Err(e) => Err(e),
        Ok((key_len, value_len)) => if value_len == TOMBSTONE {
            Err(StoreError::IndexCorruption)
        } else {
            text_at(log, pos + 8 + key_len, value_len as int)
        },
    }
}

/// The index after one more record.
pub open spec fn apply(index: Map<Seq<char>, int>, entry: Entry, pos: int) -> Map<Seq<char>, int> {
    if entry.tombstone {
        index.remove(entry.key)
    } else {
        index.insert(entry.key, pos)
    }
}

/// The index after the records from `pos` to the end of the log, starting
/// from `index`; or the error that ends the scan.
pub open spec fn replay(log: Seq<u8>, pos: int, index: Map<Seq<char>, int>) -> Result<
    Map<Seq<char>, int>,
    StoreError,
>
    decreases log.len() - pos,
{
    match record_at(log, pos) {
        Err(StoreError::EndOfLog) => Ok(index),
        Err(e) => Err(e),
        Ok(entry) => replay(log, entry.end, apply(index, entry, pos)),
    }
}

/// The index that the whole log gives.
pub open spec fn recovered_index(log: Seq<u8>) -> Result<Map<Seq<char>, int>, StoreError> {
    replay(log, 0, Map::empty())
}

/// Every entry of `index` is the offset of a complete value record of `log`
/// for the entry's key.
pub open spec fn points_at_records(log: Seq<u8>, index: Map<Seq<char>, int>) -> bool {
    forall|key: Seq<char>| #[trigger]
        index.contains_key(key) ==> match record_at(log, index[key]) {
            Ok(entry) => entry.key == key && !entry.tombstone,
            Err(_) => false,
        }
}

/// A record that is read ends inside the log, behind its header.
pub proof fn lemma_record_bounds(log: Seq<u8>, pos: int)
    requires
        record_at(log, pos) is Ok,
    ensures
        0 <= pos,
        pos + 8 <= record_at(log, pos)->Ok_0.end <= log.len(),
{
}

/// Bytes appended to a log change no record that was complete before.
pub proof fn lemma_record_stable(log: Seq<u8>, tail: Seq<u8>, pos: int)
    requires
        record_at(log, pos) is Ok,
    ensures
        record_at(log + tail, pos) == record_at(log, pos),
        !record_at(log, pos)->Ok_0.tombstone ==> value_at(log + tail, pos) == value_at(log, pos),
{
    let longer = log + tail;
    let (key_len, value_len) = header_at(log, pos)->Ok_0;
    assert(longer.subrange(pos, pos + 4) =~= log.subrange(pos, pos + 4));
    assert(longer.subrange(pos + 4, pos + 8) =~= log.subrange(pos + 4, pos + 8));
    assert(header_at(longer, pos) == header_at(log, pos));
    assert(longer.subrange(pos + 8, pos + 8 + key_len) =~= log.subrange(
        pos + 8,
        pos + 8 + key_len,
    ));
    if value_len != TOMBSTONE {
        let start = pos + 8 + key_len;
        assert(longer.subrange(start, start + value_len) =~= log.subrange(
            start,
            start + value_len,
        ));
    }
}

/// The record that `record_bytes` appends is read back as it was written.
pub proof fn lemma_appended_record(log: Seq<u8>, key: Seq<char>, value: Seq<char>)
    requires
        key_fits(key),
        value_fits(value),
    ensures
        record_at(log + record_bytes(key, value), log.len() as int) == Ok::<Entry, StoreError>(
            Entry {
                key,
                tombstone: false,
                end: (log + record_bytes(key, value)).len() as int,
            },
        ),
        value_at(log + record_bytes(key, value), log.len() as int) == Ok::<
            Seq<char>,
            StoreError,
        >(value),
{
    broadcast use {encode_utf8_valid_utf8, encode_utf8_decode_utf8};

    let key_bytes = encode_utf8(key);
    let value_bytes = encode_utf8(value);
    let key_len = key_bytes.len() as u32;
    let value_len = value_bytes.len() as u32;
    let longer = log + record_bytes(key, value);
    let pos = log.len() as int;
    lemma_le_round_trip(key_len);
    lemma_le_round_trip(value_len);
    assert(longer.subrange(pos, pos + 4) =~= le_encoding(key_len));
    assert(longer.subrange(pos + 4, pos + 8) =~= le_encoding(value_len));
    assert(header_at(longer, pos) == Ok::<(u32, u32), StoreError>((key_len, value_len)));
    assert(longer.subrange(pos + 8, pos + 8 + key_len) =~= key_bytes);
    assert(longer.subrange(pos + 8 + key_len, pos + 8 + key_len + value_len) =~= value_bytes);
    assert(text_at(longer, pos + 8, key_len as int) == Ok::<Seq<char>, StoreError>(key));
}

/// The tombstone that `tombstone_bytes` appends is read back as a removal
/// of its key.
pub proof fn lemma_appended_tombstone(log: Seq<u8>, key: Seq<char>)
    requires
        key_fits(key),
    ensures
        record_at(log + tombstone_bytes(key), log.len() as int) == Ok::<Entry, StoreError>(
            Entry { key, tombstone: true, end: (log + tombstone_bytes(key)).len() as int },
        ),
{
    broadcast use {encode_utf8_valid_utf8, encode_utf8_decode_utf8};

    let key_bytes = encode_utf8(key);
    let key_len = key_bytes.len() as u32;
    let longer = log + tombstone_bytes(key);
    let pos = log.len() as int;
    lemma_le_round_trip(key_len);
    lemma_le_round_trip(TOMBSTONE);
    assert(longer.subrange(pos, pos + 4) =~= le_encoding(key_len));
    assert(longer.subrange(pos + 4, pos + 8) =~= le_encoding(TOMBSTONE));
    assert(header_at(longer, pos) == Ok::<(u32, u32), StoreError>((key_len, TOMBSTONE)));
    assert(longer.subrange(pos + 8, pos + 8 + key_len) =~= key_bytes);
    assert(text_at(longer, pos + 8, key_len as int) == Ok::<Seq<char>, StoreError>(key));
}

/// Replaying a longer log first does what replaying the log did, then goes
/// on at the old end.
pub proof fn lemma_replay_extend(
    log: Seq<u8>,
    tail: Seq<u8>,
    pos: int,
    index: Map<Seq<char>, int>,
)
    requires
        0 <= pos <= log.len(),
        replay(log, pos, index) is Ok,
    ensures
        replay(log + tail, pos, index) == replay(
            log + tail,
            log.len() as int,
            replay(log, pos, index)->Ok_0,
        ),
    decreases log.len() - pos,
{
    match record_at(log, pos) {
        Ok(entry) => {
            lemma_record_bounds(log, pos);
            lemma_record_stable(log, tail, pos);
            lemma_replay_extend(log, tail, entry.end, apply(index, entry, pos));
        },
        Err(_) => {
            assert(pos == log.len());
        },
    }
}

/// A replay that starts from an index into the log's records ends with one.
pub proof fn lemma_replay_points_at_records(log: Seq<u8>, pos: int, index: Map<Seq<char>, int>)
    requires
        points_at_records(log, index),
        replay(log, pos, index) is Ok,
    ensures
        points_at_records(log, replay(log, pos, index)->Ok_0),
    decreases log.len() - pos,
{
    match record_at(log, pos) {
        Ok(entry) => {
            lemma_record_bounds(log, pos);
            lemma_replay_points_at_records(log, entry.end, apply(index, entry, pos));
        },
        Err(_) => {},
    }
}

/// A replay fails only on a record that is cut short or on a key that is no
/// text.
pub proof fn lemma_replay_errors(log: Seq<u8>, pos: int, index: Map<Seq<char>, int>)
    ensures
        match replay(log, pos, index) {
            Ok(_) => true,
            Err(e) => e == StoreError::TruncatedRecord || e == StoreError::InvalidEncoding,
        },
    decreases log.len() - pos,
{
    match record_at(log, pos) {
        Ok(entry) => {
            lemma_record_bounds(log, pos);
            lemma_replay_errors(log, entry.end, apply(index, entry, pos));
        },
        Err(_) => {},
    }
}

/// Whether `at` is an offset at which the scan of `log`, started at `pos`,
/// begins to read a record or ends.
pub open spec fn is_record_boundary(log: Seq<u8>, pos: int, at: int) -> bool
    decreases log.len() - pos,
{
    at == pos || match record_at(log, pos) {
        Ok(entry) => is_record_boundary(log, entry.end, at),
        Err(_) => false,
    }
}

/// A record that ends inside a prefix of the log is read from the prefix as
/// from the log.
pub proof fn lemma_record_in_prefix(log: Seq<u8>, n: int, pos: int)
    requires
        record_at(log, pos) is Ok,
        record_at(log, pos)->Ok_0.end <= n <= log.len(),
    ensures
        record_at(log.take(n), pos) == record_at(log, pos),
{
    let prefix = log.take(n);
    let key_len = header_at(log, pos)->Ok_0.0;
    assert(prefix.subrange(pos, pos + 4) =~= log.subrange(pos, pos + 4));
    assert(prefix.subrange(pos + 4, pos + 8) =~= log.subrange(pos + 4, pos + 8));
    assert(header_at(prefix, pos) == header_at(log, pos));
    assert(prefix.subrange(pos + 8, pos + 8 + key_len) =~= log.subrange(
        pos + 8,
        pos + 8 + key_len,
    ));
}

/// A record of which the prefix holds some bytes, but not all, is reported
/// as truncated.
pub proof fn lemma_record_cut_short(log: Seq<u8>, n: int, pos: int)
    requires
        record_at(log, pos) is Ok,
        pos < n < record_at(log, pos)->Ok_0.end,
    ensures
        record_at(log.take(n), pos) == Err::<Entry, StoreError>(StoreError::TruncatedRecord),
{
    lemma_record_bounds(log, pos);
    let prefix = log.take(n);
    let key_len = header_at(log, pos)->Ok_0.0;
    if n - pos >= 8 {
        assert(prefix.subrange(pos, pos + 4) =~= log.subrange(pos, pos + 4));
        assert(prefix.subrange(pos + 4, pos + 8) =~= log.subrange(pos + 4, pos + 8));
        assert(header_at(prefix, pos) == header_at(log, pos));
        if n - (pos + 8) >= key_len {
            assert(prefix.subrange(pos + 8, pos + 8 + key_len) =~= log.subrange(
                pos + 8,
                pos + 8 + key_len,
            ));
        }
    }
}

/// The scan reaches no offset before the one it starts at.
pub proof fn lemma_boundary_not_before(log: Seq<u8>, pos: int, at: int)
    requires
        is_record_boundary(log, pos, at),
    ensures
        pos <= at,
    decreases log.len() - pos,
{
    if at != pos {
        let entry = record_at(log, pos)->Ok_0;
        lemma_record_bounds(log, pos);
        lemma_boundary_not_before(log, entry.end, at);
    }
}

/// A replay that succeeds on the log fails on a prefix that ends inside a
/// record: it reports a truncated record.
pub proof fn lemma_replay_cut_inside_record(log: Seq<u8>, n: int, pos: int, index: Map<Seq<char>, int>)
    requires
        replay(log, pos, index) is Ok,
        0 <= pos <= n <= log.len(),
        !is_record_boundary(log, pos, n),
    ensures
        replay(log.take(n), pos, index) == Err::<Map<Seq<char>, int>, StoreError>(
            StoreError::TruncatedRecord,
        ),
    decreases log.len() - pos,
{
    match record_at(log, pos) {
        Ok(entry) => {
            lemma_record_bounds(log, pos);
            if entry.end <= n {
                lemma_record_in_prefix(log, n, pos);
                lemma_replay_cut_inside_record(log, n, entry.end, apply(index, entry, pos));
            } else {
                lemma_record_cut_short(log, n, pos);
            }
        },
        Err(_) => {},
    }
}

/// A replay that succeeds on the log succeeds on a prefix that ends
/// between two records.
pub proof fn lemma_replay_cut_between_records(
    log: Seq<u8>,
    n: int,
    pos: int,
    index: Map<Seq<char>, int>,
)
    requires
        replay(log, pos, index) is Ok,
        0 <= pos <= n <= log.len(),
        is_record_boundary(log, pos, n),
    ensures
        replay(log.take(n), pos, index) is Ok,
    decreases log.len() - pos,
{
    if pos != n {
        let entry = record_at(log, pos)->Ok_0;
        lemma_record_bounds(log, pos);
        lemma_boundary_not_before(log, entry.end, n);
        lemma_record_in_prefix(log, n, pos);
        lemma_replay_cut_between_records(log, n, entry.end, apply(index, entry, pos));
    }
}

/// Every offset at which a clean scan begins a record lies at least a
/// header's length before the end of the log.
pub proof fn lemma_boundaries_leave_room(
    log: Seq<u8>,
    pos: int,
    at: int,
    index: Map<Seq<char>, int>,
)
    requires
        replay(log, pos, index) is Ok,
        0 <= pos <= log.len(),
        is_record_boundary(log, pos, at),
    ensures
        at == log.len() || at + 8 <= log.len(),
    decreases log.len() - pos,
{
    match record_at(log, pos) {
        Ok(entry) => {
            lemma_record_bounds(log, pos);
            if at != pos {
                lemma_boundaries_leave_room(log, entry.end, at, apply(index, entry, pos));
            }
        },
        Err(_) => {},
    }
}

} // verus!
