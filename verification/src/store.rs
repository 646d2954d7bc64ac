//! The store: a byte log and the index of its live keys.

use vstd::hash_map::StringHashMap;
use vstd::prelude::*;

use crate::codec::{
    append_bytes, decode_header, decode_key, decode_value, encode, encode_tombstone, key_fits,
    record_bytes, tombstone_bytes, value_fits, HEADER_LEN, TOMBSTONE,
};
use crate::error::StoreError;
use crate::recovery::{
    apply, lemma_appended_record, lemma_appended_tombstone, lemma_record_bounds,
    lemma_replay_extend, lemma_replay_points_at_records, record_at, recovered_index, replay,
    value_at, Entry,
};

verus! {

/// The store as mathematics: the bytes of the log, and the offset of the
/// latest record of each live key.
pub struct StoreModel {
    pub log: Seq<u8>,
    pub index: Map<Seq<char>, int>,
}

impl StoreModel {
    /// The store on a log without records.
    pub open spec fn empty() -> StoreModel {
        StoreModel { log: Seq::empty(), index: Map::empty() }
    }

    /// What opening a store on `log` gives: the log with the index that a
    /// scan of it builds, or the error of the scan.
    pub open spec fn opened(log: Seq<u8>) -> Result<StoreModel, StoreError> {
        match recovered_index(log) {
            Ok(index) => Ok(StoreModel { log, index }),
            Err(e) => Err(e),
        }
    }

    /// The index is what a scan of the log gives.
    pub open spec fn wf(self) -> bool {
        recovered_index(self.log) == Ok::<Map<Seq<char>, int>, StoreError>(self.index)
    }

    /// What a lookup of `key` answers: nothing for a key that the index
    /// lacks, else the value of the record that the index names.
    pub open spec fn lookup(self, key: Seq<char>) -> Result<Option<Seq<char>>, StoreError> {
        if !self.index.contains_key(key) {
            Ok(None)
        } else {
            match value_at(self.log, self.index[key]) {
                Ok(value) => Ok(Some(value)),
                Err(_) => Err(StoreError::IndexCorruption),
            }
        }
    }

    /// The store after `key` was set to `value`.
    pub open spec fn after_set(self, key: Seq<char>, value: Seq<char>) -> StoreModel {
        StoreModel {
            log: self.log + record_bytes(key, value),
            index: self.index.insert(key, self.log.len() as int),
        }
    }

    /// The store after `key` was removed.
    pub open spec fn after_remove(self, key: Seq<char>) -> StoreModel {
        StoreModel { log: self.log + tombstone_bytes(key), index: self.index.remove(key) }
    }
}

/// The offsets of an index as mathematical integers.
pub open spec fn offsets(index: Map<Seq<char>, u64>) -> Map<Seq<char>, int> {
    Map::new(|key: Seq<char>| index.contains_key(key), |key: Seq<char>| index[key] as int)
}

/// A key-value store over an append-only log of records.
pub struct KvStore {
    log: Vec<u8>,
    index: StringHashMap<u64>,
}

impl View for KvStore {
    type V = StoreModel;

    closed spec fn view(&self) -> StoreModel {
        StoreModel { log: self.log@, index: offsets(self.index@) }
    }
}

impl KvStore {
    /// The index agrees with the log.
    pub open spec fn wf(&self) -> bool {
        self@.wf()
    }

    /// Scans `log` from its first byte and builds the index: the offset of
    /// each key's latest record, without the keys that were removed last.
    pub fn load_index(log: &[u8]) -> (r: Result<StringHashMap<u64>, StoreError>)
        ensures
            match recovered_index(log@) {
                Ok(index) => r is Ok && offsets(r->Ok_0@) == index,
                Err(e) => r is Err && r->Err_0 == e,
            },
    {
        let mut index: StringHashMap<u64> = StringHashMap::new();
        let mut pos: usize = 0;
        assert(offsets(index@) =~= Map::empty());
        loop
            invariant
                pos <= log.len(),
                recovered_index(log@) == replay(log@, pos as int, offsets(index@)),
            decreases log.len() - pos,
        {
            let (key_len, value_len) = match decode_header(log, pos) {
                Ok(header) => header,
                Err(StoreError::EndOfLog) => {
                    return Ok(index);
                },
                Err(e) => {
                    return Err(e);
                },
            };
            let key = match decode_key(log, pos + HEADER_LEN, key_len) {
                Ok(key) => key,
                Err(e) => {
                    return Err(e);
                },
            };
            let key_end: usize = pos + HEADER_LEN + key_len as usize;
            let ghost before = offsets(index@);
            if value_len == TOMBSTONE {
                index.remove(key.as_str());
                assert(offsets(index@) =~= before.remove(key@));
                pos = key_end;
            } else {
                if log.len() - key_end < value_len as usize {
                    return Err(StoreError::TruncatedRecord);
                }
                index.insert(key, pos as u64);
                assert(offsets(index@) =~= before.insert(key@, pos as int));
                pos = key_end + value_len as usize;
            }
        }
    }

    /// Opens the store on the bytes of a log. Fails where the log does not
    /// consist of whole records with text keys, with the error of the scan.
    pub fn open(log: Vec<u8>) -> (r: Result<KvStore, StoreError>)
        ensures
            match StoreModel::opened(log@) {
                Ok(store) => r is Ok && r->Ok_0@ == store,
                Err(e) => r is Err && r->Err_0 == e,
            },
            r is Ok ==> r->Ok_0.wf(),
    {
        match KvStore::load_index(log.as_slice()) {
            Ok(index) => Ok(KvStore { log, index }),
            Err(e) => Err(e),
        }
    }

    /// The bytes of the log.
    pub fn log_bytes(&self) -> (bytes: &[u8])
        ensures
            bytes@ == self@.log,
    {
        self.log.as_slice()
    }

    /// The offset of the record that the index names for `key`, if it names
    /// one.
    pub fn offset_of(&self, key: &str) -> (r: Option<u64>)
        ensures
            match r {
                Some(offset) => self@.index.contains_key(key@) && self@.index[key@] == offset,
                None => !self@.index.contains_key(key@),
            },
    {
        match self.index.get(key) {
            Some(offset) => Some(*offset),
            None => None,
        }
    }

    /// Appends the record that sets `key` to `value` and points the index at
    /// it. A key or a value too long for the record format is refused, and
    /// the store stays as it was.
    pub fn set(&mut self, key: String, value: String) -> (r: Result<(), StoreError>)
        requires
            old(self).wf(),
        ensures
            final(self).wf(),
            r is Ok <==> key_fits(key@) && value_fits(value@),
            r is Ok ==> final(self)@ == old(self)@.after_set(key@, value@),
            r is Err ==> final(self)@ == old(self)@,
            r is Err ==> r->Err_0 == (if !key_fits(key@) {
                StoreError::KeyTooLong
            } else {
                StoreError::ValueTooLong
            }),
    {
        if key.as_str().as_bytes().len() > u32::MAX as usize {
            return Err(StoreError::KeyTooLong);
        }
        if value.as_str().as_bytes().len() >= u32::MAX as usize {
            return Err(StoreError::ValueTooLong);
        }
        let offset: u64 = self.log.len() as u64;
        let record = encode(key.as_str(), value.as_str());
        let ghost before = self@;
        let ghost key_view = key@;
        append_bytes(&mut self.log, record.as_slice());
        self.index.insert(key, offset);
        proof {
            assert(self@.index =~= before.index.insert(key_view, offset as int));
            assert(self@ == before.after_set(key_view, value@));
            lemma_set_keeps_wf(before, key_view, value@);
        }
        Ok(())
    }

    /// Looks `key` up: `None` for a key that the index lacks, else the value
    /// of the record that the index names. A record that cannot be read
    /// there is reported as index corruption.
    pub fn get(&self, key: &str) -> (r: Result<Option<String>, StoreError>)
        requires
            self.wf(),
        ensures
            match self@.lookup(key@) {
                Ok(Some(value)) => r is Ok && r->Ok_0 is Some && r->Ok_0->0@ == value,
                Ok(None) => r is Ok && r->Ok_0 is None,
                Err(e) => r is Err && r->Err_0 == e,
            },
    {
        let offset: u64 = match self.index.get(key) {
            Some(offset) => *offset,
            None => {
                return Ok(None);
            },
        };
        let log = self.log.as_slice();
        proof {
            assert(self@.index.contains_key(key@) && self@.index[key@] == offset);
            lemma_replay_points_at_records(self@.log, 0, Map::empty());
            assert(record_at(self@.log, offset as int) is Ok);
            lemma_record_bounds(self@.log, offset as int);
            assert(offset + 8 <= self.log.len());
        }
        let pos: usize = offset as usize;
        let (key_len, value_len) = match decode_header(log, pos) {
            Ok(header) => header,
            Err(_) => {
                return Err(StoreError::IndexCorruption);
            },
        };
        if value_len == TOMBSTONE {
            return Err(StoreError::IndexCorruption);
        }
        let value_start: usize = pos + HEADER_LEN + key_len as usize;
        match decode_value(log, value_start, value_len) {
            Ok(value) => Ok(Some(value)),
            Err(_) => Err(StoreError::IndexCorruption),
        }
    }

    /// Appends the tombstone of `key` and drops the key from the index. A
    /// key too long for the record format is refused, and the store stays as
    /// it was.
    pub fn remove(&mut self, key: String) -> (r: Result<(), StoreError>)
        requires
            old(self).wf(),
        ensures
            final(self).wf(),
            r is Ok <==> key_fits(key@),
            r is Ok ==> final(self)@ == old(self)@.after_remove(key@),
            r is Err ==> final(self)@ == old(self)@ && r->Err_0 == StoreError::KeyTooLong,
    {
        if key.as_str().as_bytes().len() > u32::MAX as usize {
            return Err(StoreError::KeyTooLong);
        }
        let record = encode_tombstone(key.as_str());
        let ghost before = self@;
        append_bytes(&mut self.log, record.as_slice());
        self.index.remove(key.as_str());
        proof {
            assert(self@.index =~= before.index.remove(key@));
            assert(self@ == before.after_remove(key@));
            lemma_remove_keeps_wf(before, key@);
        }
        Ok(())
    }
}

/// A store that agrees with its log still does after a set.
pub proof fn lemma_set_keeps_wf(store: StoreModel, key: Seq<char>, value: Seq<char>)
    requires
        store.wf(),
        key_fits(key),
        value_fits(value),
    ensures
        store.after_set(key, value).wf(),
{
    let record = record_bytes(key, value);
    let longer = store.log + record;
    let pos = store.log.len() as int;
    lemma_replay_extend(store.log, record, 0, Map::empty());
    lemma_appended_record(store.log, key, value);
    let entry = record_at(longer, pos)->Ok_0;
    let index = apply(store.index, entry, pos);
    assert(replay(longer, pos, store.index) == replay(longer, entry.end, index));
    assert(record_at(longer, entry.end) == Err::<Entry, StoreError>(
        StoreError::EndOfLog,
    ));
    assert(replay(longer, entry.end, index) == Ok::<Map<Seq<char>, int>, StoreError>(index));
}

/// A store that agrees with its log still does after a removal.
pub proof fn lemma_remove_keeps_wf(store: StoreModel, key: Seq<char>)
    requires
        store.wf(),
        key_fits(key),
    ensures
        store.after_remove(key).wf(),
{
    let record = tombstone_bytes(key);
    let longer = store.log + record;
    let pos = store.log.len() as int;
    lemma_replay_extend(store.log, record, 0, Map::empty());
    lemma_appended_tombstone(store.log, key);
    let entry = record_at(longer, pos)->Ok_0;
    let index = apply(store.index, entry, pos);
    assert(replay(longer, pos, store.index) == replay(longer, entry.end, index));
    assert(record_at(longer, entry.end) == Err::<Entry, StoreError>(
        StoreError::EndOfLog,
    ));
    assert(replay(longer, entry.end, index) == Ok::<Map<Seq<char>, int>, StoreError>(index));
}

} // verus!
