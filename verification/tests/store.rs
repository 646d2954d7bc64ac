use append_kv::codec::{append_bytes, encode, encode_tombstone};
use append_kv::error::StoreError;
use append_kv::store::KvStore;

fn opened(log: Vec<u8>) -> KvStore {
    match KvStore::open(log) {
        Ok(store) => store,
        Err(e) => panic!("open failed: {:?}", e),
    }
}

fn reopened(store: &KvStore) -> KvStore {
    opened(store.log_bytes().to_vec())
}

fn text(value: &str) -> Result<Option<String>, StoreError> {
    Ok(Some(value.to_string()))
}

#[test]
fn set_then_get_returns_the_value() {
    let mut store = opened(Vec::new());
    assert_eq!(store.set("key".to_string(), "value".to_string()), Ok(()));
    assert_eq!(store.get("key"), text("value"));
}

#[test]
fn set_then_get_round_trips_empty_and_non_ascii_text() {
    let mut store = opened(Vec::new());
    assert_eq!(store.set(String::new(), String::new()), Ok(()));
    assert_eq!(store.get(""), text(""));
    assert_eq!(store.set("clé".to_string(), "値 \u{1F600}".to_string()), Ok(()));
    assert_eq!(store.get("clé"), text("値 \u{1F600}"));
    assert_eq!(store.get(""), text(""));
}

#[test]
fn set_appends_exactly_one_record() {
    let mut store = opened(Vec::new());
    assert_eq!(store.set("a".to_string(), "1".to_string()), Ok(()));
    assert_eq!(store.log_bytes(), &[1, 0, 0, 0, 1, 0, 0, 0, b'a', b'1']);
    assert_eq!(store.set("b".to_string(), "22".to_string()), Ok(()));
    let mut expected = encode("a", "1");
    append_bytes(&mut expected, &encode("b", "22"));
    assert_eq!(store.log_bytes(), expected.as_slice());
}

#[test]
fn last_write_wins() {
    let mut store = opened(Vec::new());
    assert_eq!(store.set("k".to_string(), "a".to_string()), Ok(()));
    assert_eq!(store.set("k".to_string(), "b".to_string()), Ok(()));
    assert_eq!(store.get("k"), text("b"));
    assert_eq!(store.offset_of("k"), Some(10));
    assert_eq!(reopened(&store).get("k"), text("b"));
}

#[test]
fn set_leaves_other_keys_alone() {
    let mut store = opened(Vec::new());
    assert_eq!(store.set("a".to_string(), "1".to_string()), Ok(()));
    assert_eq!(store.set("b".to_string(), "2".to_string()), Ok(()));
    assert_eq!(store.set("a".to_string(), "3".to_string()), Ok(()));
    assert_eq!(store.get("b"), text("2"));
    assert_eq!(store.get("a"), text("3"));
}

#[test]
fn reopening_answers_as_the_open_store_did() {
    let mut store = opened(Vec::new());
    let writes = [("a", "1"), ("b", "2"), ("a", "3"), ("", "empty"), ("c", ""), ("b", "4")];
    for (key, value) in writes {
        assert_eq!(store.set(key.to_string(), value.to_string()), Ok(()));
    }
    let again = reopened(&store);
    assert_eq!(again.log_bytes(), store.log_bytes());
    for key in ["a", "b", "c", "", "d"] {
        assert_eq!(again.get(key), store.get(key));
        assert_eq!(again.offset_of(key), store.offset_of(key));
    }
    assert_eq!(again.get("a"), text("3"));
    assert_eq!(again.get("b"), text("4"));
    assert_eq!(again.get("d"), Ok(None));
}

#[test]
fn missing_key_is_not_found_and_no_error() {
    let store = opened(Vec::new());
    assert_eq!(store.get("nope"), Ok(None));
    let mut store = opened(Vec::new());
    assert_eq!(store.set("other".to_string(), "x".to_string()), Ok(()));
    assert_eq!(store.get("nope"), Ok(None));
    assert_eq!(store.offset_of("nope"), None);
}

#[test]
fn removal_survives_reopening() {
    let mut store = opened(Vec::new());
    assert_eq!(store.set("k".to_string(), "v".to_string()), Ok(()));
    assert_eq!(store.remove("k".to_string()), Ok(()));
    assert_eq!(store.get("k"), Ok(None));
    let again = reopened(&store);
    assert_eq!(again.get("k"), Ok(None));
    assert_eq!(again.offset_of("k"), None);
}

#[test]
fn remove_appends_a_tombstone() {
    let mut store = opened(Vec::new());
    assert_eq!(store.set("k".to_string(), "v".to_string()), Ok(()));
    assert_eq!(store.remove("k".to_string()), Ok(()));
    let mut expected = encode("k", "v");
    append_bytes(&mut expected, &encode_tombstone("k"));
    assert_eq!(store.log_bytes(), expected.as_slice());
}

#[test]
fn remove_of_an_unknown_key_changes_no_answer() {
    let mut store = opened(Vec::new());
    assert_eq!(store.set("a".to_string(), "1".to_string()), Ok(()));
    assert_eq!(store.remove("zzz".to_string()), Ok(()));
    assert_eq!(store.get("a"), text("1"));
    assert_eq!(store.get("zzz"), Ok(None));
    assert_eq!(reopened(&store).get("a"), text("1"));
}

#[test]
fn set_after_remove_brings_the_key_back() {
    let mut store = opened(Vec::new());
    assert_eq!(store.set("k".to_string(), "v".to_string()), Ok(()));
    assert_eq!(store.remove("k".to_string()), Ok(()));
    assert_eq!(store.set("k".to_string(), "w".to_string()), Ok(()));
    assert_eq!(store.get("k"), text("w"));
    let again = reopened(&store);
    assert_eq!(again.get("k"), text("w"));
    assert_eq!(again.offset_of("k"), Some(10 + 9));
}

#[test]
fn truncated_log_does_not_open() {
    let mut store = opened(Vec::new());
    assert_eq!(store.set("a".to_string(), "1".to_string()), Ok(()));
    assert_eq!(store.set("bb".to_string(), "2222".to_string()), Ok(()));
    let log = store.log_bytes().to_vec();
    let cut = log[..log.len() - 3].to_vec();
    assert_eq!(KvStore::open(cut).err(), Some(StoreError::TruncatedRecord));
}

#[test]
fn log_cut_anywhere_inside_a_record_does_not_open() {
    let mut log = encode("a", "1");
    append_bytes(&mut log, &encode("bb", "2222"));
    append_bytes(&mut log, &encode_tombstone("a"));
    let boundaries = [0, 10, 24, 33];
    assert_eq!(log.len(), 33);
    for n in 0..=log.len() {
        let result = KvStore::open(log[..n].to_vec());
        if boundaries.contains(&n) {
            assert!(result.is_ok());
        } else {
            assert_eq!(result.err(), Some(StoreError::TruncatedRecord));
        }
    }
}

#[test]
fn value_bytes_that_are_missing_are_not_skipped_over() {
    let mut log = encode("a", "1");
    append_bytes(&mut log, &[1, 0, 0, 0, 200, 0, 0, 0, b'b', b'x']);
    assert_eq!(KvStore::open(log).err(), Some(StoreError::TruncatedRecord));
}

#[test]
fn key_that_is_no_text_does_not_open() {
    let log = vec![1, 0, 0, 0, 1, 0, 0, 0, 0xff, b'1'];
    assert_eq!(KvStore::open(log).err(), Some(StoreError::InvalidEncoding));
    assert_eq!(
        KvStore::load_index(&[1, 0, 0, 0, 0, 0, 0, 0, 0x80]).err(),
        Some(StoreError::InvalidEncoding)
    );
}

#[test]
fn value_that_is_no_text_is_index_corruption() {
    let mut log = vec![1, 0, 0, 0, 2, 0, 0, 0, b'k', 0xff, 0xfe];
    append_bytes(&mut log, &encode("ok", "fine"));
    let store = opened(log);
    assert_eq!(store.offset_of("k"), Some(0));
    assert_eq!(store.get("k"), Err(StoreError::IndexCorruption));
    assert_eq!(store.get("ok"), text("fine"));
}

#[test]
fn load_index_keeps_the_latest_offset_of_each_key() {
    let mut log = encode("a", "1");
    append_bytes(&mut log, &encode("b", "2"));
    append_bytes(&mut log, &encode("a", "3"));
    append_bytes(&mut log, &encode_tombstone("b"));
    append_bytes(&mut log, &encode("c", ""));
    let index = match KvStore::load_index(&log) {
        Ok(index) => index,
        Err(e) => panic!("scan failed: {:?}", e),
    };
    assert_eq!(index.len(), 2);
    assert_eq!(index.get("a"), Some(&20));
    assert_eq!(index.get("b"), None);
    assert_eq!(index.get("c"), Some(&39));
}

#[test]
fn empty_log_opens_empty() {
    let store = opened(Vec::new());
    assert_eq!(store.log_bytes().len(), 0);
    assert_eq!(store.offset_of(""), None);
    assert_eq!(store.get(""), Ok(None));
}

#[test]
fn two_sets_then_reopen() {
    let mut store = opened(Vec::new());
    assert_eq!(store.set("a".to_string(), "1".to_string()), Ok(()));
    assert_eq!(store.set("b".to_string(), "2".to_string()), Ok(()));
    assert_eq!(store.get("a"), text("1"));
    assert_eq!(store.get("b"), text("2"));
    let again = reopened(&store);
    assert_eq!(again.get("a"), text("1"));
    assert_eq!(again.get("b"), text("2"));
    assert_eq!(again.offset_of("a"), Some(0));
    assert_eq!(again.offset_of("b"), Some(8 + "a".len() as u64 + "1".len() as u64));
}
