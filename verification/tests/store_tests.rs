use miniredis::MiniRedis;
use miniredis::StoreError;

fn reopen(store: &MiniRedis) -> MiniRedis {
    let mut fresh = MiniRedis::open(store.log_bytes().clone());
    fresh.load().unwrap();
    fresh
}

#[test]
fn get_on_a_fresh_empty_store_is_not_found() {
    let store = MiniRedis::open(Vec::new());
    assert_eq!(store.get(b"missing").unwrap(), None);
    assert_eq!(store.find(b"missing").unwrap(), None);
}

#[test]
fn absent_key_over_a_non_matching_log() {
    let mut store = MiniRedis::open(Vec::new());
    store.insert(b"present", b"value").unwrap();
    assert_eq!(store.get(b"absent").unwrap(), None);
    assert_eq!(store.find(b"absent").unwrap(), None);
}

#[test]
fn insert_then_get() {
    let mut store = MiniRedis::open(Vec::new());
    store.insert(b"name", b"alice").unwrap();
    assert_eq!(store.get(b"name").unwrap(), Some(b"alice".to_vec()));
}

#[test]
fn last_write_wins() {
    let mut store = MiniRedis::open(Vec::new());
    store.insert(b"k", b"a").unwrap();
    store.insert(b"k", b"b").unwrap();
    assert_eq!(store.get(b"k").unwrap(), Some(b"b".to_vec()));
    let (off, value) = store.find(b"k").unwrap().unwrap();
    assert_eq!(value, b"b".to_vec());
    // The second record begins where the first one ended: 12 + 1 + 1 bytes.
    assert_eq!(off, 14);
    // The index points at the same record the scan found.
    let kv = store.get_at(off).unwrap();
    assert_eq!(kv.key, b"k".to_vec());
    assert_eq!(kv.value, b"b".to_vec());
}

#[test]
fn update_behaves_like_insert() {
    let mut store = MiniRedis::open(Vec::new());
    store.insert(b"k", b"old").unwrap();
    store.update(b"k", b"new").unwrap();
    assert_eq!(store.get(b"k").unwrap(), Some(b"new".to_vec()));
}

#[test]
fn delete_then_get_is_present_but_empty() {
    let mut store = MiniRedis::open(Vec::new());
    store.insert(b"k", b"value").unwrap();
    store.delete(b"k").unwrap();
    assert_eq!(store.get(b"k").unwrap(), Some(Vec::new()));
    let (_, value) = store.find(b"k").unwrap().unwrap();
    assert_eq!(value, Vec::<u8>::new());
}

#[test]
fn delete_of_an_absent_key_makes_it_present_and_empty() {
    let mut store = MiniRedis::open(Vec::new());
    store.delete(b"ghost").unwrap();
    assert_eq!(store.get(b"ghost").unwrap(), Some(Vec::new()));
}

#[test]
fn find_agrees_with_get() {
    let mut store = MiniRedis::open(Vec::new());
    store.insert(b"a", b"1").unwrap();
    store.insert(b"b", b"2").unwrap();
    store.insert(b"a", b"3").unwrap();
    for key in [b"a".as_slice(), b"b".as_slice(), b"c".as_slice()] {
        let by_index = store.get(key).unwrap();
        let by_scan = store.find(key).unwrap().map(|(_, v)| v);
        assert_eq!(by_index, by_scan);
    }
}

#[test]
fn recovery_equivalence_over_mixed_operations() {
    let mut store = MiniRedis::open(Vec::new());
    store.insert(b"one", b"1").unwrap();
    store.insert(b"two", b"22").unwrap();
    store.update(b"one", b"111").unwrap();
    store.delete(b"two").unwrap();
    store.insert(b"three", b"").unwrap();
    store.insert(b"two", b"back").unwrap();
    let reopened = reopen(&store);
    for key in [
        b"one".as_slice(),
        b"two".as_slice(),
        b"three".as_slice(),
        b"never".as_slice(),
    ] {
        assert_eq!(store.get(key).unwrap(), reopened.get(key).unwrap());
    }
}

#[test]
fn example_scenario() {
    let mut store = MiniRedis::open(Vec::new());
    store.insert(b"name", b"alice").unwrap();
    store.insert(b"name", b"bob").unwrap();
    store.insert(b"age", b"30").unwrap();
    assert_eq!(store.get(b"name").unwrap(), Some(b"bob".to_vec()));
    assert_eq!(store.get(b"age").unwrap(), Some(b"30".to_vec()));
    assert_eq!(store.get(b"missing").unwrap(), None);
    let reopened = reopen(&store);
    assert_eq!(reopened.get(b"name").unwrap(), Some(b"bob".to_vec()));
    assert_eq!(reopened.get(b"age").unwrap(), Some(b"30".to_vec()));
    assert_eq!(reopened.get(b"missing").unwrap(), None);
}

#[test]
fn load_before_any_lookup_sees_prior_contents() {
    let mut store = MiniRedis::open(Vec::new());
    store.insert(b"k", b"v").unwrap();
    let mut unloaded = MiniRedis::open(store.log_bytes().clone());
    // Before load the index is empty, so lookups are false negatives.
    assert_eq!(unloaded.get(b"k").unwrap(), None);
    unloaded.load().unwrap();
    assert_eq!(unloaded.get(b"k").unwrap(), Some(b"v".to_vec()));
}

#[test]
fn insert_but_ignore_index_leaves_the_index_alone() {
    let mut store = MiniRedis::open(Vec::new());
    let off = store.insert_but_ignore_index(b"k", b"v").unwrap();
    assert_eq!(off, 0);
    assert_eq!(store.get(b"k").unwrap(), None);
    store.load().unwrap();
    assert_eq!(store.get(b"k").unwrap(), Some(b"v".to_vec()));
}

#[test]
fn seek_to_end_is_the_log_length() {
    let mut store = MiniRedis::open(Vec::new());
    assert_eq!(store.seek_to_end(), 0);
    store.insert(b"ab", b"xyz").unwrap();
    assert_eq!(store.seek_to_end(), 17);
    assert_eq!(store.log_bytes().len(), 17);
}

#[test]
fn get_at_reads_any_record_positionally() {
    let mut store = MiniRedis::open(Vec::new());
    store.insert(b"k", b"first").unwrap();
    let second = store.seek_to_end();
    store.insert(b"k", b"second").unwrap();
    let kv = store.get_at(0).unwrap();
    assert_eq!(kv.value, b"first".to_vec());
    let kv = store.get_at(second).unwrap();
    assert_eq!(kv.value, b"second".to_vec());
}

#[test]
fn get_at_past_the_end_is_unexpected_eof() {
    let mut store = MiniRedis::open(Vec::new());
    store.insert(b"k", b"v").unwrap();
    let end = store.seek_to_end();
    assert!(matches!(store.get_at(end), Err(StoreError::UnexpectedEof)));
    assert!(matches!(
        store.get_at(10_000),
        Err(StoreError::UnexpectedEof)
    ));
}

#[test]
fn load_of_a_truncated_record_fails() {
    let mut store = MiniRedis::open(Vec::new());
    store.insert(b"key", b"value").unwrap();
    let mut bytes = store.log_bytes().clone();
    bytes.pop();
    let mut broken = MiniRedis::open(bytes);
    assert_eq!(broken.load(), Err(StoreError::Truncated));
    assert_eq!(broken.find(b"key"), Err(StoreError::Truncated));
}

#[test]
fn load_of_a_corrupt_record_reports_both_checksums() {
    let mut store = MiniRedis::open(Vec::new());
    store.insert(b"key", b"value").unwrap();
    let mut bytes = store.log_bytes().clone();
    let last = bytes.len() - 1;
    bytes[last] ^= 0x01;
    let mut broken = MiniRedis::open(bytes);
    match broken.load() {
        Err(StoreError::ChecksumMismatch { stored, computed }) => {
            assert_ne!(stored, computed);
        }
        other => panic!("expected a checksum mismatch, got {:?}", other),
    }
    assert!(matches!(
        broken.find(b"key"),
        Err(StoreError::ChecksumMismatch { .. })
    ));
}

#[test]
fn corruption_after_a_good_record_still_aborts_load() {
    let mut store = MiniRedis::open(Vec::new());
    store.insert(b"good", b"1").unwrap();
    store.insert(b"bad", b"2").unwrap();
    let mut bytes = store.log_bytes().clone();
    let last = bytes.len() - 1;
    bytes[last] ^= 0x80;
    let mut broken = MiniRedis::open(bytes);
    assert!(matches!(
        broken.load(),
        Err(StoreError::ChecksumMismatch { .. })
    ));
    // The failed load leaves the index untouched.
    assert_eq!(broken.get(b"good").unwrap(), None);
}

#[test]
fn trailing_partial_header_is_a_clean_end_for_load() {
    let mut store = MiniRedis::open(Vec::new());
    store.insert(b"k", b"v").unwrap();
    let mut bytes = store.log_bytes().clone();
    bytes.extend_from_slice(&[0u8; 5]);
    let mut tail = MiniRedis::open(bytes);
    tail.load().unwrap();
    assert_eq!(tail.get(b"k").unwrap(), Some(b"v".to_vec()));
}

#[test]
fn index_entries_survive_remove_and_reload() {
    let mut store = MiniRedis::open(Vec::new());
    store.insert(b"a", b"1").unwrap();
    store.insert(b"b", b"2").unwrap();
    store.index.remove(b"a");
    assert_eq!(store.get(b"a").unwrap(), None);
    assert_eq!(store.get(b"b").unwrap(), Some(b"2".to_vec()));
    // The log still holds the record: a reload brings the key back.
    store.load().unwrap();
    assert_eq!(store.get(b"a").unwrap(), Some(b"1".to_vec()));
}

#[test]
fn index_entries_list_the_latest_offsets() {
    let mut store = MiniRedis::open(Vec::new());
    store.insert(b"a", b"1").unwrap();
    store.insert(b"a", b"22").unwrap();
    let entries = store.index.entries();
    assert_eq!(entries.len(), 1);
    assert_eq!(entries[0].0, b"a".to_vec());
    assert_eq!(entries[0].1, 14);
}
