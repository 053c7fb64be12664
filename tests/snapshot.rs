use std::collections::HashMap;

use appendkv::error::KvError;
use appendkv::snapshot::{load_snapshot, persist_index};
use appendkv::store::Store;

fn store_with(pairs: &[(&[u8], &[u8])]) -> Store {
    let mut s = Store::open(Vec::new());
    s.load().unwrap();
    for (k, v) in pairs {
        s.insert(k, v).unwrap();
    }
    s
}

#[test]
fn snapshot_lists_index_without_reserved_key() {
    let mut s = store_with(&[(b"a", b"1"), (b"bb", b"22"), (b"+index", b"old")]);
    let mut expected: Vec<(Vec<u8>, u64)> = vec![(b"a".to_vec(), 0), (b"bb".to_vec(), 14)];
    let off = persist_index(&mut s, b"+index").unwrap();
    assert_eq!(off, 51);
    let mut got = load_snapshot(&s, b"+index").unwrap().unwrap();
    got.sort();
    expected.sort();
    assert_eq!(got, expected);
    assert_eq!(s.index().get(b"+index"), Some(51));
    assert_eq!(s.get(b"a"), Ok(Some(b"1".to_vec())));
}

#[test]
fn snapshot_bytes_follow_bincode_layout() {
    let mut s = store_with(&[(b"ab", b"x")]);
    persist_index(&mut s, b"+index").unwrap();
    let bytes = s.get(b"+index").unwrap().unwrap();
    let mut expected = Vec::new();
    expected.extend(1u64.to_le_bytes());
    expected.extend(2u64.to_le_bytes());
    expected.extend(b"ab");
    expected.extend(0u64.to_le_bytes());
    assert_eq!(bytes, expected);
    let as_map: HashMap<Vec<u8>, u64> = bincode::deserialize(&bytes).unwrap();
    assert_eq!(as_map.get(&b"ab".to_vec()), Some(&0));
}

#[test]
fn snapshot_of_empty_index() {
    let mut s = store_with(&[]);
    persist_index(&mut s, b"+index").unwrap();
    let got = load_snapshot(&s, b"+index").unwrap().unwrap();
    assert!(got.is_empty());
    assert_eq!(s.get(b"+index"), Ok(Some(0u64.to_le_bytes().to_vec())));
}

#[test]
fn snapshot_survives_reload() {
    let mut s = store_with(&[(b"k", b"v")]);
    persist_index(&mut s, b"+index").unwrap();
    let mut fresh = Store::open(s.log().clone());
    fresh.load().unwrap();
    let got = load_snapshot(&fresh, b"+index").unwrap().unwrap();
    assert_eq!(got, vec![(b"k".to_vec(), 0)]);
}

#[test]
fn missing_snapshot_is_none() {
    let s = store_with(&[(b"k", b"v")]);
    assert_eq!(load_snapshot(&s, b"+index"), Ok(None));
}

#[test]
fn undecodable_snapshot_is_reported() {
    let s = store_with(&[(b"+index", b"\x05")]);
    assert_eq!(load_snapshot(&s, b"+index"), Err(KvError::SnapshotEncoding));
}

#[test]
fn insert_then_snapshot_on_empty_file_gives_exact_log() {
    let mut s = store_with(&[(b"a", b"1")]);
    persist_index(&mut s, b"+index").unwrap();
    let mut map = HashMap::new();
    map.insert(b"a".to_vec(), 0u64);
    let mut expected = appendkv::record::encode(b"a", b"1");
    expected.extend(appendkv::record::encode(b"+index", &bincode::serialize(&map).unwrap()));
    assert_eq!(s.log().clone(), expected);
    assert_eq!(s.index().get(b"a"), Some(0));
    assert_eq!(s.index().get(b"+index"), Some(14));
}
