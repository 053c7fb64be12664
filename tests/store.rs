use appendkv::error::KvError;
use appendkv::record::{encode, encode_tombstone};
use appendkv::store::Store;

fn loaded(log: Vec<u8>) -> Store {
    let mut s = Store::open(log);
    s.load().unwrap();
    s
}

#[test]
fn empty_file_loads_empty_index() {
    let s = loaded(Vec::new());
    assert_eq!(s.index().len(), 0);
    assert_eq!(s.get(b"a"), Ok(None));
}

#[test]
fn replay_keeps_last_write_per_key() {
    let mut log = encode(b"a", b"1");
    log.extend(encode(b"b", b"2"));
    let third = log.len() as u64;
    log.extend(encode(b"a", b"3"));
    let s = loaded(log);
    assert_eq!(s.get(b"a"), Ok(Some(b"3".to_vec())));
    assert_eq!(s.get(b"b"), Ok(Some(b"2".to_vec())));
    assert_eq!(s.index().get(b"a"), Some(third));
    assert_eq!(s.index().get(b"b"), Some(14));
    assert_eq!(s.index().len(), 2);
}

#[test]
fn open_does_not_populate_index() {
    let s = Store::open(encode(b"a", b"1"));
    assert_eq!(s.index().len(), 0);
    assert_eq!(s.get(b"a"), Ok(None));
}

#[test]
fn insert_then_get() {
    let mut s = loaded(Vec::new());
    assert_eq!(s.insert(b"k", b"v"), Ok(0));
    assert_eq!(s.get(b"k"), Ok(Some(b"v".to_vec())));
    assert_eq!(s.log().clone(), encode(b"k", b"v"));
    assert_eq!(s.insert(b"k2", b"v2"), Ok(14));
}

#[test]
fn insert_on_existing_key_fails_key_exists() {
    let mut s = loaded(Vec::new());
    s.insert(b"k", b"v").unwrap();
    let before = s.log().len();
    assert_eq!(s.insert(b"k", b"w"), Err(KvError::KeyExists));
    assert_eq!(s.log().len(), before);
    assert_eq!(s.get(b"k"), Ok(Some(b"v".to_vec())));
}

#[test]
fn update_on_missing_key_fails_key_not_found() {
    let mut s = loaded(Vec::new());
    assert_eq!(s.update(b"k", b"v"), Err(KvError::KeyNotFound));
    assert!(s.log().is_empty());
}

#[test]
fn delete_on_missing_key_fails_key_not_found() {
    let mut s = loaded(Vec::new());
    assert_eq!(s.delete(b"k"), Err(KvError::KeyNotFound));
}

#[test]
fn get_on_missing_key_is_none() {
    let mut s = loaded(Vec::new());
    s.insert(b"a", b"1").unwrap();
    assert_eq!(s.get(b"b"), Ok(None));
}

#[test]
fn update_appends_and_supersedes() {
    let mut s = loaded(Vec::new());
    s.insert(b"k", b"v1").unwrap();
    let off = s.update(b"k", b"v2").unwrap();
    assert_eq!(off, 15);
    assert_eq!(s.get(b"k"), Ok(Some(b"v2".to_vec())));
    assert_eq!(s.get_at(0).unwrap().value, Some(b"v1".to_vec()));
}

#[test]
fn last_write_wins_after_reload() {
    let mut s = loaded(Vec::new());
    s.insert(b"K", b"V1").unwrap();
    s.update(b"K", b"V2").unwrap();
    let fresh = loaded(s.log().clone());
    assert_eq!(fresh.get(b"K"), Ok(Some(b"V2".to_vec())));
}

#[test]
fn delete_survives_reload() {
    let mut s = loaded(Vec::new());
    s.insert(b"K", b"V").unwrap();
    s.delete(b"K").unwrap();
    assert_eq!(s.get(b"K"), Ok(None));
    let mut expected = encode(b"K", b"V");
    expected.extend(encode_tombstone(b"K"));
    assert_eq!(s.log().clone(), expected);
    let fresh = loaded(s.log().clone());
    assert_eq!(fresh.get(b"K"), Ok(None));
    assert_eq!(fresh.index().len(), 0);
}

#[test]
fn load_stops_on_corrupt_record() {
    let mut log = encode(b"a", b"1");
    log.extend(encode(b"b", b"2"));
    let last = log.len() - 1;
    log[last] ^= 0x10;
    let mut s = Store::open(log);
    assert_eq!(s.load(), Err(KvError::CorruptRecord));
    assert_eq!(s.index().len(), 0);
}

#[test]
fn load_reports_truncated_tail() {
    let mut log = encode(b"a", b"1");
    log.extend(&encode(b"b", b"2")[..5]);
    let mut s = Store::open(log);
    assert_eq!(s.load(), Err(KvError::UnexpectedEof));
}

#[test]
fn get_at_reads_raw_records() {
    let mut s = loaded(Vec::new());
    s.insert(b"a", b"1").unwrap();
    s.delete(b"a").unwrap();
    let rec = s.get_at(0).unwrap();
    assert_eq!(rec.key, b"a".to_vec());
    assert_eq!(rec.value, Some(b"1".to_vec()));
    let tomb = s.get_at(14).unwrap();
    assert_eq!(tomb.key, b"a".to_vec());
    assert_eq!(tomb.value, None);
    assert_eq!(s.get_at(27).err(), Some(KvError::UnexpectedEof));
    assert_eq!(s.get_at(3).err(), Some(KvError::UnexpectedEof));
}

#[test]
fn get_at_on_corrupt_record() {
    let mut log = encode(b"a", b"1");
    log[12] ^= 1;
    let s = Store::open(log);
    assert_eq!(s.get_at(0).err(), Some(KvError::CorruptRecord));
}

#[test]
fn reinsert_after_delete() {
    let mut s = loaded(Vec::new());
    s.insert(b"k", b"1").unwrap();
    s.delete(b"k").unwrap();
    s.insert(b"k", b"2").unwrap();
    let fresh = loaded(s.log().clone());
    assert_eq!(fresh.get(b"k"), Ok(Some(b"2".to_vec())));
}
