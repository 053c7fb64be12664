use appendkv::checksum::checksum;
use appendkv::error::KvError;
use appendkv::record::{decode, encode, encode_tombstone};

#[test]
fn checksum_matches_adler32() {
    assert_eq!(checksum(b"Wikipedia"), 0x11E6_0398);
    assert_eq!(checksum(b""), 1);
}

#[test]
fn encode_lays_out_header_and_payload() {
    let bytes = encode(b"a", b"1");
    assert_eq!(bytes, vec![149, 0, 13, 1, 1, 0, 0, 0, 1, 0, 0, 0, 97, 49]);
}

#[test]
fn encode_tombstone_marks_value_length() {
    let bytes = encode_tombstone(b"a");
    assert_eq!(bytes, vec![95, 4, 101, 14, 1, 0, 0, 0, 255, 255, 255, 255, 97]);
}

#[test]
fn decode_round_trips() {
    let cases: Vec<(&[u8], &[u8])> =
        vec![(b"", b""), (b"k", b""), (b"", b"v"), (b"key", b"value"), (&[0, 255, 7], &[1; 300])];
    for (k, v) in cases {
        let bytes = encode(k, v);
        let (rec, end) = decode(&bytes, 0).unwrap();
        assert_eq!(rec.key, k.to_vec());
        assert_eq!(rec.value, Some(v.to_vec()));
        assert_eq!(end, bytes.len());
    }
}

#[test]
fn decode_tombstone_has_no_value() {
    let bytes = encode_tombstone(b"gone");
    let (rec, end) = decode(&bytes, 0).unwrap();
    assert_eq!(rec.key, b"gone".to_vec());
    assert_eq!(rec.value, None);
    assert_eq!(end, bytes.len());
}

#[test]
fn decode_at_offset_reads_second_record() {
    let mut log = encode(b"a", b"1");
    let first = log.len();
    log.extend(encode(b"bb", b"22"));
    let (rec, end) = decode(&log, first).unwrap();
    assert_eq!(rec.key, b"bb".to_vec());
    assert_eq!(rec.value, Some(b"22".to_vec()));
    assert_eq!(end, log.len());
}

#[test]
fn every_single_bit_flip_in_payload_is_corrupt() {
    let bytes = encode(b"key", b"value");
    for i in 12..bytes.len() {
        for bit in 0..8 {
            let mut flipped = bytes.clone();
            flipped[i] ^= 1 << bit;
            assert_eq!(decode(&flipped, 0).err(), Some(KvError::CorruptRecord));
        }
    }
}

#[test]
fn flip_in_stored_checksum_is_corrupt() {
    let mut bytes = encode(b"key", b"value");
    bytes[0] ^= 1;
    assert_eq!(decode(&bytes, 0).err(), Some(KvError::CorruptRecord));
}

#[test]
fn truncated_record_is_unexpected_eof() {
    let bytes = encode(b"key", b"value");
    for cut in 0..bytes.len() {
        assert_eq!(decode(&bytes[..cut], 0).err(), Some(KvError::UnexpectedEof));
    }
    assert_eq!(decode(&bytes, bytes.len()).err(), Some(KvError::UnexpectedEof));
    assert_eq!(decode(&bytes, usize::MAX).err(), Some(KvError::UnexpectedEof));
}
