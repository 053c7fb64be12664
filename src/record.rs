//! The binary record format.
//!
//! A record is `checksum | key_len | value_len | key | value`, each of the three
//! header fields a little-endian `u32`. The checksum covers everything after
//! it. A `value_len` of `u32::MAX` marks a tombstone: the key was deleted, and
//! no value bytes follow.
use vstd::prelude::*;
use crate::bytes::{le32, read_le32, push_le32, push_all, get_le32, copy_range, lemma_read_le32};
use crate::checksum::{checksum, checksum_of};
use crate::error::KvError;

verus! {

/// Length of the fixed header.
pub const HEADER_LEN: usize = 12;

/// The `value_len` field of a tombstone.
pub const TOMBSTONE: u32 = 0xFFFF_FFFF;

/// One decoded record: a key and its value, or `None` for a tombstone.
pub struct Record {
    pub key: Vec<u8>,
    pub value: Option<Vec<u8>>,
}

/// The view of an optional byte vector.
pub open spec fn opt_view(v: Option<Vec<u8>>) -> Option<Seq<u8>> {
    match v {
        Some(b) => Some(b@),
        None => None,
    }
}

impl View for Record {
    type V = (Seq<u8>, Option<Seq<u8>>);

    open spec fn view(&self) -> (Seq<u8>, Option<Seq<u8>>) {
        (self.key@, opt_view(self.value))
    }
}

/// Whether the format can describe a record with this key and value.
pub open spec fn encodable(key: Seq<u8>, value: Option<Seq<u8>>) -> bool {
    &&& key.len() <= u32::MAX
    &&& match value {
        Some(v) => v.len() < u32::MAX,
        None => true,
    }
}

/// The `value_len` header field.
pub open spec fn value_field(value: Option<Seq<u8>>) -> u32 {
    match value {
        Some(v) => v.len() as u32,
        None => TOMBSTONE,
    }
}

/// The value bytes that follow the key.
pub open spec fn payload(value: Option<Seq<u8>>) -> Seq<u8> {
    match value {
        Some(v) => v,
        None => Seq::empty(),
    }
}

/// Everything after the checksum field.
pub open spec fn body_of(key: Seq<u8>, value: Option<Seq<u8>>) -> Seq<u8> {
    le32(key.len() as u32) + le32(value_field(value)) + key + payload(value)
}

/// The full bytes of a record.
pub open spec fn record_bytes(key: Seq<u8>, value: Option<Seq<u8>>) -> Seq<u8> {
    le32(checksum_of(body_of(key, value))) + body_of(key, value)
}

/// What reading a record at some offset of a log gives.
pub enum Parsed {
    /// The log ends before the record does.
    Eof,
    /// The record is complete but its checksum disagrees.
    Corrupt,
    /// A sound record, ending at `end`.
    Entry { key: Seq<u8>, value: Option<Seq<u8>>, end: int },
}

/// The record that starts at `off` in `log`.
pub open spec fn parse_at(log: Seq<u8>, off: int) -> Parsed {
    if off < 0 || off + 12 > log.len() {
        Parsed::Eof
    } else {
        let stored = read_le32(log, off);
        let klen = read_le32(log, off + 4) as int;
        let field = read_le32(log, off + 8);
        let vlen = if field == TOMBSTONE {
            0
        } else {
            field as int
        };
        let end = off + 12 + klen + vlen;
        if end > log.len() {
            Parsed::Eof
        } else if checksum_of(log.subrange(off + 4, end)) != stored {
            Parsed::Corrupt
        } else {
            Parsed::Entry {
                key: log.subrange(off + 12, off + 12 + klen),
                value: if field == TOMBSTONE {
                    None
                } else {
                    Some(log.subrange(off + 12 + klen, end))
                },
                end,
            }
        }
    }
}

/// The outcome of `decode` on a given parse.
pub open spec fn decoded_as(r: Result<(Record, usize), KvError>, p: Parsed) -> bool {
    match p {
        Parsed::Eof => r == Err::<(Record, usize), KvError>(KvError::UnexpectedEof),
        Parsed::Corrupt => r == Err::<(Record, usize), KvError>(KvError::CorruptRecord),
        Parsed::Entry { key, value, end } => r matches Ok((rec, e)) && rec@ == (key, value) && e
            == end,
    }
}

/// A record placed anywhere in a log reads back as the key and value it holds.
pub proof fn lemma_parse_record(pre: Seq<u8>, key: Seq<u8>, value: Option<Seq<u8>>, post: Seq<u8>)
    requires
        encodable(key, value),
    ensures
        parse_at(pre + record_bytes(key, value) + post, pre.len() as int) == (Parsed::Entry {
            key,
            value,
            end: (pre.len() + record_bytes(key, value).len()) as int,
        }),
{
    let body = body_of(key, value);
    let rec = record_bytes(key, value);
    let log = pre + rec + post;
    let off = pre.len() as int;
    let klen = key.len() as int;
    assert(log.subrange(off, off + 4) =~= le32(checksum_of(body)));
    assert(log.subrange(off + 4, off + 8) =~= le32(key.len() as u32));
    assert(log.subrange(off + 8, off + 12) =~= le32(value_field(value)));
    lemma_read_le32(log, off, checksum_of(body));
    lemma_read_le32(log, off + 4, key.len() as u32);
    lemma_read_le32(log, off + 8, value_field(value));
    let end = off + rec.len();
    assert(log.subrange(off + 4, end) =~= body);
    assert(log.subrange(off + 12, off + 12 + klen) =~= key);
    match value {
        Some(v) => {
            assert(log.subrange(off + 12 + klen, end) =~= v);
        },
        None => {},
    }
}

/// Decoding the bytes of one record gives back its key and value.
pub proof fn lemma_round_trip(key: Seq<u8>, value: Seq<u8>)
    requires
        encodable(key, Some(value)),
    ensures
        parse_at(record_bytes(key, Some(value)), 0) == (Parsed::Entry {
            key,
            value: Some(value),
            end: record_bytes(key, Some(value)).len() as int,
        }),
{
    lemma_parse_record(Seq::empty(), key, Some(value), Seq::empty());
    assert(Seq::<u8>::empty() + record_bytes(key, Some(value)) + Seq::<u8>::empty()
        =~= record_bytes(key, Some(value)));
}

/// Flipping any one bit of a record's key or value bytes makes it read as
/// corrupt.
pub proof fn lemma_bit_flip_detected(key: Seq<u8>, value: Seq<u8>, i: int, bit: u8)
    requires
        encodable(key, Some(value)),
        12 <= i < record_bytes(key, Some(value)).len(),
        bit < 8,
    ensures
        ({
            let rec = record_bytes(key, Some(value));
            parse_at(rec.update(i, rec[i] ^ (1u8 << bit)), 0) == Parsed::Corrupt
        }),
{
    let rec = record_bytes(key, Some(value));
    let x = rec[i];
    let v = x ^ (1u8 << bit);
    assert(v != x) by (bit_vector)
        requires
            bit < 8,
            v == x ^ (1u8 << bit),
    ;
    let flipped = rec.update(i, v);
    let body = body_of(key, Some(value));
    lemma_round_trip(key, value);
    // the header is untouched, so the same lengths and stored checksum are read
    assert(flipped.subrange(0, 12) =~= rec.subrange(0, 12));
    assert(read_le32(flipped, 0) == read_le32(rec, 0));
    assert(read_le32(flipped, 4) == read_le32(rec, 4));
    assert(read_le32(flipped, 8) == read_le32(rec, 8));
    assert(rec.subrange(0, 4) =~= le32(checksum_of(body)));
    lemma_read_le32(rec, 0, checksum_of(body));
    assert(rec.subrange(4, rec.len() as int) =~= body);
    assert(flipped.subrange(4, rec.len() as int) =~= body.update(i - 4, v));
    crate::checksum::lemma_checksum_detects_byte_change(body, i - 4, v);
}

fn encode_record(key: &[u8], value: Option<&[u8]>) -> (r: Vec<u8>)
    requires
        encodable(key@, match value { Some(v) => Some(v@), None => None }),
    ensures
        r@ == record_bytes(key@, match value { Some(v) => Some(v@), None => None }),
{
    let ghost vv = match value { Some(v) => Some(v@), None => None };
    let mut body: Vec<u8> = Vec::new();
    push_le32(&mut body, key.len() as u32);
    match value {
        Some(v) => push_le32(&mut body, v.len() as u32),
        None => push_le32(&mut body, TOMBSTONE),
    }
    push_all(&mut body, key);
    match value {
        Some(v) => push_all(&mut body, v),
        None => {},
    }
    assert(body@ =~= body_of(key@, vv));
    let sum = checksum(body.as_slice());
    let mut out: Vec<u8> = Vec::new();
    push_le32(&mut out, sum);
    push_all(&mut out, body.as_slice());
    assert(out@ =~= record_bytes(key@, vv));
    out
}

/// Lays out a record that binds `key` to `value`.
pub fn encode(key: &[u8], value: &[u8]) -> (r: Vec<u8>)
    requires
        key@.len() <= u32::MAX,
        value@.len() < u32::MAX,
    ensures
        r@ == record_bytes(key@, Some(value@)),
{
    encode_record(key, Some(value))
}

/// Lays out a tombstone that marks `key` as deleted.
pub fn encode_tombstone(key: &[u8]) -> (r: Vec<u8>)
    requires
        key@.len() <= u32::MAX,
    ensures
        r@ == record_bytes(key@, None),
{
    encode_record(key, None)
}

/// Reads the record that starts at `offset` in `buf`, and the offset where it
/// ends. Fails with `UnexpectedEof` when `buf` ends first, and with
/// `CorruptRecord` when the checksum disagrees.
pub fn decode(buf: &[u8], offset: usize) -> (r: Result<(Record, usize), KvError>)
    ensures
        decoded_as(r, parse_at(buf@, offset as int)),
{
    let len = buf.len();
    if len < HEADER_LEN || offset > len - HEADER_LEN {
        return Err(KvError::UnexpectedEof);
    }
    let stored = get_le32(buf, offset);
    let klen = get_le32(buf, offset + 4) as usize;
    let field = get_le32(buf, offset + 8);
    let vlen: usize = if field == TOMBSTONE {
        0
    } else {
        field as usize
    };
    let room = len - offset - HEADER_LEN;
    if klen > room || vlen > room - klen {
        return Err(KvError::UnexpectedEof);
    }
    let key_start = offset + HEADER_LEN;
    let end = key_start + klen + vlen;
    if checksum(&buf[offset + 4..end]) != stored {
        return Err(KvError::CorruptRecord);
    }
    let key = copy_range(buf, key_start, key_start + klen);
    let value = if field == TOMBSTONE {
        None
    } else {
        Some(copy_range(buf, key_start + klen, end))
    };
    Ok((Record { key, value }, end))
}

} // verus!
