//! The store engine: an append-only log of records and the index rebuilt
//! from it.
//!
//! The log is held as the exact bytes of the backing file. Every change is an
//! append at its end; the caller writes the appended bytes to the file. Deletion
//! appends a tombstone, so a later replay sees the key as gone.
use vstd::prelude::*;
use crate::error::KvError;
use crate::index::Index;
use crate::record::{
    Record, Parsed, parse_at, record_bytes, encodable, payload, decode, encode, encode_tombstone,
    decoded_as, opt_view, lemma_parse_record,
};

verus! {

/// The index after seeing one record at `off`: a value sets the key's offset, a
/// tombstone drops the key.
pub open spec fn apply(m: Map<Seq<u8>, u64>, key: Seq<u8>, value: Option<Seq<u8>>, off: int) -> Map<
    Seq<u8>,
    u64,
> {
    match value {
        Some(_) => m.insert(key, off as u64),
        None => m.remove(key),
    }
}

/// Replays `log` from `off` onto `m`, record by record, until the log ends at a
/// record boundary.
pub open spec fn replay_from(log: Seq<u8>, off: int, m: Map<Seq<u8>, u64>) -> Result<
    Map<Seq<u8>, u64>,
    KvError,
>
    decreases log.len() - off,
{
    if off < 0 || off >= log.len() {
        Ok(m)
    } else {
        match parse_at(log, off) {
            Parsed::Eof => Err(KvError::UnexpectedEof),
            Parsed::Corrupt => Err(KvError::CorruptRecord),
            Parsed::Entry { key, value, end } => if end > off {
                replay_from(log, end, apply(m, key, value, off))
            } else {
                Err(KvError::CorruptRecord)
            },
        }
    }
}

/// The index that a full replay of `log` from its start builds.
pub open spec fn replay(log: Seq<u8>) -> Result<Map<Seq<u8>, u64>, KvError> {
    replay_from(log, 0, Map::empty())
}

/// Every key of `m` points at a record of `log` that binds that key to a value.
pub open spec fn consistent(log: Seq<u8>, m: Map<Seq<u8>, u64>) -> bool {
    forall|k: Seq<u8>| #[trigger]
        m.contains_key(k) ==> (parse_at(log, m[k] as int) matches Parsed::Entry { key, value, .. }
            && key == k && value is Some)
}

/// What `get` returns for `key` on this log and index.
pub open spec fn lookup(log: Seq<u8>, m: Map<Seq<u8>, u64>, key: Seq<u8>) -> Result<
    Option<Seq<u8>>,
    KvError,
> {
    if !m.contains_key(key) {
        Ok(None)
    } else {
        match parse_at(log, m[key] as int) {
            Parsed::Eof => Err(KvError::UnexpectedEof),
            Parsed::Corrupt => Err(KvError::CorruptRecord),
            Parsed::Entry { key: k, value, .. } => if k == key && value is Some {
                Ok(value)
            } else {
                Err(KvError::IndexCorruption)
            },
        }
    }
}

/// Whether a record for `key` and `value` can be appended to a log of
/// `log_len` bytes.
pub open spec fn fits(log_len: int, key: Seq<u8>, value: Option<Seq<u8>>) -> bool {
    &&& encodable(key, value)
    &&& log_len + 12 + key.len() + payload(value).len() <= usize::MAX
}

/// The view of a `get` result.
pub open spec fn get_view(r: Result<Option<Vec<u8>>, KvError>) -> Result<Option<Seq<u8>>, KvError> {
    match r {
        Ok(v) => Ok(opt_view(v)),
        Err(e) => Err(e),
    }
}

/// A record that was complete in a log reads the same after more bytes are
/// appended.
pub proof fn lemma_parse_prefix(log: Seq<u8>, extra: Seq<u8>, off: int)
    requires
        parse_at(log, off) is Entry,
    ensures
        parse_at(log + extra, off) == parse_at(log, off),
{
    let full = log + extra;
    let end = parse_at(log, off)->end;
    assert(full.subrange(0, log.len() as int) =~= log);
    assert(forall|j: int| 0 <= j < log.len() ==> full[j] == log[j]);
    let stored = crate::bytes::read_le32(log, off);
    let klen = crate::bytes::read_le32(log, off + 4) as int;
    assert(full.subrange(off + 4, end) =~= log.subrange(off + 4, end));
    assert(full.subrange(off + 12, off + 12 + klen) =~= log.subrange(off + 12, off + 12 + klen));
    assert(full.subrange(off + 12 + klen, end) =~= log.subrange(off + 12 + klen, end));
}

/// Appending bytes keeps every indexed record where it was.
pub proof fn lemma_consistent_append(log: Seq<u8>, extra: Seq<u8>, m: Map<Seq<u8>, u64>)
    requires
        consistent(log, m),
    ensures
        consistent(log + extra, m),
{
    assert forall|k: Seq<u8>| #[trigger] m.contains_key(k) implies (parse_at(
        log + extra,
        m[k] as int,
    ) matches Parsed::Entry { key, value, .. } && key == k && value is Some) by {
        lemma_parse_prefix(log, extra, m[k] as int);
    }
}

/// Replay only ever points keys at records that carry them.
pub proof fn lemma_replay_consistent(log: Seq<u8>, off: int, m0: Map<Seq<u8>, u64>)
    requires
        consistent(log, m0),
        log.len() <= u64::MAX,
        replay_from(log, off, m0) is Ok,
    ensures
        consistent(log, replay_from(log, off, m0)->Ok_0),
    decreases log.len() - off,
{
    if 0 <= off < log.len() {
        if let Parsed::Entry { key, value, end } = parse_at(log, off) {
            if end > off {
                let m1 = apply(m0, key, value, off);
                assert(consistent(log, m1)) by {
                    assert forall|k: Seq<u8>| #[trigger] m1.contains_key(k) implies (parse_at(
                        log,
                        m1[k] as int,
                    ) matches Parsed::Entry { key, value, .. } && key == k && value is Some) by {
                        if k != key {
                            assert(m0.contains_key(k));
                        }
                    }
                }
                lemma_replay_consistent(log, end, m1);
            }
        }
    }
}

/// Replaying a log with one more record gives the old result with that record
/// applied.
pub proof fn lemma_replay_append(
    log: Seq<u8>,
    off: int,
    m0: Map<Seq<u8>, u64>,
    key: Seq<u8>,
    value: Option<Seq<u8>>,
)
    requires
        0 <= off <= log.len(),
        encodable(key, value),
        replay_from(log, off, m0) is Ok,
    ensures
        replay_from(log + record_bytes(key, value), off, m0) == Ok::<Map<Seq<u8>, u64>, KvError>(
            apply(replay_from(log, off, m0)->Ok_0, key, value, log.len() as int),
        ),
    decreases log.len() - off,
{
    let rec = record_bytes(key, value);
    let full = log + rec;
    if off == log.len() {
        lemma_parse_record(log, key, value, Seq::empty());
        assert(log + rec + Seq::<u8>::empty() =~= full);
        let end = full.len() as int;
        assert(replay_from(full, end, apply(m0, key, value, off)) == Ok::<
            Map<Seq<u8>, u64>,
            KvError,
        >(apply(m0, key, value, off)));
    } else {
        if let Parsed::Entry { key: k, value: v, end } = parse_at(log, off) {
            lemma_parse_prefix(log, rec, off);
            if end > off {
                lemma_replay_append(log, end, apply(m0, k, v, off), key, value);
            }
        }
    }
}

/// Last write wins across a reload: when a key is written with one value and
/// then with another, a fresh replay of the log finds the second value.
pub proof fn lemma_last_write_wins(log: Seq<u8>, key: Seq<u8>, v1: Seq<u8>, v2: Seq<u8>)
    requires
        replay(log) is Ok,
        encodable(key, Some(v1)),
        encodable(key, Some(v2)),
        log.len() + record_bytes(key, Some(v1)).len() <= u64::MAX,
    ensures
        ({
            let log2 = log + record_bytes(key, Some(v1)) + record_bytes(key, Some(v2));
            &&& replay(log2) is Ok
            &&& lookup(log2, replay(log2)->Ok_0, key) == Ok::<Option<Seq<u8>>, KvError>(Some(v2))
        }),
{
    let log1 = log + record_bytes(key, Some(v1));
    let log2 = log1 + record_bytes(key, Some(v2));
    lemma_replay_append(log, 0, Map::empty(), key, Some(v1));
    lemma_replay_append(log1, 0, Map::empty(), key, Some(v2));
    lemma_parse_record(log1, key, Some(v2), Seq::empty());
    assert(log1 + record_bytes(key, Some(v2)) + Seq::<u8>::empty() =~= log2);
}

/// Deletion survives a reload: when a key is written and then deleted, a fresh
/// replay of the log does not find it.
pub proof fn lemma_delete_durable(log: Seq<u8>, key: Seq<u8>, v: Seq<u8>)
    requires
        replay(log) is Ok,
        encodable(key, Some(v)),
    ensures
        ({
            let log2 = log + record_bytes(key, Some(v)) + record_bytes(key, None);
            &&& replay(log2) is Ok
            &&& lookup(log2, replay(log2)->Ok_0, key) == Ok::<Option<Seq<u8>>, KvError>(None)
        }),
{
    let log1 = log + record_bytes(key, Some(v));
    lemma_replay_append(log, 0, Map::empty(), key, Some(v));
    lemma_replay_append(log1, 0, Map::empty(), key, None);
}

/// A log whose first record has one bit of its key or value flipped fails to
/// load with `CorruptRecord`.
pub proof fn lemma_flipped_record_fails_load(
    key: Seq<u8>,
    value: Seq<u8>,
    i: int,
    bit: u8,
    rest: Seq<u8>,
)
    requires
        encodable(key, Some(value)),
        12 <= i < record_bytes(key, Some(value)).len(),
        bit < 8,
    ensures
        ({
            let rec = record_bytes(key, Some(value));
            replay(rec.update(i, rec[i] ^ (1u8 << bit)) + rest) == Err::<
                Map<Seq<u8>, u64>,
                KvError,
            >(KvError::CorruptRecord)
        }),
{
    let rec = record_bytes(key, Some(value));
    let flipped = rec.update(i, rec[i] ^ (1u8 << bit));
    crate::record::lemma_bit_flip_detected(key, value, i, bit);
    lemma_corrupt_prefix(flipped, rest);
}

/// A record that reads as corrupt at the start of a log still does with more
/// bytes after it.
proof fn lemma_corrupt_prefix(log: Seq<u8>, extra: Seq<u8>)
    requires
        parse_at(log, 0) == Parsed::Corrupt,
    ensures
        parse_at(log + extra, 0) == Parsed::Corrupt,
        replay(log + extra) == Err::<Map<Seq<u8>, u64>, KvError>(KvError::CorruptRecord),
{
    let full = log + extra;
    assert(forall|j: int| 0 <= j < log.len() ==> full[j] == log[j]);
    let klen = crate::bytes::read_le32(log, 4) as int;
    let field = crate::bytes::read_le32(log, 8);
    let vlen = if field == crate::record::TOMBSTONE { 0 } else { field as int };
    let end = 12 + klen + vlen;
    assert(full.subrange(4, end) =~= log.subrange(4, end));
}

/// The store: the log's bytes and the index over them.
pub struct Store {
    log: Vec<u8>,
    index: Index,
}

impl Store {
    /// The bytes of the log.
    pub closed spec fn log_view(&self) -> Seq<u8> {
        self.log@
    }

    /// The index, as a mapping from key to offset.
    pub closed spec fn index_view(&self) -> Map<Seq<u8>, u64> {
        self.index@
    }

    /// The index is well formed and points each key at a record of that key.
    pub closed spec fn wf(&self) -> bool {
        &&& self.index.wf()
        &&& consistent(self.log@, self.index@)
    }

    /// A well-formed store's index points each key at a record of that key
    /// holding a value.
    pub proof fn lemma_wf_consistent(&self)
        requires
            self.wf(),
        ensures
            consistent(self.log_view(), self.index_view()),
    {
    }

    /// A store over the current contents of its file. The index starts empty:
    /// `load` fills it.
    pub fn open(contents: Vec<u8>) -> (r: Store)
        ensures
            r.wf(),
            r.log_view() == contents@,
            r.index_view() == Map::<Seq<u8>, u64>::empty(),
    {
        Store { log: contents, index: Index::new() }
    }

    /// The bytes of the log.
    pub fn log(&self) -> (r: &Vec<u8>)
        ensures
            r@ == self.log_view(),
    {
        &self.log
    }

    /// The index.
    pub fn index(&self) -> (r: &Index)
        requires
            self.wf(),
        ensures
            r.wf(),
            r@ == self.index_view(),
    {
        &self.index
    }

    /// Rebuilds the index by replaying the whole log from its start. On failure
    /// the index is left as it was.
    pub fn load(&mut self) -> (r: Result<(), KvError>)
        requires
            old(self).wf(),
        ensures
            final(self).wf(),
            final(self).log_view() == old(self).log_view(),
            match replay(old(self).log_view()) {
                Ok(m) => r is Ok && final(self).index_view() == m,
                Err(e) => r == Err::<(), KvError>(e) && final(self).index_view() == old(
                    self,
                ).index_view(),
            },
    {
        let mut idx = Index::new();
        let mut off: usize = 0;
        let ghost log = self.log@;
        assert(consistent(log, idx@));
        while off < self.log.len()
            invariant
                self.log@ == log,
                self.wf(),
                self.index@ == old(self).index@,
                idx.wf(),
                off <= log.len(),
                consistent(log, idx@),
                replay(log) == replay_from(log, off as int, idx@),
            decreases log.len() - off,
        {
            let (rec, end) = match decode(self.log.as_slice(), off) {
                Ok(d) => d,
                Err(e) => {
                    return Err(e);
                },
            };
            if end <= off {
                return Err(KvError::CorruptRecord);
            }
            let ghost m0 = idx@;
            match rec.value {
                Some(_) => idx.set(rec.key.as_slice(), off as u64),
                None => {
                    idx.remove(rec.key.as_slice());
                },
            }
            assert(idx@ == apply(m0, rec.key@, opt_view(rec.value), off as int));
            assert(consistent(log, idx@)) by {
                assert forall|k: Seq<u8>| #[trigger] idx@.contains_key(k) implies (parse_at(
                    log,
                    idx@[k] as int,
                ) matches Parsed::Entry { key, value, .. } && key == k && value is Some) by {
                    if k != rec.key@ {
                        assert(m0.contains_key(k));
                    }
                }
            }
            off = end;
        }
        self.index = idx;
        Ok(())
    }

    /// Drops `key` from the index only, leaving the log as it is.
    pub(crate) fn unindex(&mut self, key: &[u8])
        requires
            old(self).wf(),
        ensures
            final(self).wf(),
            final(self).log_view() == old(self).log_view(),
            final(self).index_view() == old(self).index_view().remove(key@),
    {
        self.index.remove(key);
    }

    fn read_at(&self, offset: u64) -> (r: Result<(Record, usize), KvError>)
        ensures
            decoded_as(r, parse_at(self.log@, offset as int)),
    {
        if offset >= self.log.len() as u64 {
            return Err(KvError::UnexpectedEof);
        }
        decode(self.log.as_slice(), offset as usize)
    }

    /// The latest value of `key`: `None` when the key is not indexed.
    pub fn get(&self, key: &[u8]) -> (r: Result<Option<Vec<u8>>, KvError>)
        requires
            self.wf(),
        ensures
            get_view(r) == lookup(self.log_view(), self.index_view(), key@),
            r is Err ==> r != Err::<Option<Vec<u8>>, KvError>(KvError::IndexCorruption),
    {
        let off = match self.index.get(key) {
            None => {
                return Ok(None);
            },
            Some(o) => o,
        };
        match self.read_at(off) {
            Err(e) => Err(e),
            Ok((rec, _)) => {
                if crate::bytes::bytes_equal(rec.key.as_slice(), key) && rec.value.is_some() {
                    Ok(rec.value)
                } else {
                    Err(KvError::IndexCorruption)
                }
            },
        }
    }

    /// The record at `offset`, read directly without the index.
    pub fn get_at(&self, offset: u64) -> (r: Result<Record, KvError>)
        ensures
            match parse_at(self.log_view(), offset as int) {
                Parsed::Eof => r == Err::<Record, KvError>(KvError::UnexpectedEof),
                Parsed::Corrupt => r == Err::<Record, KvError>(KvError::CorruptRecord),
                Parsed::Entry { key, value, .. } => r matches Ok(rec) && rec@ == (key, value),
            },
    {
        match self.read_at(offset) {
            Ok((rec, _)) => Ok(rec),
            Err(e) => Err(e),
        }
    }

    fn has_room(&self, klen: usize, vlen: usize) -> (r: bool)
        ensures
            r == (self.log@.len() + 12 + klen + vlen <= usize::MAX),
    {
        let len = self.log.len();
        len <= usize::MAX - 12 && klen <= usize::MAX - 12 - len && vlen <= usize::MAX - 12 - len
            - klen
    }

    /// Appends a record for `key` and points the index at it.
    fn append_value(&mut self, key: &[u8], value: &[u8]) -> (r: u64)
        requires
            old(self).wf(),
            fits(old(self).log@.len() as int, key@, Some(value@)),
        ensures
            final(self).wf(),
            r == old(self).log@.len(),
            final(self).log@ == old(self).log@ + record_bytes(key@, Some(value@)),
            final(self).index@ == old(self).index@.insert(key@, r),
    {
        let off = self.log.len() as u64;
        let mut rec = encode(key, value);
        let ghost old_log = self.log@;
        self.log.append(&mut rec);
        proof {
            lemma_consistent_append(old_log, record_bytes(key@, Some(value@)), self.index@);
            lemma_parse_record(old_log, key@, Some(value@), Seq::empty());
            assert(old_log + record_bytes(key@, Some(value@)) + Seq::<u8>::empty() =~= self.log@);
        }
        self.index.set(key, off);
        off
    }

    /// Adds `key` with `value`. Fails with `KeyExists` when the key is indexed,
    /// and with `RecordTooLarge` when the record does not fit.
    pub fn insert(&mut self, key: &[u8], value: &[u8]) -> (r: Result<u64, KvError>)
        requires
            old(self).wf(),
        ensures
            final(self).wf(),
            old(self).index_view().contains_key(key@) ==> r == Err::<u64, KvError>(
                KvError::KeyExists,
            ),
            !old(self).index_view().contains_key(key@) && !fits(
                old(self).log_view().len() as int,
                key@,
                Some(value@),
            ) ==> r == Err::<u64, KvError>(KvError::RecordTooLarge),
            r is Err ==> *final(self) == *old(self),
            !old(self).index_view().contains_key(key@) && fits(
                old(self).log_view().len() as int,
                key@,
                Some(value@),
            ) ==> {
                &&& r == Ok::<u64, KvError>(old(self).log_view().len() as u64)
                &&& final(self).log_view() == old(self).log_view() + record_bytes(key@, Some(value@))
                &&& final(self).index_view() == old(self).index_view().insert(
                    key@,
                    old(self).log_view().len() as u64,
                )
            },
    {
        if self.index.contains(key) {
            return Err(KvError::KeyExists);
        }
        if key.len() > 0xFFFF_FFFF || value.len() >= 0xFFFF_FFFF || !self.has_room(
            key.len(),
            value.len(),
        ) {
            return Err(KvError::RecordTooLarge);
        }
        Ok(self.append_value(key, value))
    }

    /// Replaces the value of `key`. Fails with `KeyNotFound` when the key is not
    /// indexed, and with `RecordTooLarge` when the record does not fit. The old
    /// record stays in the log, superseded.
    pub fn update(&mut self, key: &[u8], value: &[u8]) -> (r: Result<u64, KvError>)
        requires
            old(self).wf(),
        ensures
            final(self).wf(),
            !old(self).index_view().contains_key(key@) ==> r == Err::<u64, KvError>(
                KvError::KeyNotFound,
            ),
            old(self).index_view().contains_key(key@) && !fits(
                old(self).log_view().len() as int,
                key@,
                Some(value@),
            ) ==> r == Err::<u64, KvError>(KvError::RecordTooLarge),
            r is Err ==> *final(self) == *old(self),
            old(self).index_view().contains_key(key@) && fits(
                old(self).log_view().len() as int,
                key@,
                Some(value@),
            ) ==> {
                &&& r == Ok::<u64, KvError>(old(self).log_view().len() as u64)
                &&& final(self).log_view() == old(self).log_view() + record_bytes(key@, Some(value@))
                &&& final(self).index_view() == old(self).index_view().insert(
                    key@,
                    old(self).log_view().len() as u64,
                )
            },
    {
        if !self.index.contains(key) {
            return Err(KvError::KeyNotFound);
        }
        if key.len() > 0xFFFF_FFFF || value.len() >= 0xFFFF_FFFF || !self.has_room(
            key.len(),
            value.len(),
        ) {
            return Err(KvError::RecordTooLarge);
        }
        Ok(self.append_value(key, value))
    }

    /// Deletes `key`: appends a tombstone and drops the key from the index.
    /// Fails with `KeyNotFound` when the key is not indexed, and with
    /// `RecordTooLarge` when the tombstone does not fit.
    pub fn delete(&mut self, key: &[u8]) -> (r: Result<(), KvError>)
        requires
            old(self).wf(),
        ensures
            final(self).wf(),
            !old(self).index_view().contains_key(key@) ==> r == Err::<(), KvError>(
                KvError::KeyNotFound,
            ),
            old(self).index_view().contains_key(key@) && !fits(
                old(self).log_view().len() as int,
                key@,
                None,
            ) ==> r == Err::<(), KvError>(KvError::RecordTooLarge),
            r is Err ==> *final(self) == *old(self),
            old(self).index_view().contains_key(key@) && fits(
                old(self).log_view().len() as int,
                key@,
                None,
            ) ==> {
                &&& r is Ok
                &&& final(self).log_view() == old(self).log_view() + record_bytes(key@, None)
                &&& final(self).index_view() == old(self).index_view().remove(key@)
            },
    {
        if !self.index.contains(key) {
            return Err(KvError::KeyNotFound);
        }
        if key.len() > 0xFFFF_FFFF || !self.has_room(key.len(), 0) {
            return Err(KvError::RecordTooLarge);
        }
        let mut rec = encode_tombstone(key);
        let ghost old_log = self.log@;
        self.log.append(&mut rec);
        proof {
            lemma_consistent_append(old_log, record_bytes(key@, None), self.index@);
        }
        self.index.remove(key);
        Ok(())
    }
}

} // verus!
