//! The index snapshot: a serialised copy of the index, stored in the log under
//! a reserved key like any other value.
//!
//! The layout is bincode's with fixed-width little-endian integers: the number
//! of entries as a `u64`, then each entry as the key's length (`u64`), the key's
//! bytes and the offset (`u64`). This is also how bincode lays out a map from
//! byte strings to `u64`, entry by entry.
use vstd::prelude::*;
use crate::bytes::le64;
use crate::error::KvError;
use crate::index::{keys_unique, map_of, entries_view};
use crate::record::{record_bytes, lemma_parse_record};
use crate::store::{Store, lookup, fits};

verus! {

/// bincode's error, carried only as far as `KvError::SnapshotEncoding`.
#[verifier::external_type_specification]
#[verifier::external_body]
pub struct ExErrorKind(bincode::ErrorKind);

/// The bytes of one entry.
pub open spec fn entry_bytes(e: (Seq<u8>, u64)) -> Seq<u8> {
    le64(e.0.len() as u64) + e.0 + le64(e.1)
}

/// The bytes of a run of entries, one after the other.
pub open spec fn entries_bytes(s: Seq<(Seq<u8>, u64)>) -> Seq<u8>
    decreases s.len(),
{
    if s.len() == 0 {
        Seq::empty()
    } else {
        entries_bytes(s.drop_last()) + entry_bytes(s.last())
    }
}

/// The serialised form of a list of entries.
pub open spec fn snapshot_bytes(s: Seq<(Seq<u8>, u64)>) -> Seq<u8> {
    le64(s.len() as u64) + entries_bytes(s)
}

/// No two plain entries carry the same key.
pub open spec fn pairs_unique(s: Seq<(Seq<u8>, u64)>) -> bool {
    forall|i: int, j: int|
        0 <= i < s.len() && 0 <= j < s.len() && (#[trigger] s[i]).0 == (#[trigger] s[j]).0 ==> i == j
}

/// The mapping that a list of plain entries describes.
pub open spec fn pairs_map(s: Seq<(Seq<u8>, u64)>) -> Map<Seq<u8>, u64> {
    Map::new(
        |k: Seq<u8>| exists|i: int| 0 <= i < s.len() && (#[trigger] s[i]).0 == k,
        |k: Seq<u8>| s[choose|i: int| 0 <= i < s.len() && (#[trigger] s[i]).0 == k].1,
    )
}

/// `s` lists the mapping `m`, each key once.
pub open spec fn lists(s: Seq<(Seq<u8>, u64)>, m: Map<Seq<u8>, u64>) -> bool {
    pairs_unique(s) && pairs_map(s) == m
}

/// The view of a list of entries that `load_snapshot` returns.
pub open spec fn snapshot_view(r: Result<Option<Vec<(Vec<u8>, u64)>>, KvError>) -> Result<
    Option<Seq<(Seq<u8>, u64)>>,
    KvError,
> {
    match r {
        Ok(Some(v)) => Ok(Some(entries_view(v@))),
        Ok(None) => Ok(None),
        Err(e) => Err(e),
    }
}

proof fn lemma_entries_view_lists(s: Seq<(Vec<u8>, u64)>)
    requires
        keys_unique(s),
    ensures
        lists(entries_view(s), map_of(s)),
{
    let p = entries_view(s);
    assert forall|i: int| 0 <= i < s.len() implies #[trigger] p[i] == (s[i].0@, s[i].1) by {}
    assert(pairs_unique(p)) by {
        assert forall|i: int, j: int|
            0 <= i < p.len() && 0 <= j < p.len() && (#[trigger] p[i]).0 == (#[trigger] p[j]).0 implies i
            == j by {
            assert(s[i].0@ == s[j].0@);
        }
    }
    assert forall|k: Seq<u8>| #[trigger] pairs_map(p).contains_key(k) == map_of(s).contains_key(k) by {
        if pairs_map(p).contains_key(k) {
            let i = choose|i: int| 0 <= i < p.len() && (#[trigger] p[i]).0 == k;
            assert(s[i].0@ == k);
        }
        if map_of(s).contains_key(k) {
            let i = choose|i: int| 0 <= i < s.len() && (#[trigger] s[i].0)@ == k;
            assert(p[i].0 == k);
        }
    }
    assert forall|k: Seq<u8>| #[trigger] pairs_map(p).contains_key(k) implies pairs_map(p)[k]
        == map_of(s)[k] by {
        let i = choose|i: int| 0 <= i < p.len() && (#[trigger] p[i]).0 == k;
        let j = choose|j: int| 0 <= j < s.len() && (#[trigger] s[j].0)@ == k;
        assert(p[j].0 == k);
    }
    assert(pairs_map(p) =~= map_of(s));
}

/// Relies on `bincode::serialize`, whose default layout uses fixed-width
/// little-endian integers: a `Vec` is its length as a `u64` followed by its
/// items, a tuple is its fields in order, a `u8` is one byte and a `u64` eight.
/// It fails only on a sequence of unknown length or past a size limit; a `Vec`
/// has a length and these default options set no limit, so it succeeds here.
#[verifier::external_body]
fn serialize_entries(entries: &Vec<(Vec<u8>, u64)>) -> (r: Result<Vec<u8>, Box<bincode::ErrorKind>>)
    ensures
        r is Ok,
        r matches Ok(b) ==> b@ == snapshot_bytes(entries_view(entries@)),
{
    bincode::serialize(entries)
}

/// Relies on `bincode::deserialize`, which reads back the layout that
/// `bincode::serialize` writes (bytes after it are allowed).
#[verifier::external_body]
fn deserialize_entries(bytes: &[u8]) -> (r: Result<Vec<(Vec<u8>, u64)>, Box<bincode::ErrorKind>>)
    ensures
        forall|s: Seq<(Seq<u8>, u64)>| #[trigger]
            snapshot_bytes(s) == bytes@ ==> r is Ok && entries_view(r->Ok_0@) == s,
{
    bincode::deserialize(bytes)
}

/// Stores a snapshot of the index under `reserved_key`. The key is first
/// dropped from the index, so the snapshot lists every other key; the snapshot
/// is then inserted as that key's value. Fails only with `RecordTooLarge`, when
/// the snapshot record does not fit; the key then stays dropped and the log is
/// unchanged.
pub fn persist_index(store: &mut Store, reserved_key: &[u8]) -> (r: Result<u64, KvError>)
    requires
        old(store).wf(),
    ensures
        final(store).wf(),
        ({
            let m = old(store).index_view().remove(reserved_key@);
            match r {
                Ok(off) => {
                    &&& off == old(store).log_view().len()
                    &&& final(store).index_view() == m.insert(reserved_key@, off)
                    &&& exists|s: Seq<(Seq<u8>, u64)>|
                        lists(s, m) && fits(
                            old(store).log_view().len() as int,
                            reserved_key@,
                            Some(snapshot_bytes(s)),
                        ) && #[trigger] final(store).log_view() == old(store).log_view()
                            + record_bytes(reserved_key@, Some(snapshot_bytes(s)))
                },
                Err(e) => {
                    &&& final(store).log_view() == old(store).log_view()
                    &&& final(store).index_view() == m
                    &&& e == KvError::RecordTooLarge
                    &&& exists|s: Seq<(Seq<u8>, u64)>|
                        lists(s, m) && !#[trigger] fits(
                            old(store).log_view().len() as int,
                            reserved_key@,
                            Some(snapshot_bytes(s)),
                        )
                },
            }
        }),
{
    store.unindex(reserved_key);
    let bytes = {
        let entries = store.index().entries();
        proof {
            lemma_entries_view_lists(entries@);
        }
        match serialize_entries(entries) {
            Ok(b) => b,
            Err(_) => {
                return Err(KvError::SnapshotEncoding);
            },
        }
    };
    let r = store.insert(reserved_key, bytes.as_slice());
    match r {
        Ok(off) => Ok(off),
        Err(e) => Err(e),
    }
}

/// Reads the snapshot stored under `reserved_key` back into a list of entries.
/// `None` when the key is not indexed; the errors of `get` as they come; and
/// `SnapshotEncoding` when the stored bytes do not deserialise.
pub fn load_snapshot(store: &Store, reserved_key: &[u8]) -> (r: Result<
    Option<Vec<(Vec<u8>, u64)>>,
    KvError,
>)
    requires
        store.wf(),
    ensures
        match lookup(store.log_view(), store.index_view(), reserved_key@) {
            Err(e) => r == Err::<Option<Vec<(Vec<u8>, u64)>>, KvError>(e),
            Ok(None) => r matches Ok(None),
            Ok(Some(b)) => forall|s: Seq<(Seq<u8>, u64)>| #[trigger]
                snapshot_bytes(s) == b ==> snapshot_view(r) == Ok::<
                    Option<Seq<(Seq<u8>, u64)>>,
                    KvError,
                >(Some(s)),
        },
{
    match store.get(reserved_key) {
        Err(e) => Err(e),
        Ok(None) => Ok(None),
        Ok(Some(bytes)) => match deserialize_entries(bytes.as_slice()) {
            Ok(v) => Ok(Some(v)),
            Err(_) => Err(KvError::SnapshotEncoding),
        },
    }
}

/// Reading the reserved key back right after a snapshot was stored gives the
/// snapshot's bytes, which list the index as it was, less the reserved key.
pub proof fn lemma_snapshot_round_trip(
    log: Seq<u8>,
    index: Map<Seq<u8>, u64>,
    reserved_key: Seq<u8>,
    s: Seq<(Seq<u8>, u64)>,
)
    requires
        lists(s, index.remove(reserved_key)),
        fits(log.len() as int, reserved_key, Some(snapshot_bytes(s))),
    ensures
        ({
            let log2 = log + record_bytes(reserved_key, Some(snapshot_bytes(s)));
            let index2 = index.remove(reserved_key).insert(reserved_key, log.len() as u64);
            lookup(log2, index2, reserved_key) == Ok::<Option<Seq<u8>>, KvError>(
                Some(snapshot_bytes(s)),
            )
        }),
        pairs_map(s) == index.remove(reserved_key),
{
    let v = snapshot_bytes(s);
    lemma_parse_record(log, reserved_key, Some(v), Seq::empty());
    assert(log + record_bytes(reserved_key, Some(v)) + Seq::<u8>::empty() =~= log + record_bytes(
        reserved_key,
        Some(v),
    ));
}

} // verus!
