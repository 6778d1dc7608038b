//! The store: an append-only log of records and the index over it.

use vstd::prelude::*;
use crate::codec::{
    decode_record, decode_spec, encode, fits, payload, push_all, lemma_decode_appended, lemma_decode_extend,
    record_bytes, record_end, KeyValuePair, KvError, HEADER_LEN,
};
use crate::index::{bincode_pairs, lists_map, pairs_view, serialize_pairs, Index};
use crate::bytes::crc32_ieee;

verus! {

/// Replays the records of `log` from `pos` on, starting from the index `idx`:
/// each record maps its key to its offset, later records overriding earlier
/// ones. The log must end exactly where a record ends.
pub open spec fn replay_from(log: Seq<u8>, pos: int, idx: Map<Seq<u8>, u64>) -> Result<
    Map<Seq<u8>, u64>,
    KvError,
>
    decreases log.len() - pos,
{
    if pos < 0 || pos >= log.len() {
        Ok(idx)
    } else {
        match decode_spec(log, pos) {
            Ok(kv) => replay_from(log, record_end(log, pos), idx.insert(kv.0, pos as u64)),
            Err(e) => Err(e),
        }
    }
}

/// The index that a full replay of `log` builds.
pub open spec fn replay(log: Seq<u8>) -> Result<Map<Seq<u8>, u64>, KvError> {
    replay_from(log, 0, Map::empty())
}

/// The value that `index` makes current for `key` in `log`.
pub open spec fn lookup(log: Seq<u8>, index: Map<Seq<u8>, u64>, key: Seq<u8>) -> Option<Seq<u8>> {
    if index.contains_key(key) {
        match decode_spec(log, index[key] as int) {
            Ok(kv) => Some(kv.1),
            Err(_) => None,
        }
    } else {
        None
    }
}

/// Whether every entry of `index` points at a record of `log` that reads
/// back without error under that same key.
pub open spec fn index_points_into(log: Seq<u8>, index: Map<Seq<u8>, u64>) -> bool {
    forall|k: Seq<u8>| #[trigger]
        index.contains_key(k) ==> match decode_spec(log, index[k] as int) {
            Ok(kv) => kv.0 == k,
            Err(_) => false,
        }
}

/// A key-value store over one append-only log of records.
pub struct ActionKV {
    log: Vec<u8>,
    index: Index,
}

impl ActionKV {
    /// The bytes of the log.
    pub closed spec fn spec_log(&self) -> Seq<u8> {
        self.log@
    }

    /// The index: key to offset of its latest record.
    pub closed spec fn spec_index(&self) -> Map<Seq<u8>, u64> {
        self.index@
    }

    /// The index is well formed and each of its entries points at a valid
    /// record for its key.
    pub closed spec fn wf(&self) -> bool {
        &&& self.index.wf()
        &&& index_points_into(self.log@, self.index@)
    }

    /// Opens a store over the bytes of an existing log, with an empty index:
    /// `load` builds the index.
    pub fn open(log: Vec<u8>) -> (r: ActionKV)
        ensures
            r.wf(),
            r.spec_log() == log@,
            r.spec_index() == Map::<Seq<u8>, u64>::empty(),
    {
        ActionKV { log, index: Index::new() }
    }

    /// Rebuilds the index by replaying the whole log. Fails, leaving the store
    /// as it was, when a record is truncated or corrupt.
    pub fn load(&mut self) -> (r: Result<(), KvError>)
        requires
            old(self).wf(),
        ensures
            final(self).wf(),
            final(self).spec_log() == old(self).spec_log(),
            match r {
                Ok(()) => replay(old(self).spec_log()) == Ok::<Map<Seq<u8>, u64>, KvError>(
                    final(self).spec_index(),
                ),
                Err(e) => {
                    &&& replay(old(self).spec_log()) == Err::<Map<Seq<u8>, u64>, KvError>(e)
                    &&& final(self).spec_index() == old(self).spec_index()
                },
            },
    {
        let mut idx = Index::new();
        let mut pos: usize = 0;
        let len = self.log.len();
        while pos < len
            invariant
                self.wf(),
                len == self.log@.len(),
                pos <= len,
                idx.wf(),
                index_points_into(self.log@, idx@),
                replay_from(self.log@, pos as int, idx@) == replay(self.log@),
            decreases len - pos,
        {
            let kv = match decode_record(self.log.as_slice(), pos) {
                Ok(kv) => kv,
                Err(e) => {
                    return Err(e);
                },
            };
            let ghost before = idx@;
            idx.set(kv.key.as_slice(), pos as u64);
            assert(index_points_into(self.log@, idx@)) by {
                assert forall|k: Seq<u8>| #[trigger] idx@.contains_key(k) implies match decode_spec(
                    self.log@,
                    idx@[k] as int,
                ) {
                    Ok(kv) => kv.0 == k,
                    Err(_) => false,
                } by {
                    if k != kv.key@ {
                        assert(before.contains_key(k));
                    }
                }
            }
            pos = pos + HEADER_LEN + kv.key.len() + kv.value.len();
        }
        self.index = idx;
        Ok(())
    }

    /// The bytes of the log.
    pub fn log_bytes(&self) -> (r: &[u8])
        ensures
            r@ == self.spec_log(),
    {
        self.log.as_slice()
    }

    /// The offset that the index holds for `key`.
    pub fn offset_of(&self, key: &[u8]) -> (r: Option<u64>)
        requires
            self.wf(),
        ensures
            r == self.spec_index().get(key@),
    {
        self.index.get(key)
    }

    /// The offset at which the next record will start: the length of the log.
    pub fn seek_to_end(&self) -> (r: u64)
        ensures
            r as int == self.spec_log().len(),
    {
        self.log.len() as u64
    }

    /// The current value of `key`, or `None` when the index has no entry for it.
    pub fn get(&self, key: &[u8]) -> (r: Result<Option<Vec<u8>>, KvError>)
        requires
            self.wf(),
        ensures
            match r {
                Ok(Some(v)) => lookup(self.spec_log(), self.spec_index(), key@) == Some(v@),
                Ok(None) => lookup(self.spec_log(), self.spec_index(), key@) == None::<Seq<u8>>,
                Err(_) => false,
            },
            self.spec_index().contains_key(key@) <==> r matches Ok(Some(_)),
    {
        let position = match self.index.get(key) {
            None => return Ok(None),
            Some(position) => position,
        };
        let kv = self.get_at(position)?;
        Ok(Some(kv.value))
    }

    /// Reads the record that starts at `position`.
    pub fn get_at(&self, position: u64) -> (r: Result<KeyValuePair, KvError>)
        ensures
            crate::codec::decoded(r) == decode_spec(self.spec_log(), position as int),
    {
        if position > self.log.len() as u64 {
            return Err(KvError::Truncated);
        }
        decode_record(self.log.as_slice(), position as usize)
    }

    /// Appends a record for `key` and `value` without touching the index, and
    /// returns the offset at which it starts.
    pub fn insert_but_ignore_index(&mut self, key: &[u8], value: &[u8]) -> (r: u64)
        requires
            old(self).wf(),
            key@.len() <= u32::MAX,
            value@.len() <= u32::MAX,
            old(self).spec_log().len() + HEADER_LEN + key@.len() + value@.len() <= usize::MAX,
        ensures
            final(self).wf(),
            r as int == old(self).spec_log().len(),
            final(self).spec_log() == old(self).spec_log() + record_bytes(key@, value@),
            forall|pos: int|
                fits(old(self).spec_log(), pos) ==> #[trigger] decode_spec(final(self).spec_log(), pos)
                    == decode_spec(old(self).spec_log(), pos),
            decode_spec(final(self).spec_log(), r as int) == Ok::<(Seq<u8>, Seq<u8>), KvError>(
                (key@, value@),
            ),
            final(self).spec_index() == old(self).spec_index(),
    {
        let position = self.log.len() as u64;
        let record = encode(key, value);
        let ghost old_log = self.log@;
        push_all(&mut self.log, record.as_slice());
        proof {
            lemma_decode_appended(old_log, key@, value@);
            assert forall|pos: int| fits(old_log, pos) implies #[trigger] decode_spec(self.log@, pos)
                == decode_spec(old_log, pos) by {
                lemma_decode_extend(old_log, record@, pos);
            }
            assert forall|k: Seq<u8>| #[trigger] self.index@.contains_key(k) implies match decode_spec(
                self.log@,
                self.index@[k] as int,
            ) {
                Ok(kv) => kv.0 == k,
                Err(_) => false,
            } by {
                lemma_decode_extend(old_log, record@, self.index@[k] as int);
            }
        }
        position
    }

    /// Appends a record for `key` and `value` and points the index at it.
    /// Returns the offset of the new record.
    pub fn insert(&mut self, key: &[u8], value: &[u8]) -> (r: u64)
        requires
            old(self).wf(),
            key@.len() <= u32::MAX,
            value@.len() <= u32::MAX,
            old(self).spec_log().len() + HEADER_LEN + key@.len() + value@.len() <= usize::MAX,
        ensures
            final(self).wf(),
            r as int == old(self).spec_log().len(),
            final(self).spec_log() == old(self).spec_log() + record_bytes(key@, value@),
            forall|pos: int|
                fits(old(self).spec_log(), pos) ==> #[trigger] decode_spec(final(self).spec_log(), pos)
                    == decode_spec(old(self).spec_log(), pos),
            decode_spec(final(self).spec_log(), r as int) == Ok::<(Seq<u8>, Seq<u8>), KvError>(
                (key@, value@),
            ),
            lookup(final(self).spec_log(), final(self).spec_index(), key@) == Some(value@),
            final(self).spec_index() == old(self).spec_index().insert(key@, r),
    {
        let position = self.insert_but_ignore_index(key, value);
        self.index.set(key, position);
        position
    }

    /// The same as `insert`: a later record for a key supersedes earlier ones.
    pub fn update(&mut self, key: &[u8], value: &[u8]) -> (r: u64)
        requires
            old(self).wf(),
            key@.len() <= u32::MAX,
            value@.len() <= u32::MAX,
            old(self).spec_log().len() + HEADER_LEN + key@.len() + value@.len() <= usize::MAX,
        ensures
            final(self).wf(),
            r as int == old(self).spec_log().len(),
            final(self).spec_log() == old(self).spec_log() + record_bytes(key@, value@),
            forall|pos: int|
                fits(old(self).spec_log(), pos) ==> #[trigger] decode_spec(final(self).spec_log(), pos)
                    == decode_spec(old(self).spec_log(), pos),
            decode_spec(final(self).spec_log(), r as int) == Ok::<(Seq<u8>, Seq<u8>), KvError>(
                (key@, value@),
            ),
            lookup(final(self).spec_log(), final(self).spec_index(), key@) == Some(value@),
            final(self).spec_index() == old(self).spec_index().insert(key@, r),
    {
        self.insert(key, value)
    }

    /// Writes a tombstone for `key`: a record with an empty value. The key
    /// stays in the index and reads back as the empty value.
    pub fn delete(&mut self, key: &[u8]) -> (r: u64)
        requires
            old(self).wf(),
            key@.len() <= u32::MAX,
            old(self).spec_log().len() + HEADER_LEN + key@.len() <= usize::MAX,
        ensures
            final(self).wf(),
            r as int == old(self).spec_log().len(),
            final(self).spec_log() == old(self).spec_log() + record_bytes(key@, Seq::<u8>::empty()),
            forall|pos: int|
                fits(old(self).spec_log(), pos) ==> #[trigger] decode_spec(final(self).spec_log(), pos)
                    == decode_spec(old(self).spec_log(), pos),
            lookup(final(self).spec_log(), final(self).spec_index(), key@) == Some(
                Seq::<u8>::empty(),
            ),
            final(self).spec_index() == old(self).spec_index().insert(key@, r),
    {
        let empty: [u8; 0] = [];
        assert(empty@ =~= Seq::<u8>::empty());
        self.insert(key, &empty)
    }

    /// Writes a snapshot of the index into the log, as the value of
    /// `index_key`: the bincode encoding of every other entry of the index.
    /// The index then maps `index_key` to the snapshot record. Returns the
    /// record's offset, or `None`, leaving the store as it was, when the
    /// record would not fit: a value longer than `u32::MAX` bytes, or a log
    /// longer than `usize::MAX` bytes.
    pub fn store_index(&mut self, index_key: &[u8]) -> (r: Option<u64>)
        requires
            old(self).wf(),
            index_key@.len() <= u32::MAX,
        ensures
            final(self).wf(),
            match r {
                Some(off) => {
                    &&& off as int == old(self).spec_log().len()
                    &&& exists|snap: Seq<(Seq<u8>, u64)>|
                        {
                            &&& lists_map(snap, old(self).spec_index().remove(index_key@))
                            &&& final(self).spec_log() == old(self).spec_log() + record_bytes(
                                index_key@,
                                #[trigger] bincode_pairs(snap),
                            )
                        }
                    &&& final(self).spec_index() == old(self).spec_index().insert(index_key@, off)
                },
                None => {
                    &&& final(self).spec_log() == old(self).spec_log()
                    &&& final(self).spec_index() == old(self).spec_index()
                },
            },
            r is None ==> exists|snap: Seq<(Seq<u8>, u64)>|
                {
                    &&& lists_map(snap, old(self).spec_index().remove(index_key@))
                    &&& (#[trigger] bincode_pairs(snap)).len() > u32::MAX || old(
                        self,
                    ).spec_log().len() + HEADER_LEN + index_key@.len() + bincode_pairs(snap).len()
                        > usize::MAX
                },
    {
        let pairs = self.index.entries_without(index_key);
        let snapshot = match serialize_pairs(&pairs) {
            Some(b) => b,
            None => return None,
        };
        let ghost snap = pairs_view(pairs@);
        if snapshot.len() > u32::MAX as usize {
            assert(bincode_pairs(snap).len() > u32::MAX);
            return None;
        }
        let room = usize::MAX - self.log.len();
        if room < HEADER_LEN || room - HEADER_LEN < index_key.len() || room - HEADER_LEN
            - index_key.len() < snapshot.len() {
            assert(old(self).spec_log().len() + HEADER_LEN + index_key@.len() + bincode_pairs(snap).len()
                > usize::MAX);
            return None;
        }
        let off = self.insert(index_key, snapshot.as_slice());
        Some(off)
    }
}

/// The log and the index after the writes `writes` (key, value) are applied
/// in order by `insert` to a store with log `log` and index `idx`.
pub open spec fn apply_writes(
    log: Seq<u8>,
    idx: Map<Seq<u8>, u64>,
    writes: Seq<(Seq<u8>, Seq<u8>)>,
) -> (Seq<u8>, Map<Seq<u8>, u64>)
    decreases writes.len(),
{
    if writes.len() == 0 {
        (log, idx)
    } else {
        let prev = apply_writes(log, idx, writes.drop_last());
        let w = writes.last();
        (prev.0 + record_bytes(w.0, w.1), prev.1.insert(w.0, prev.0.len() as u64))
    }
}

/// Whether every key and value in `writes` fits the record header.
pub open spec fn writes_fit(writes: Seq<(Seq<u8>, Seq<u8>)>) -> bool {
    forall|i: int|
        0 <= i < writes.len() ==> #[trigger] writes[i].0.len() <= u32::MAX && writes[i].1.len()
            <= u32::MAX
}

/// After `insert(key, value)`, `get(key)` returns `value`.
pub proof fn lemma_insert_then_get(
    log: Seq<u8>,
    index: Map<Seq<u8>, u64>,
    key: Seq<u8>,
    value: Seq<u8>,
)
    requires
        key.len() <= u32::MAX,
        value.len() <= u32::MAX,
        log.len() <= u64::MAX,
    ensures
        lookup(log + record_bytes(key, value), index.insert(key, log.len() as u64), key) == Some(
            value,
        ),
{
    lemma_decode_appended(log, key, value);
}

/// After `insert(key, v1)` and `insert(key, v2)`, `get(key)` returns `v2`,
/// and both records are still in the log and read back as written.
pub proof fn lemma_overwrite(
    log: Seq<u8>,
    index: Map<Seq<u8>, u64>,
    key: Seq<u8>,
    v1: Seq<u8>,
    v2: Seq<u8>,
)
    requires
        key.len() <= u32::MAX,
        v1.len() <= u32::MAX,
        v2.len() <= u32::MAX,
        log.len() + record_bytes(key, v1).len() + record_bytes(key, v2).len() <= u64::MAX,
    ensures
        ({
            let log1 = log + record_bytes(key, v1);
            let log2 = log1 + record_bytes(key, v2);
            let idx2 = index.insert(key, log.len() as u64).insert(key, log1.len() as u64);
            &&& lookup(log2, idx2, key) == Some(v2)
            &&& decode_spec(log2, log.len() as int) == Ok::<(Seq<u8>, Seq<u8>), KvError>((key, v1))
            &&& decode_spec(log2, log1.len() as int) == Ok::<(Seq<u8>, Seq<u8>), KvError>((key, v2))
        }),
{
    let log1 = log + record_bytes(key, v1);
    lemma_decode_appended(log, key, v1);
    lemma_decode_appended(log1, key, v2);
    lemma_decode_extend(log1, record_bytes(key, v2), log.len() as int);
    lemma_insert_then_get(log1, index.insert(key, log.len() as u64), key, v2);
}

/// After `insert(key, value)` and `delete(key)`, `get(key)` returns the empty
/// value, not an absent one.
pub proof fn lemma_tombstone(
    log: Seq<u8>,
    index: Map<Seq<u8>, u64>,
    key: Seq<u8>,
    value: Seq<u8>,
)
    requires
        key.len() <= u32::MAX,
        value.len() <= u32::MAX,
        log.len() + record_bytes(key, value).len() + record_bytes(key, Seq::<u8>::empty()).len()
            <= u64::MAX,
    ensures
        ({
            let log1 = log + record_bytes(key, value);
            let log2 = log1 + record_bytes(key, Seq::<u8>::empty());
            let idx2 = index.insert(key, log.len() as u64).insert(key, log1.len() as u64);
            lookup(log2, idx2, key) == Some(Seq::<u8>::empty())
        }),
{
    lemma_overwrite(log, index, key, value, Seq::<u8>::empty());
}

/// Replaying from a record boundary of `log` over `log + extra` reaches the
/// end of `log` with the index that the replay of `log` alone gives.
proof fn lemma_replay_prefix(log: Seq<u8>, extra: Seq<u8>, pos: int, m: Map<Seq<u8>, u64>)
    requires
        0 <= pos <= log.len(),
        replay_from(log, pos, m) is Ok,
    ensures
        replay_from(log + extra, pos, m) == replay_from(
            log + extra,
            log.len() as int,
            replay_from(log, pos, m)->Ok_0,
        ),
    decreases log.len() - pos,
{
    if pos < log.len() {
        let kv = decode_spec(log, pos)->Ok_0;
        assert(fits(log, pos));
        lemma_decode_extend(log, extra, pos);
        let end = record_end(log, pos);
        lemma_replay_prefix(log, extra, end, m.insert(kv.0, pos as u64));
    }
}

/// Replaying a log that was replayed into `idx` and then had one record
/// appended gives `idx` with the record's key pointing at it.
pub proof fn lemma_replay_append(
    log: Seq<u8>,
    idx: Map<Seq<u8>, u64>,
    key: Seq<u8>,
    value: Seq<u8>,
)
    requires
        replay(log) == Ok::<Map<Seq<u8>, u64>, KvError>(idx),
        key.len() <= u32::MAX,
        value.len() <= u32::MAX,
        log.len() <= u64::MAX,
    ensures
        replay(log + record_bytes(key, value)) == Ok::<Map<Seq<u8>, u64>, KvError>(
            idx.insert(key, log.len() as u64),
        ),
{
    let rec = record_bytes(key, value);
    let all = log + rec;
    lemma_replay_prefix(log, rec, 0, Map::empty());
    lemma_decode_appended(log, key, value);
    let n = log.len() as int;
    assert(replay_from(all, n, idx) == replay_from(all, all.len() as int, idx.insert(key, n as u64)));
}

/// Writing records through `insert` and then replaying the whole log, as a
/// reopened store does on `load`, rebuilds exactly the index that the writes
/// built as they went.
pub proof fn lemma_replay_fidelity(
    log: Seq<u8>,
    idx: Map<Seq<u8>, u64>,
    writes: Seq<(Seq<u8>, Seq<u8>)>,
)
    requires
        replay(log) == Ok::<Map<Seq<u8>, u64>, KvError>(idx),
        writes_fit(writes),
        apply_writes(log, idx, writes).0.len() <= u64::MAX,
    ensures
        replay(apply_writes(log, idx, writes).0) == Ok::<Map<Seq<u8>, u64>, KvError>(
            apply_writes(log, idx, writes).1,
        ),
    decreases writes.len(),
{
    if writes.len() > 0 {
        let prefix = writes.drop_last();
        assert(writes_fit(prefix)) by {
            assert forall|i: int| 0 <= i < prefix.len() implies #[trigger] prefix[i].0.len()
                <= u32::MAX && prefix[i].1.len() <= u32::MAX by {
                assert(prefix[i] == writes[i]);
            }
        }
        let prev = apply_writes(log, idx, prefix);
        let w = writes.last();
        assert(w == writes[writes.len() - 1]);
        lemma_replay_fidelity(log, idx, prefix);
        lemma_replay_append(prev.0, prev.1, w.0, w.1);
    }
}

/// The log with bit `bit` of the byte at `at` flipped.
pub open spec fn flip_bit(log: Seq<u8>, at: int, bit: u8) -> Seq<u8> {
    log.update(at, log[at] ^ (1u8 << bit))
}

/// Flipping a bit inside the payload of a valid record changes the payload;
/// whenever the checksum tells the two payloads apart, reading the record
/// fails with `Corruption` instead of returning any value.
pub proof fn lemma_bit_flip_detected(log: Seq<u8>, pos: int, at: int, bit: u8)
    requires
        decode_spec(log, pos) is Ok,
        pos + HEADER_LEN <= at < record_end(log, pos),
        bit < 8,
        crc32_ieee(payload(flip_bit(log, at, bit), pos)) != crc32_ieee(payload(log, pos)),
    ensures
        payload(flip_bit(log, at, bit), pos) != payload(log, pos),
        decode_spec(flip_bit(log, at, bit), pos) == Err::<(Seq<u8>, Seq<u8>), KvError>(
            KvError::Corruption,
        ),
{
    let f = flip_bit(log, at, bit);
    let b = log[at];
    assert(b ^ (1u8 << bit) != b) by (bit_vector)
        requires
            bit < 8,
    ;
    assert(f.subrange(pos, pos + 4) =~= log.subrange(pos, pos + 4));
    assert(f.subrange(pos + 4, pos + 8) =~= log.subrange(pos + 4, pos + 8));
    assert(f.subrange(pos + 8, pos + 12) =~= log.subrange(pos + 8, pos + 12));
    assert(payload(f, pos)[at - pos - HEADER_LEN] != payload(log, pos)[at - pos - HEADER_LEN]);
}

/// The log built by the first `j` writes is a prefix of the log built by all
/// of them.
proof fn lemma_writes_prefix(
    log: Seq<u8>,
    idx: Map<Seq<u8>, u64>,
    writes: Seq<(Seq<u8>, Seq<u8>)>,
    j: int,
)
    requires
        0 <= j <= writes.len(),
    ensures
        apply_writes(log, idx, writes.take(j)).0.len() <= apply_writes(log, idx, writes).0.len(),
        apply_writes(log, idx, writes).0.subrange(0, apply_writes(log, idx, writes.take(j)).0.len() as int)
            == apply_writes(log, idx, writes.take(j)).0,
    decreases writes.len(),
{
    let full = apply_writes(log, idx, writes).0;
    if j == writes.len() {
        assert(writes.take(j) =~= writes);
        assert(full.subrange(0, full.len() as int) =~= full);
    } else {
        let prefix = writes.drop_last();
        assert(prefix.take(j) =~= writes.take(j));
        lemma_writes_prefix(log, idx, prefix, j);
        let prev = apply_writes(log, idx, prefix).0;
        let p = apply_writes(log, idx, writes.take(j)).0;
        assert(full.subrange(0, p.len() as int) =~= prev.subrange(0, p.len() as int));
    }
}

/// A log written by `insert` from empty, with one bit flipped inside the
/// payload of any of its records, fails to load with `Corruption` whenever
/// the checksum tells the damaged payload from the original: the damaged
/// record is detected, never skipped.
pub proof fn lemma_load_detects_bit_flip(writes: Seq<(Seq<u8>, Seq<u8>)>, j: int, at: int, bit: u8)
    requires
        writes_fit(writes),
        apply_writes(Seq::empty(), Map::empty(), writes).0.len() <= u64::MAX,
        0 <= j < writes.len(),
        ({
            let start = apply_writes(Seq::empty(), Map::empty(), writes.take(j)).0.len() as int;
            let full = apply_writes(Seq::empty(), Map::empty(), writes).0;
            &&& start + HEADER_LEN <= at < start + record_bytes(writes[j].0, writes[j].1).len()
            &&& bit < 8
            &&& crc32_ieee(payload(flip_bit(full, at, bit), start)) != crc32_ieee(
                payload(full, start),
            )
        }),
    ensures
        replay(flip_bit(apply_writes(Seq::empty(), Map::empty(), writes).0, at, bit)) == Err::<
            Map<Seq<u8>, u64>,
            KvError,
        >(KvError::Corruption),
{
    let e = Seq::<u8>::empty();
    let m = Map::<Seq<u8>, u64>::empty();
    let full = apply_writes(e, m, writes).0;
    let pre = apply_writes(e, m, writes.take(j));
    let pre1 = apply_writes(e, m, writes.take(j + 1)).0;
    let start = pre.0.len() as int;
    let w = writes[j];
    assert(writes.take(j + 1).drop_last() =~= writes.take(j));
    assert(writes.take(j + 1).last() == w);
    assert(pre1 == pre.0 + record_bytes(w.0, w.1));
    assert(w.0.len() <= u32::MAX && w.1.len() <= u32::MAX);
    lemma_writes_prefix(e, m, writes, j + 1);
    lemma_writes_prefix(e, m, writes, j);
    // the record for write `j` starts at `start`
    lemma_decode_appended(pre.0, w.0, w.1);
    let rest = full.subrange(pre1.len() as int, full.len() as int);
    assert(full =~= pre1 + rest);
    lemma_decode_extend(pre1, rest, start);
    lemma_bit_flip_detected(full, start, at, bit);
    // replay reaches `start` unharmed: the flip lies after it
    let flipped = flip_bit(full, at, bit);
    let tail = flipped.subrange(start, flipped.len() as int);
    assert(flipped =~= pre.0 + tail);
    assert(writes_fit(writes.take(j))) by {
        assert forall|i: int| 0 <= i < writes.take(j).len() implies #[trigger] writes.take(j)[i].0.len()
            <= u32::MAX && writes.take(j)[i].1.len() <= u32::MAX by {
            assert(writes.take(j)[i] == writes[i]);
        }
    }
    assert(replay(e) == Ok::<Map<Seq<u8>, u64>, KvError>(m));
    lemma_replay_fidelity(e, m, writes.take(j));
    lemma_replay_prefix(pre.0, tail, 0, m);
}

} // verus!
