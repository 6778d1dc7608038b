//! The on-disk record: a 12-byte header (checksum, key length, value length,
//! each a little-endian `u32`) followed by the key and the value. The checksum
//! covers the key and value bytes only.

use vstd::prelude::*;
use crate::bytes::{
    checksum_ieee, crc32_ieee, le_u32, lemma_le_round_trip, read_u32_le, u32_le, write_u32_le,
};

verus! {

/// Arbitrary binary data used like a string: keys and values.
pub type ByteString = Vec<u8>;

/// A borrowed `ByteString`; not necessarily valid UTF-8.
pub type ByteStr = [u8];

/// Length of the fixed header in front of every record.
pub const HEADER_LEN: usize = 12;

/// A key and its value, both arbitrary bytes.
#[derive(Debug)]
pub struct KeyValuePair {
    pub key: Vec<u8>,
    pub value: Vec<u8>,
}

impl View for KeyValuePair {
    type V = (Seq<u8>, Seq<u8>);

    open spec fn view(&self) -> (Seq<u8>, Seq<u8>) {
        (self.key@, self.value@)
    }
}

/// Why a record could not be read.
#[derive(Debug, Clone, Copy, PartialEq, Eq, Structural)]
pub enum KvError {
    /// The data ends before the record does.
    Truncated,
    /// The record is complete but its checksum does not match its payload.
    Corruption,
}

/// The fixed-width header of a record.
#[derive(Debug, Clone, Copy, PartialEq, Eq, Structural)]
pub struct RecordHeader {
    pub checksum: u32,
    pub key_len: u32,
    pub value_len: u32,
}

/// The bytes of a record that stores `checksum` in its header.
pub open spec fn frame(checksum: u32, key: Seq<u8>, value: Seq<u8>) -> Seq<u8> {
    u32_le(checksum) + u32_le(key.len() as u32) + u32_le(value.len() as u32) + key + value
}

/// The bytes of a well-formed record for `key` and `value`.
pub open spec fn record_bytes(key: Seq<u8>, value: Seq<u8>) -> Seq<u8> {
    frame(crc32_ieee(key + value), key, value)
}

/// Header field `i` (0: checksum, 1: key length, 2: value length) of the record at `pos`.
pub open spec fn field(log: Seq<u8>, pos: int, i: int) -> int {
    le_u32(log.subrange(pos + 4 * i, pos + 4 * i + 4))
}

/// Where the record at `pos` ends, as its header declares.
pub open spec fn record_end(log: Seq<u8>, pos: int) -> int {
    pos + HEADER_LEN + field(log, pos, 1) + field(log, pos, 2)
}

/// Whether the record at `pos` lies wholly inside `log`.
pub open spec fn fits(log: Seq<u8>, pos: int) -> bool {
    &&& 0 <= pos
    &&& pos + HEADER_LEN <= log.len()
    &&& record_end(log, pos) <= log.len()
}

/// The key and value bytes of the record at `pos`.
pub open spec fn payload(log: Seq<u8>, pos: int) -> Seq<u8> {
    log.subrange(pos + HEADER_LEN, record_end(log, pos))
}

/// The result of reading the record that starts at `pos` in `log`.
pub open spec fn decode_spec(log: Seq<u8>, pos: int) -> Result<(Seq<u8>, Seq<u8>), KvError> {
    if !fits(log, pos) {
        Err(KvError::Truncated)
    } else if crc32_ieee(payload(log, pos)) as int != field(log, pos, 0) {
        Err(KvError::Corruption)
    } else {
        let kl = field(log, pos, 1);
        Ok((payload(log, pos).take(kl), payload(log, pos).skip(kl)))
    }
}

/// Appends `src` to `out`.
pub(crate) fn push_all(out: &mut Vec<u8>, src: &[u8])
    ensures
        final(out)@ == old(out)@ + src@,
{
    let mut i: usize = 0;
    while i < src.len()
        invariant
            i <= src@.len(),
            out@ == old(out)@ + src@.take(i as int),
        decreases src@.len() - i,
    {
        out.push(src[i]);
        i = i + 1;
        assert(src@.take(i as int) == src@.take(i - 1) + seq![src@[i - 1]]);
    }
    assert(src@.take(src@.len() as int) == src@);
}

/// The bytes of a record for `key` and `value` whose header stores `checksum`.
pub fn frame_record(checksum: u32, key: &[u8], value: &[u8]) -> (r: Vec<u8>)
    requires
        key@.len() <= u32::MAX,
        value@.len() <= u32::MAX,
    ensures
        r@ == frame(checksum, key@, value@),
{
    let mut out: Vec<u8> = Vec::new();
    push_all(&mut out, &write_u32_le(checksum));
    push_all(&mut out, &write_u32_le(key.len() as u32));
    push_all(&mut out, &write_u32_le(value.len() as u32));
    push_all(&mut out, key);
    push_all(&mut out, value);
    out
}

/// Encodes one record: header, then key, then value.
pub fn encode(key: &[u8], value: &[u8]) -> (r: Vec<u8>)
    requires
        key@.len() <= u32::MAX,
        value@.len() <= u32::MAX,
    ensures
        r@ == record_bytes(key@, value@),
{
    let mut data: Vec<u8> = Vec::new();
    push_all(&mut data, key);
    push_all(&mut data, value);
    let checksum = checksum_ieee(data.as_slice());
    frame_record(checksum, key, value)
}

/// The result of a read, seen as key and value bytes.
pub open spec fn decoded(r: Result<KeyValuePair, KvError>) -> Result<(Seq<u8>, Seq<u8>), KvError> {
    match r {
        Ok(kv) => Ok(kv@),
        Err(e) => Err(e),
    }
}

/// Whether `h` holds the header fields of the record at `pos`.
pub open spec fn header_of(buf: Seq<u8>, pos: int, h: RecordHeader) -> bool {
    &&& h.checksum as int == field(buf, pos, 0)
    &&& h.key_len as int == field(buf, pos, 1)
    &&& h.value_len as int == field(buf, pos, 2)
}

/// Reads the header of the record at `pos`, and checks that the whole record
/// lies inside `buf`.
pub fn parse_header(buf: &[u8], pos: usize) -> (r: Result<RecordHeader, KvError>)
    ensures
        match r {
            Ok(h) => fits(buf@, pos as int) && header_of(buf@, pos as int, h),
            Err(e) => !fits(buf@, pos as int) && e == KvError::Truncated,
        },
{
    if buf.len() < HEADER_LEN || pos > buf.len() - HEADER_LEN {
        return Err(KvError::Truncated);
    }
    let checksum = read_u32_le(&buf[pos..pos + 4]);
    let key_len = read_u32_le(&buf[pos + 4..pos + 8]);
    let value_len = read_u32_le(&buf[pos + 8..pos + 12]);
    let rest = buf.len() - pos - HEADER_LEN;
    if key_len as usize > rest || value_len as usize > rest - key_len as usize {
        return Err(KvError::Truncated);
    }
    Ok(RecordHeader { checksum, key_len, value_len })
}

/// Finishes reading the record at `pos`, given `actual`, the checksum of its
/// payload: a mismatch with the stored checksum is corruption; otherwise the
/// payload splits into the key and the value.
pub fn verify_record(buf: &[u8], pos: usize, header: RecordHeader, actual: u32) -> (r: Result<
    KeyValuePair,
    KvError,
>)
    requires
        fits(buf@, pos as int),
        header_of(buf@, pos as int, header),
    ensures
        match r {
            Ok(kv) => {
                &&& actual == header.checksum
                &&& kv@ == (
                    payload(buf@, pos as int).take(header.key_len as int),
                    payload(buf@, pos as int).skip(header.key_len as int),
                )
            },
            Err(e) => actual != header.checksum && e == KvError::Corruption,
        },
{
    if actual != header.checksum {
        return Err(KvError::Corruption);
    }
    let len = buf.len();
    assert(pos + HEADER_LEN + header.key_len + header.value_len <= len);
    let start = pos + HEADER_LEN;
    let mid = start + header.key_len as usize;
    let end = mid + header.value_len as usize;
    let key = vstd::slice::slice_to_vec(&buf[start..mid]);
    let value = vstd::slice::slice_to_vec(&buf[mid..end]);
    proof {
        let p = payload(buf@, pos as int);
        assert(key@ =~= p.take(header.key_len as int));
        assert(value@ =~= p.skip(header.key_len as int));
    }
    Ok(KeyValuePair { key, value })
}

/// Reads the record that starts at `pos` in `buf`.
pub fn decode_record(buf: &[u8], pos: usize) -> (r: Result<KeyValuePair, KvError>)
    ensures
        decoded(r) == decode_spec(buf@, pos as int),
{
    let header = parse_header(buf, pos)?;
    let len = buf.len();
    assert(pos + HEADER_LEN + header.key_len + header.value_len <= len);
    let start = pos + HEADER_LEN;
    let end = start + header.key_len as usize + header.value_len as usize;
    let actual = checksum_ieee(&buf[start..end]);
    verify_record(buf, pos, header, actual)
}

/// A record appended to a log reads back, at the offset where it starts, as
/// the key and value it was written from.
pub proof fn lemma_decode_appended(log: Seq<u8>, key: Seq<u8>, value: Seq<u8>)
    requires
        key.len() <= u32::MAX,
        value.len() <= u32::MAX,
    ensures
        fits(log + record_bytes(key, value), log.len() as int),
        record_end(log + record_bytes(key, value), log.len() as int) == log.len()
            + record_bytes(key, value).len(),
        decode_spec(log + record_bytes(key, value), log.len() as int) == Ok::<
            (Seq<u8>, Seq<u8>),
            KvError,
        >((key, value)),
{
    let rec = record_bytes(key, value);
    let all = log + rec;
    let n = log.len() as int;
    let c = crc32_ieee(key + value);
    lemma_le_round_trip(c);
    lemma_le_round_trip(key.len() as u32);
    lemma_le_round_trip(value.len() as u32);
    assert(all.subrange(n, n + 4) =~= u32_le(c));
    assert(all.subrange(n + 4, n + 8) =~= u32_le(key.len() as u32));
    assert(all.subrange(n + 8, n + 12) =~= u32_le(value.len() as u32));
    assert(field(all, n, 0) == c as int);
    assert(field(all, n, 1) == key.len());
    assert(field(all, n, 2) == value.len());
    assert(payload(all, n) =~= key + value);
    assert(payload(all, n).take(key.len() as int) =~= key);
    assert(payload(all, n).skip(key.len() as int) =~= value);
}

/// Appending bytes after a complete record does not change how it reads.
pub proof fn lemma_decode_extend(log: Seq<u8>, extra: Seq<u8>, pos: int)
    requires
        fits(log, pos),
    ensures
        fits(log + extra, pos),
        record_end(log + extra, pos) == record_end(log, pos),
        decode_spec(log + extra, pos) == decode_spec(log, pos),
{
    let all = log + extra;
    assert(all.subrange(pos, pos + 4) =~= log.subrange(pos, pos + 4));
    assert(all.subrange(pos + 4, pos + 8) =~= log.subrange(pos + 4, pos + 8));
    assert(all.subrange(pos + 8, pos + 12) =~= log.subrange(pos + 8, pos + 12));
    assert(payload(all, pos) =~= payload(log, pos));
}

} // verus!
