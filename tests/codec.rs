use actionkv::codec::{
    decode_record, encode, frame_record, parse_header, verify_record, RecordHeader,
};
use actionkv::KvError;

#[test]
fn encode_exact_bytes() {
    let rec = encode(b"a", b"1");
    // CRC-32 of "a1" is 0x6ce14823, stored least significant byte first
    assert_eq!(rec, vec![0x23, 0x48, 0xe1, 0x6c, 1, 0, 0, 0, 1, 0, 0, 0, b'a', b'1']);
}

#[test]
fn frame_record_little_endian_header() {
    let rec = frame_record(0x0102_0304, b"key", b"");
    assert_eq!(rec, vec![4, 3, 2, 1, 3, 0, 0, 0, 0, 0, 0, 0, b'k', b'e', b'y']);
}

#[test]
fn decode_round_trip() {
    let mut log = encode(b"first", b"one");
    let second_at = log.len();
    log.extend_from_slice(&encode(b"second", &[0u8, 255, 7]));
    let kv = decode_record(&log, 0).unwrap();
    assert_eq!(kv.key, b"first".to_vec());
    assert_eq!(kv.value, b"one".to_vec());
    let kv = decode_record(&log, second_at).unwrap();
    assert_eq!(kv.key, b"second".to_vec());
    assert_eq!(kv.value, vec![0u8, 255, 7]);
}

#[test]
fn decode_truncated() {
    let rec = encode(b"k", b"value");
    assert!(matches!(decode_record(&rec[..rec.len() - 1], 0), Err(KvError::Truncated)));
    assert!(matches!(decode_record(&rec[..5], 0), Err(KvError::Truncated)));
    assert!(matches!(decode_record(&rec, rec.len()), Err(KvError::Truncated)));
    assert!(matches!(decode_record(&[], 0), Err(KvError::Truncated)));
}

#[test]
fn decode_corruption() {
    let mut rec = encode(b"k", b"value");
    rec[14] ^= 0x10;
    assert!(matches!(decode_record(&rec, 0), Err(KvError::Corruption)));
}

#[test]
fn header_then_verify() {
    let rec = encode(b"ab", b"xyz");
    let h = parse_header(&rec, 0).unwrap();
    assert_eq!(h, RecordHeader { checksum: h.checksum, key_len: 2, value_len: 3 });
    assert!(matches!(verify_record(&rec, 0, h, h.checksum ^ 1), Err(KvError::Corruption)));
    let kv = verify_record(&rec, 0, h, h.checksum).unwrap();
    assert_eq!(kv.key, b"ab".to_vec());
    assert_eq!(kv.value, b"xyz".to_vec());
}
