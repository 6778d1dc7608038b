use actionkv::index::Index;
use actionkv::{ActionKV, KvError};

fn loaded(log: Vec<u8>) -> ActionKV {
    let mut store = ActionKV::open(log);
    store.load().unwrap();
    store
}

#[test]
fn concrete_scenario() {
    let mut store = loaded(Vec::new());
    assert_eq!(store.insert(b"a", b"1"), 0);
    assert_eq!(store.insert(b"b", b"22"), 14);
    assert_eq!(store.get(b"a").unwrap(), Some(b"1".to_vec()));
    // "b" and "22" make a 15-byte record, so the third record starts at 14 + 15
    assert_eq!(store.update(b"a", b"111"), 29);
    assert_eq!(store.get(b"a").unwrap(), Some(b"111".to_vec()));
    assert_eq!(store.delete(b"b"), 45);
    assert_eq!(store.get(b"b").unwrap(), Some(Vec::new()));
    assert_eq!(store.seek_to_end(), 58);
}

#[test]
fn round_trip() {
    let mut store = loaded(Vec::new());
    let key = vec![0u8, 1, 2, 255];
    let value: Vec<u8> = (0..300u32).map(|i| (i % 251) as u8).collect();
    store.insert(&key, &value);
    assert_eq!(store.get(&key).unwrap(), Some(value));
    assert_eq!(store.get(b"missing").unwrap(), None);
}

#[test]
fn overwrite_keeps_both_records() {
    let mut store = loaded(Vec::new());
    let first = store.insert(b"k", b"v1");
    let second = store.insert(b"k", b"v2");
    assert_eq!(store.get(b"k").unwrap(), Some(b"v2".to_vec()));
    let old = store.get_at(first).unwrap();
    assert_eq!((old.key, old.value), (b"k".to_vec(), b"v1".to_vec()));
    let new = store.get_at(second).unwrap();
    assert_eq!((new.key, new.value), (b"k".to_vec(), b"v2".to_vec()));
}

#[test]
fn tombstone_reads_as_empty() {
    let mut store = loaded(Vec::new());
    store.insert(b"k", b"value");
    store.delete(b"k");
    assert_eq!(store.get(b"k").unwrap(), Some(Vec::new()));
}

#[test]
fn offset_stability() {
    let mut store = loaded(Vec::new());
    store.insert(b"x", b"filler");
    let off = store.insert(b"key", b"value");
    let kv = store.get_at(off).unwrap();
    assert_eq!(kv.key, b"key".to_vec());
    assert_eq!(kv.value, b"value".to_vec());
    assert!(matches!(store.get_at(off + 1), Err(_)));
    assert!(matches!(store.get_at(u64::MAX), Err(KvError::Truncated)));
}

#[test]
fn replay_fidelity() {
    let mut store = loaded(Vec::new());
    let keys: [&[u8]; 4] = [b"alpha", b"beta", b"gamma", b""];
    for round in 0..5u8 {
        for (i, k) in keys.iter().enumerate() {
            if (round as usize + i) % 3 != 0 {
                store.insert(k, &[round, i as u8]);
            }
        }
    }
    let reopened = loaded(store.log_bytes().to_vec());
    for k in keys.iter() {
        assert_eq!(reopened.offset_of(k), store.offset_of(k));
        assert_eq!(reopened.get(k).unwrap(), store.get(k).unwrap());
    }
    assert_eq!(reopened.offset_of(b"absent"), None);
}

#[test]
fn open_does_not_replay() {
    let mut store = loaded(Vec::new());
    store.insert(b"k", b"v");
    let reopened = ActionKV::open(store.log_bytes().to_vec());
    assert_eq!(reopened.get(b"k").unwrap(), None);
}

#[test]
fn corruption_detected_on_read_and_load() {
    let mut store = loaded(Vec::new());
    store.insert(b"a", b"1");
    let off = store.insert(b"key", b"value");
    for bit in 0..8u8 {
        let mut bytes = store.log_bytes().to_vec();
        bytes[off as usize + 12 + 4] ^= 1 << bit;
        let damaged = ActionKV::open(bytes);
        assert!(matches!(damaged.get_at(off), Err(KvError::Corruption)));
        let mut damaged = damaged;
        assert!(matches!(damaged.load(), Err(KvError::Corruption)));
        assert_eq!(damaged.get(b"a").unwrap(), None);
    }
}

#[test]
fn truncated_tail_fails_load() {
    let mut store = loaded(Vec::new());
    store.insert(b"a", b"1");
    store.insert(b"b", b"2");
    let bytes = store.log_bytes().to_vec();
    let mut cut = ActionKV::open(bytes[..bytes.len() - 1].to_vec());
    assert!(matches!(cut.load(), Err(KvError::Truncated)));
    let mut header_only = ActionKV::open(bytes[..14 + 5].to_vec());
    assert!(matches!(header_only.load(), Err(KvError::Truncated)));
}

#[test]
fn insert_but_ignore_index_leaves_index() {
    let mut store = loaded(Vec::new());
    let off = store.insert_but_ignore_index(b"k", b"v");
    assert_eq!(off, 0);
    assert_eq!(store.get(b"k").unwrap(), None);
    assert_eq!(store.get_at(0).unwrap().value, b"v".to_vec());
}

#[test]
fn store_index_snapshot() {
    let mut store = loaded(Vec::new());
    store.insert(b"a", b"1");
    let first = store.store_index(b"+index").unwrap();
    assert_eq!(first, 14);
    let snap = store.get(b"+index").unwrap().unwrap();
    // one pair: count, key length, key, offset, each integer a u64
    let mut expected = vec![1u8, 0, 0, 0, 0, 0, 0, 0, 1, 0, 0, 0, 0, 0, 0, 0, b'a'];
    expected.extend_from_slice(&[0u8; 8]);
    assert_eq!(snap, expected);
    // a second snapshot leaves out the first one
    let second = store.store_index(b"+index").unwrap();
    assert_eq!(store.get(b"+index").unwrap().unwrap(), expected);
    assert_eq!(store.offset_of(b"+index"), Some(second));
    assert_eq!(store.get(b"a").unwrap(), Some(b"1".to_vec()));
}

#[test]
fn index_set_get_remove() {
    let mut idx = Index::new();
    assert_eq!(idx.get(b"k"), None);
    idx.set(b"k", 5);
    idx.set(b"j", 9);
    idx.set(b"k", 7);
    assert_eq!(idx.get(b"k"), Some(7));
    assert_eq!(idx.get(b"j"), Some(9));
    let rest = idx.entries_without(b"k");
    assert_eq!(rest, vec![(b"j".to_vec(), 9u64)]);
    idx.remove(b"k");
    assert_eq!(idx.get(b"k"), None);
    assert_eq!(idx.get(b"j"), Some(9));
}
