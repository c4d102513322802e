//! Tests of the lock-free skip-list index: map behaviour, ordered
//! snapshots, and deep copies.

use kv::records::LogRecordPtr;
use kv::skiplist::SkiplistIndex;

fn ptr(file_id: u32, offset: u64) -> LogRecordPtr {
    LogRecordPtr { file_id, offset }
}

#[test]
fn test_skiplist_map_behaviour() {
    let mut index = SkiplistIndex::new();
    assert_eq!(index.get(b"k".to_vec()), None);
    assert_eq!(index.put(b"k".to_vec(), ptr(0, 7)), None);
    assert_eq!(index.get(b"k".to_vec()), Some(ptr(0, 7)));
    assert_eq!(index.put(b"k".to_vec(), ptr(1, 9)), Some(ptr(0, 7)));
    assert_eq!(index.get(b"k".to_vec()), Some(ptr(1, 9)));
    assert_eq!(index.delete(b"k".to_vec()), Some(ptr(1, 9)));
    assert_eq!(index.delete(b"k".to_vec()), None);
    assert_eq!(index.get(b"k".to_vec()), None);
}

#[test]
fn test_skiplist_snapshot_order() {
    let mut index = SkiplistIndex::new();
    for (i, key) in [&b"oddkey3"[..], b"evenkey0", b"zz", b"evenkey4", b"a"]
        .iter()
        .enumerate()
    {
        index.put(key.to_vec(), ptr(0, i as u64));
    }
    let mut iter = index.iter_snapshot().make();
    assert_eq!(iter.next().unwrap().0, b"a".to_vec());
    assert_eq!(iter.next().unwrap().0, b"evenkey0".to_vec());
    assert_eq!(iter.next().unwrap().0, b"evenkey4".to_vec());
    assert_eq!(iter.next().unwrap().0, b"oddkey3".to_vec());
    assert_eq!(iter.next().unwrap().0, b"zz".to_vec());
    assert!(iter.next().is_none());

    let mut iter = index.iter_snapshot().with_prefix(b"evenkey".to_vec()).rev().make();
    assert_eq!(iter.next().unwrap().0, b"evenkey4".to_vec());
    assert_eq!(iter.next().unwrap().0, b"evenkey0".to_vec());
    assert!(iter.next().is_none());
}

#[test]
fn test_skiplist_deepcopy() {
    let mut index = SkiplistIndex::new();
    index.put(b"a".to_vec(), ptr(0, 1));
    index.put(b"b".to_vec(), ptr(0, 2));
    let mut copied = index.deepcopy();
    copied.delete(b"a".to_vec());
    assert_eq!(index.get(b"a".to_vec()), Some(ptr(0, 1)));
    assert_eq!(copied.get(b"a".to_vec()), None);
    assert_eq!(copied.get(b"b".to_vec()), Some(ptr(0, 2)));
}
