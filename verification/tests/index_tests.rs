//! Tests of the key index and its snapshot iterators.

use kv::index::BTreeIndex;
use kv::records::LogRecordPtr;

#[test]
fn test_iter() {
    let mut index = BTreeIndex::new();
    let mut iter = index.iter_snapshot().make();

    iter.find(b"aa".to_vec());
    assert_eq!(iter.next(), None);

    index.put(b"key".to_vec(), LogRecordPtr { file_id: 0, offset: 0 });
    let mut iter = index.iter_snapshot().make();
    let next = iter.next();
    assert!(next.is_some());

    index.put(b"vkey".to_vec(), LogRecordPtr { file_id: 0, offset: 0 });
    let mut iter = index.iter_snapshot().make();

    iter.find(b"nobody".to_vec()); // between key and vkey
    let next = iter.next();
    assert_eq!(next.unwrap().0, b"vkey".to_vec());

    iter.find(b"key".to_vec());
    let next = iter.next();
    assert_eq!(next.unwrap().0, b"key".to_vec());

    iter.find(b"alpha".to_vec()); // before key
    let next = iter.next();
    assert_eq!(next.unwrap().0, b"key".to_vec());

    iter.find(b"zeno".to_vec()); // after vkey
    let next = iter.next();
    assert!(next.is_none());
}

#[test]
fn test_rev_iter() {
    let mut index = BTreeIndex::new();

    for i in 0..5 {
        let key = format!("{}key{}", if i % 2 == 0 { "even" } else { "odd" }, i).into_bytes();
        index.put(key, LogRecordPtr { file_id: 0, offset: 0 });
    }
    let mut iter = index.iter_snapshot().rev().make();
    assert_eq!(iter.next().unwrap().0, b"oddkey3".to_vec());
    assert_eq!(iter.next().unwrap().0, b"oddkey1".to_vec());
    assert_eq!(iter.next().unwrap().0, b"evenkey4".to_vec());
    assert_eq!(iter.next().unwrap().0, b"evenkey2".to_vec());
    assert_eq!(iter.next().unwrap().0, b"evenkey0".to_vec());
    assert!(iter.next().is_none());

    let mut iter = index.iter_snapshot().with_prefix(b"evenkey".to_vec()).make();
    assert_eq!(iter.next().unwrap().0, b"evenkey0".to_vec());
    assert_eq!(iter.next().unwrap().0, b"evenkey2".to_vec());
    assert_eq!(iter.next().unwrap().0, b"evenkey4".to_vec());
    assert!(iter.next().is_none());
}

#[test]
fn test_index_previous_values() {
    let mut index = BTreeIndex::new();
    assert_eq!(index.put(b"k".to_vec(), LogRecordPtr { file_id: 0, offset: 7 }), None);
    assert_eq!(
        index.put(b"k".to_vec(), LogRecordPtr { file_id: 1, offset: 9 }),
        Some(LogRecordPtr { file_id: 0, offset: 7 })
    );
    assert_eq!(index.get(b"k".to_vec()), Some(LogRecordPtr { file_id: 1, offset: 9 }));
    assert_eq!(index.delete(b"k".to_vec()), Some(LogRecordPtr { file_id: 1, offset: 9 }));
    assert_eq!(index.delete(b"k".to_vec()), None);
    assert_eq!(index.get(b"k".to_vec()), None);

    let copy_source = {
        let mut ix = BTreeIndex::new();
        ix.put(b"a".to_vec(), LogRecordPtr { file_id: 0, offset: 1 });
        ix.put(b"b".to_vec(), LogRecordPtr { file_id: 0, offset: 2 });
        ix
    };
    let mut copied = copy_source.deepcopy();
    copied.delete(b"a".to_vec());
    assert_eq!(copy_source.get(b"a".to_vec()), Some(LogRecordPtr { file_id: 0, offset: 1 }));
    assert_eq!(copied.get(b"a".to_vec()), None);
}
