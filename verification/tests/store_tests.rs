//! End-to-end tests of the store: point operations, ordered listing,
//! batched writes, persistence across reopen, and compaction.

use kv::batched::BatchedWrite;
use kv::config::{BatchedConfig, FileConfig, StoreConfig};
use kv::errors::Errors;
use kv::index::IndexType;
use kv::store::Store;

fn small_config() -> (StoreConfig, FileConfig, BatchedConfig) {
    (
        StoreConfig {
            dir: b"store".to_vec(),
            sync_every_write: false,
            index_type: IndexType::BTree,
        },
        FileConfig { max_file_size: 1024 * 1024 },
        BatchedConfig { max_batch_size: 10000, sync_every_write: false },
    )
}

fn fresh_store() -> Store {
    let (s, f, b) = small_config();
    Store::open(s, f, b, Vec::new()).unwrap()
}

fn reopen(store: &Store) -> Store {
    let (s, f, b) = small_config();
    Store::open(s, f, b, store.export_segments()).unwrap()
}

#[test]
fn test_put() {
    let mut store = fresh_store();

    store.put(b"1".to_vec(), b"One".to_vec()).unwrap();
    store.put(b"2".to_vec(), b"Two".to_vec()).unwrap();
    store.put(b"1".to_vec(), b"Uno".to_vec()).unwrap();

    let uno = store.get(b"1".to_vec()).unwrap();
    assert_eq!(uno.as_slice(), b"Uno");
    let two = store.get(b"2".to_vec()).unwrap();
    assert_eq!(two.as_slice(), b"Two");

    store.put(b"2".to_vec(), b"Er".to_vec()).unwrap();
    let two = store.get(b"2".to_vec()).unwrap();
    assert_eq!(two.as_slice(), b"Er");
}

#[test]
fn test_empty_key() {
    let mut store = fresh_store();

    let res = store.put(b"".to_vec(), b"One".to_vec());
    assert_eq!(res.unwrap_err(), Errors::KeyIsEmpty);

    let res = store.put(b"111".to_vec(), b"Oneoneone".to_vec());
    assert!(res.is_ok());
    let res = store.get(b"111".to_vec());
    assert_eq!(res.unwrap().as_slice(), b"Oneoneone");

    let res = store.get(b"".to_vec());
    assert_eq!(res.unwrap_err(), Errors::KeyIsEmpty);
    let res = store.delete(b"".to_vec());
    assert_eq!(res.unwrap_err(), Errors::KeyIsEmpty);
}

#[test]
fn test_del_put() {
    let mut store = fresh_store();

    let _ = store.put(b"111".to_vec(), b"Oneoneone".to_vec());

    let res = store.get(b"111".to_vec());
    assert_eq!(res.unwrap().as_slice(), b"Oneoneone");

    let res = store.delete(b"111".to_vec());
    assert!(res.is_ok());
    let res = store.get(b"111".to_vec());
    assert_eq!(res.unwrap_err(), Errors::KeyNotFound);

    let res = store.put(b"111".to_vec(), b"Yiyiyi".to_vec());
    assert!(res.is_ok());
    let res = store.get(b"111".to_vec());
    assert_eq!(res.unwrap().as_slice(), b"Yiyiyi");
}

#[test]
fn test_list_key() {
    let mut store = fresh_store();

    for i in 0..15 {
        let key = format!("{}", i).into_bytes();
        let val = english_numbers::convert_all_fmt(i).into_bytes();
        store.put(key, val).unwrap();
    }

    assert_eq!(
        store.list_keys(),
        vec![
            b"0".to_vec(),
            b"1".to_vec(),
            b"10".to_vec(),
            b"11".to_vec(),
            b"12".to_vec(),
            b"13".to_vec(),
            b"14".to_vec(),
            b"2".to_vec(),
            b"3".to_vec(),
            b"4".to_vec(),
            b"5".to_vec(),
            b"6".to_vec(),
            b"7".to_vec(),
            b"8".to_vec(),
            b"9".to_vec(),
        ]
    )
}

#[test]
fn test_fold() {
    let mut store = fresh_store();

    for i in 0..100 {
        let key = format!("{}", i).into_bytes();
        let val = english_numbers::convert_all_fmt(i).into_bytes();
        store.put(key, val).unwrap();
    }

    store.fold(|kv| kv.value != b"Fifty".to_vec());
}

#[test]
fn test_batched() {
    let mut store = fresh_store();

    let mut batch1: BatchedWrite = store.new_batched();
    for i in [0, 1, 2] {
        let key = format!("{}", i).into_bytes();
        let val = english_numbers::convert_all_fmt(i).into_bytes();
        batch1.put(key, val).unwrap();
    }
    let mut batch2: BatchedWrite = store.new_batched();
    for i in [10, 11, 12] {
        let key = format!("{}", i).into_bytes();
        let val = english_numbers::convert_all_fmt(i).into_bytes();
        batch2.put(key, val).unwrap();
    }

    batch1.commit(&mut store).unwrap();
    assert_eq!(store.list_keys(), [b"0".to_vec(), b"1".to_vec(), b"2".to_vec()]);

    store.put(b"114514".to_vec(), b"Bad Number".to_vec()).unwrap();
    assert_eq!(
        store.list_keys(),
        [b"0".to_vec(), b"1".to_vec(), b"114514".to_vec(), b"2".to_vec()]
    );

    batch2.commit(&mut store).unwrap();
    assert_eq!(
        store.list_keys(),
        [
            b"0".to_vec(),
            b"1".to_vec(),
            b"10".to_vec(),
            b"11".to_vec(),
            b"114514".to_vec(),
            b"12".to_vec(),
            b"2".to_vec(),
        ]
    );
}

#[test]
fn test_batched_overwrite() {
    let mut store = fresh_store();

    let mut batch: BatchedWrite = store.new_batched();
    for i in [0, 1, 2] {
        let key = format!("{}", i).into_bytes();
        let val = english_numbers::convert_all_fmt(i).into_bytes();
        batch.put(key, val).unwrap();
    }

    store.put(b"1".to_vec(), b"Yi".to_vec()).unwrap();
    store.put(b"2".to_vec(), b"Er".to_vec()).unwrap();
    store.put(b"3".to_vec(), b"San".to_vec()).unwrap();

    {
        let mut it = store.iter_options().make();
        while let Some(kv) = it.next() {
            println!("{:?}", kv);
        }
    }

    batch.commit(&mut store).unwrap();
    {
        let mut it = store.iter_options().make();
        while let Some(kv) = it.next() {
            println!("{:?}", kv);
        }
    }

    assert_eq!(store.cur_batch_id(), 1);
    let mut batch1: BatchedWrite = store.new_batched();
    let mut batch2: BatchedWrite = store.new_batched();
    assert_eq!(store.cur_batch_id(), 1);
    batch1.commit(&mut store).unwrap();
    batch2.commit(&mut store).unwrap();
    assert_eq!(store.cur_batch_id(), 3);
}

#[test]
fn test_persistence() {
    let segments;
    {
        let mut store = fresh_store();

        let mut batch1: BatchedWrite = store.new_batched();
        let mut batch2: BatchedWrite = store.new_batched();
        let mut batch3: BatchedWrite = store.new_batched();
        for i in 0..100 {
            let key1 = format!("{}", i).into_bytes();
            let val1 = english_numbers::convert_all_fmt(i).into_bytes();
            let key2 = format!("{}", i + 100).into_bytes();
            let val2 = english_numbers::convert_all_fmt(i + 100).into_bytes();
            let key3 = format!("{}", i + 200).into_bytes();
            let val3 = english_numbers::convert_all_fmt(i + 200).into_bytes();
            batch1.put(key1, val1).unwrap();
            batch2.put(key2, val2).unwrap();
            batch3.put(key3, val3).unwrap();
        }
        batch1.commit(&mut store).unwrap();
        batch2.commit(&mut store).unwrap();
        batch3.commit(&mut store).unwrap();
        for _ in 0..10 {
            let mut batch: BatchedWrite = store.new_batched();
            batch.commit(&mut store).unwrap();
        }
        segments = store.export_segments();
    }

    {
        let (s, f, b) = small_config();
        let mut store = Store::open(s, f, b, segments).unwrap();

        assert_eq!(
            store.get(b"123".to_vec()).unwrap(),
            b"One Hundred and Twenty-Three".to_vec()
        );
        assert_eq!(
            store.get(b"246".to_vec()).unwrap(),
            b"Two Hundred and Forty-Six".to_vec()
        );
        assert_eq!(store.get(b"53".to_vec()).unwrap(), b"Fifty-Three".to_vec());
        assert_eq!(store.list_keys().len(), 300);
        assert_eq!(store.cur_batch_id(), 13);

        let mut batch: BatchedWrite = store.new_batched();
        for i in 0..100 {
            let key = format!("{}", i).into_bytes();
            let val = english_numbers::convert_all_fmt(i).into_bytes();
            batch.put(key, val).unwrap();
        }
        assert_eq!(store.cur_batch_id(), 13);
        batch.commit(&mut store).unwrap();
        assert_eq!(store.cur_batch_id(), 14);
    }
}

#[test]
fn test_read_truncated() {
    // A store reopened from segments cut off inside an uncommitted batch
    // recovers only what came before the batch.
    let mut store = fresh_store();
    store.put(b"solid".to_vec(), b"ground".to_vec()).unwrap();
    let mut batch: BatchedWrite = store.new_batched();
    for i in 0..100 {
        let key = format!("{}", i).into_bytes();
        let val = english_numbers::convert_all_fmt(i).into_bytes();
        batch.put(key, val).unwrap();
    }
    batch.commit(&mut store).unwrap();

    let mut segments = store.export_segments();
    // Cut the last segment right after the first whole record, so the
    // committed batch behind it is gone without its end marker.
    let first_record_len = kv::file_handle::FileHandle::encode_record(&kv::records::LogRecord::Data {
        key: b"solid".to_vec(),
        value: b"ground".to_vec(),
    })
    .len();
    let last = segments.last_mut().unwrap();
    last.truncate(first_record_len);

    let (s, f, b) = small_config();
    let reopened = Store::open(s, f, b, segments).unwrap();
    println!("{:?}", reopened.list_keys());
    assert_eq!(reopened.list_keys(), vec![b"solid".to_vec()]);
}

#[test]
fn test_rotation_preserves_reads() {
    // A cap that fits only a few records forces rotation over and over.
    let (s, _f, b) = small_config();
    let f = FileConfig { max_file_size: 128 };
    let mut store = Store::open(s, f, b, Vec::new()).unwrap();

    for i in 0..300 {
        let key = format!("{}", i).into_bytes();
        let val = english_numbers::convert_all_fmt(i).into_bytes();
        store.put(key, val).unwrap();
    }
    for i in 0..300 {
        let key = format!("{}", i).into_bytes();
        let val = english_numbers::convert_all_fmt(i).into_bytes();
        assert_eq!(store.get(key).unwrap(), val);
    }
    assert!(store.export_segments().len() > 1);

    let reopened = reopen(&store);
    assert_eq!(reopened.list_keys().len(), 300);
    for i in 0..300 {
        let key = format!("{}", i).into_bytes();
        let val = english_numbers::convert_all_fmt(i).into_bytes();
        assert_eq!(reopened.get(key).unwrap(), val);
    }
}

#[test]
fn test_merge() {
    let mut store = fresh_store();

    for i in 0..1000 {
        let key = format!("{}", i).into_bytes();
        let val = english_numbers::convert_all_fmt(i).into_bytes();
        store.put(key, val).unwrap();
    }
    for i in 100..900 {
        let key = format!("{}", i).into_bytes();
        store.delete(key).unwrap();
    }

    let (mut merged, meta) = store.merge().unwrap();
    assert_eq!(meta.cur_active_file_id, 0);

    assert_eq!(merged.get(b"44".to_vec()).unwrap(), b"Forty-Four".to_vec());
    assert_eq!(merged.get(b"500".to_vec()).unwrap_err(), Errors::KeyNotFound);
    assert_eq!(merged.list_keys().len(), 200);
    assert_eq!(merged.list_keys(), store.list_keys());

    // The compacted log holds one record per live key and nothing else:
    // its total size is exactly the sum of one framed record per live key.
    let compact_size: usize = merged.export_segments().iter().map(|s| s.len()).sum();
    let uncompacted_size: usize = store.export_segments().iter().map(|s| s.len()).sum();
    assert!(compact_size < uncompacted_size);
    let expected: usize = store
        .list_keys()
        .into_iter()
        .map(|k| 13 + k.len() + store.get(k.clone()).unwrap().len())
        .sum();
    assert_eq!(compact_size, expected);

    // Writing into the compacted store behaves like writing into the one
    // it came from: the reinserted ranges come back, the rest stays gone.
    for i in 666..700 {
        let key = format!("{}", i).into_bytes();
        let val = english_numbers::convert_all_fmt(i).into_bytes();
        merged.put(key, val).unwrap();
    }
    for i in 766..800 {
        let key = format!("{}", i).into_bytes();
        let val = english_numbers::convert_all_fmt(i).into_bytes();
        merged.put(key, val).unwrap();
    }
    assert_eq!(merged.get(b"75".to_vec()).unwrap(), b"Seventy-Five".to_vec());
    assert_eq!(merged.get(b"666".to_vec()).unwrap(), b"Six Hundred and Sixty-Six".to_vec());
    assert_eq!(merged.get(b"692".to_vec()).unwrap(), b"Six Hundred and Ninety-Two".to_vec());
    assert_eq!(
        merged.get(b"777".to_vec()).unwrap(),
        b"Seven Hundred and Seventy-Seven".to_vec()
    );
    assert_eq!(
        merged.get(b"922".to_vec()).unwrap(),
        b"Nine Hundred and Twenty-Two".to_vec()
    );
    assert_eq!(merged.list_keys().len(), 100 + 100 + 34 + 34);
}

#[test]
fn test_batch_crash_atomicity() {
    // Cutting the log anywhere before the batch's end marker hides the
    // whole batch; with the marker, all of it is visible.
    let mut store = fresh_store();
    store.put(b"base".to_vec(), b"line".to_vec()).unwrap();
    let before = store.export_segments();
    let before_len = before.last().unwrap().len();

    let mut batch: BatchedWrite = store.new_batched();
    batch.put(b"a".to_vec(), b"1".to_vec()).unwrap();
    batch.put(b"b".to_vec(), b"2".to_vec()).unwrap();
    batch.commit(&mut store).unwrap();

    let full = store.export_segments();
    let full_len = full.last().unwrap().len();

    let (s, f, b) = small_config();
    let complete = Store::open(s, f, b, full.clone()).unwrap();
    assert_eq!(complete.list_keys().len(), 3);

    // Every truncation point inside the batch's records either reads as a
    // clean cut, losing the whole batch and nothing else, or is caught as
    // corruption; no cut shows part of the batch.
    let mut clean_cuts = 0;
    for cut in before_len..full_len {
        let mut segments = full.clone();
        segments.last_mut().unwrap().truncate(cut);
        let (s, f, b) = small_config();
        match Store::open(s, f, b, segments) {
            Ok(reopened) => {
                clean_cuts += 1;
                assert_eq!(reopened.list_keys(), vec![b"base".to_vec()]);
            }
            Err(e) => {
                assert!(matches!(
                    e,
                    Errors::CrcMismatch { .. } | Errors::BinarySizeMismatch { .. }
                ));
            }
        }
    }
    // The cut at the batch's start is clean.
    assert!(clean_cuts >= 1);
}

#[test]
fn test_batch_overflow() {
    let (s, f, _b) = small_config();
    let b = BatchedConfig { max_batch_size: 2, sync_every_write: false };
    let mut store = Store::open(s, f, b, Vec::new()).unwrap();
    let mut batch: BatchedWrite = store.new_batched();
    batch.put(b"a".to_vec(), b"1".to_vec()).unwrap();
    batch.put(b"b".to_vec(), b"2".to_vec()).unwrap();
    assert_eq!(
        batch.put(b"c".to_vec(), b"3".to_vec()).unwrap_err(),
        Errors::BatchOverflow
    );
    assert_eq!(batch.put(b"".to_vec(), b"x".to_vec()).unwrap_err(), Errors::KeyIsEmpty);
    batch.commit(&mut store).unwrap();
    assert_eq!(store.list_keys().len(), 2);
}

#[test]
fn test_batch_visibility() {
    // Nothing of a batch is visible before commit; everything is after.
    let mut store = fresh_store();
    let mut batch: BatchedWrite = store.new_batched();
    batch.put(b"a".to_vec(), b"1".to_vec()).unwrap();
    batch.put(b"b".to_vec(), b"2".to_vec()).unwrap();
    assert_eq!(store.get(b"a".to_vec()).unwrap_err(), Errors::KeyNotFound);
    batch.commit(&mut store).unwrap();
    assert_eq!(store.get(b"a".to_vec()).unwrap(), b"1".to_vec());
    assert_eq!(store.get(b"b".to_vec()).unwrap(), b"2".to_vec());
}
