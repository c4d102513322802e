//! Tests of key/value snapshot iteration over a store.

use kv::config::{BatchedConfig, FileConfig, StoreConfig};
use kv::index::IndexType;
use kv::store::Store;

fn open_fresh() -> Store {
    Store::open(
        StoreConfig {
            dir: b"store".to_vec(),
            sync_every_write: false,
            index_type: IndexType::BTree,
        },
        FileConfig { max_file_size: 1024 * 1024 },
        BatchedConfig { max_batch_size: 10000, sync_every_write: false },
        Vec::new(),
    )
    .unwrap()
}

#[test]
fn kv_iter_test() {
    let mut store = open_fresh();
    for i in 100..108 {
        let key = format!("{}", i).into_bytes();
        let val = english_numbers::convert_all_fmt(i).into_bytes();
        store.put(key, val).unwrap();
    }

    let mut seen = 0;
    let mut it = store.iter_options().make();
    while let Some(kv) = it.next() {
        println!(
            "key = {} value = {}",
            String::from_utf8_lossy(&kv.key),
            String::from_utf8_lossy(&kv.value)
        );
        seen += 1;
    }
    assert_eq!(seen, 8);
}

#[test]
fn kv_iter_find_test() {
    let mut store = open_fresh();
    {
        let mut iter = store.iter_options().make();
        iter.find(b"205".to_vec());
        assert!(iter.next().is_none());
    }
    // even numbers
    for i in (0..500).filter(|x| x % 2 == 0) {
        let key = format!("{}", i).into_bytes();
        let val = english_numbers::convert_all_fmt(i).into_bytes();
        store.put(key, val).unwrap();
    }

    let mut iter = store.iter_options().make();
    iter.find(b"205".to_vec());
    assert_eq!(iter.next().unwrap().key, b"206".to_vec());
    assert_eq!(iter.next().unwrap().key, b"208".to_vec());
    for _ in 0..10 {
        println!("{}", String::from_utf8_lossy(&iter.next().unwrap().key));
    }
}

#[test]
fn kv_iter_prefix_test() {
    let mut store = open_fresh();
    {
        let mut iter = store.iter_options().make();
        assert!(iter.next().is_none());
    }

    for i in 0..500 {
        let key = format!("{}", i).into_bytes();
        let val = english_numbers::convert_all_fmt(i).into_bytes();
        store.put(key, val).unwrap();
    }

    let mut iter = store.iter_options().with_key_prefix(b"20".to_vec()).make();
    assert_eq!(iter.next().unwrap().key, b"20".to_vec());
    assert_eq!(iter.next().unwrap().key, b"200".to_vec());
    assert_eq!(iter.next().unwrap().key, b"201".to_vec());
    assert_eq!(iter.next().unwrap().key, b"202".to_vec());

    let mut iter = store.iter_options().with_key_prefix(b"30".to_vec()).rev().make();
    assert_eq!(iter.next().unwrap().key, b"309".to_vec());
    assert_eq!(iter.next().unwrap().key, b"308".to_vec());
    assert_eq!(iter.next().unwrap().key, b"307".to_vec());
    assert_eq!(iter.next().unwrap().key, b"306".to_vec());
}

#[test]
fn kv_iter_prefix_reverse_full() {
    let mut store = open_fresh();
    for i in 0..500 {
        let key = format!("{}", i).into_bytes();
        let val = english_numbers::convert_all_fmt(i).into_bytes();
        store.put(key, val).unwrap();
    }
    let mut iter = store.iter_options().with_key_prefix(b"30".to_vec()).rev().make();
    let mut keys: Vec<Vec<u8>> = Vec::new();
    while let Some(kv) = iter.next() {
        keys.push(kv.key);
    }
    assert_eq!(
        keys,
        vec![
            b"309".to_vec(),
            b"308".to_vec(),
            b"307".to_vec(),
            b"306".to_vec(),
            b"305".to_vec(),
            b"304".to_vec(),
            b"303".to_vec(),
            b"302".to_vec(),
            b"301".to_vec(),
            b"300".to_vec(),
            b"30".to_vec(),
        ]
    );
}

#[test]
fn kv_iter_rewind() {
    let mut store = open_fresh();
    store.put(b"a".to_vec(), b"1".to_vec()).unwrap();
    store.put(b"b".to_vec(), b"2".to_vec()).unwrap();
    let mut iter = store.iter_options().make();
    assert_eq!(iter.next().unwrap().key, b"a".to_vec());
    assert_eq!(iter.next().unwrap().key, b"b".to_vec());
    assert!(iter.next().is_none());
    iter.rewind();
    assert_eq!(iter.next().unwrap().key, b"a".to_vec());
}
