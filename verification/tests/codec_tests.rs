//! Tests of the segment handle and the record codec: exact wire bytes,
//! offsets, rotation refusal, and CRC integrity.

use kv::batched::BatchedLogRecord;
use kv::config::FileConfig;
use kv::errors::Errors;
use kv::file_handle::FileHandle;
use kv::merge::{merge_combine_plan, CopyStep, MergeMetadata};
use kv::records::{LogRecord, LogRecordPtr};

fn handle_with_cap(cap: u64) -> FileHandle {
    FileHandle::create(FileConfig { max_file_size: cap })
}

#[test]
fn test_file_handle_create() {
    let file_handle = handle_with_cap(1024);
    assert_eq!(file_handle.get_write_offset(), 0);
    assert_eq!(file_handle.size(), 0);
}

#[test]
fn test_write_offset() {
    let mut file_handle = handle_with_cap(1024);
    assert_eq!(file_handle.get_write_offset(), 0);

    file_handle.set_write_offset(42);
    assert_eq!(file_handle.get_write_offset(), 42);
}

#[test]
fn test_read_at_offset() {
    let mut file_handle = handle_with_cap(1024);

    let record = LogRecord::Data { key: b"key".to_vec(), value: b"value".to_vec() };
    file_handle.try_append(&record).unwrap();

    let (read_record, _) = file_handle.read_at_offset(0).unwrap();
    match read_record {
        LogRecord::Data { key, value } => {
            assert_eq!(key, b"key".to_vec());
            assert_eq!(value, b"value".to_vec());
        },
        _ => panic!("Unexpected record type"),
    }
}

#[test]
fn file_handle_test_sync() {
    let file_handle = handle_with_cap(1024);
    file_handle.sync().unwrap();
}

#[test]
fn test_try_append() {
    let mut file_handle = handle_with_cap(1024);

    let record = LogRecord::Data { key: b"key".to_vec(), value: b"value".to_vec() };
    let bytes_written = file_handle.try_append(&record).unwrap();
    assert_eq!(bytes_written, record.encoded_len());
}

#[test]
fn test_multi() {
    let mut file_handle = handle_with_cap(1024);

    let record1 = LogRecord::Data { key: b"key".to_vec(), value: b"value".to_vec() };
    let record2 = LogRecord::Data { key: b"somebody".to_vec(), value: b"something".to_vec() };
    let mut offset = 0;
    offset += file_handle.try_append(&record1).unwrap();
    let off1 = offset;
    offset += file_handle.try_append(&record2).unwrap();

    let (read_record, _) = file_handle.read_at_offset(off1 as u64).unwrap();
    match read_record {
        LogRecord::Data { key, value } => {
            assert_eq!(key, b"somebody".to_vec());
            assert_eq!(value, b"something".to_vec());
        },
        _ => panic!("Unexpected record type"),
    }

    let record3 = LogRecord::Tomb { key: b"somebody".to_vec() };
    let record4 = LogRecord::Tomb { key: b"key".to_vec() };
    let off2 = offset;
    offset += file_handle.try_append(&record3).unwrap();
    let off3 = offset;
    let _ = offset;
    file_handle.try_append(&record4).unwrap();
    let (read_record, _) = file_handle.read_at_offset(off2 as u64).unwrap();
    match read_record {
        LogRecord::Tomb { key } => {
            assert_eq!(key, b"somebody".to_vec());
        },
        _ => panic!("Unexpected record type"),
    }

    let (read_record, _) = file_handle.read_at_offset(off3 as u64).unwrap();
    match read_record {
        LogRecord::Tomb { key } => {
            assert_eq!(key, b"key".to_vec());
        },
        _ => panic!("Unexpected record type"),
    }
}

#[test]
fn test_buffer_overflow_refused() {
    let mut file_handle = handle_with_cap(20);
    let record = LogRecord::Data { key: b"key".to_vec(), value: b"value".to_vec() };
    // 13 + 3 + 5 = 21 bytes would reach past the 20-byte cap.
    assert_eq!(file_handle.try_append(&record).unwrap_err(), Errors::BufferOverflow);
    assert_eq!(file_handle.size(), 0);
}

#[test]
fn test_exact_wire_bytes() {
    // Data "k" -> "v": type, key size, value size, key, value, checksum.
    let record = LogRecord::Data { key: b"k".to_vec(), value: b"v".to_vec() };
    let bytes = FileHandle::encode_record(&record);
    assert_eq!(bytes.len(), 15);
    assert_eq!(&bytes[0..9], &[0u8, 0, 0, 0, 1, 0, 0, 0, 1]);
    assert_eq!(bytes[9], b'k');
    assert_eq!(bytes[10], b'v');
    let crc = FileHandle::crc(&bytes[0..11]);
    assert_eq!(&bytes[11..15], crc.to_be_bytes().as_slice());

    // BatchDone carries the big-endian batch id and a checksum.
    let done = LogRecord::BatchDone { batch_id: 0x0102_0304_0506_0708 };
    let done_bytes = FileHandle::encode_record(&done);
    assert_eq!(done_bytes.len(), 13);
    assert_eq!(done_bytes[0], 4u8);
    assert_eq!(&done_bytes[1..9], &[1u8, 2, 3, 4, 5, 6, 7, 8]);
}

#[test]
fn test_verify_crc() {
    let payload = b"anything at all";
    let crc = FileHandle::crc(payload);
    assert!(FileHandle::verify_crc(payload, crc).is_ok());
    let wrong = crc.wrapping_add(1);
    assert_eq!(
        FileHandle::verify_crc(payload, wrong).unwrap_err(),
        Errors::CrcMismatch { expected: crc, got: wrong }
    );
}

#[test]
fn test_single_byte_flip_detected() {
    // Flipping any single byte of a record's payload or framing makes the
    // read through that offset fail its integrity check.
    let record = LogRecord::Data { key: b"stable".to_vec(), value: b"value bytes".to_vec() };
    let bytes = FileHandle::encode_record(&record);
    for pos in 1..bytes.len() {
        let mut corrupted = bytes.clone();
        corrupted[pos] ^= 0x01;
        let handle = FileHandle::open(corrupted, FileConfig { max_file_size: 1024 });
        match handle.read_at_offset(0) {
            Err(Errors::CrcMismatch { .. }) => {},
            Err(Errors::Eof) => panic!("flip at {} read as end of stream", pos),
            Err(e) => panic!("flip at {} gave {:?}", pos, e),
            Ok(_) => panic!("flip at {} went unnoticed", pos),
        }
    }
}

#[test]
fn test_flipped_type_byte_refused() {
    let record = LogRecord::Data { key: b"k".to_vec(), value: b"v".to_vec() };
    let mut bytes = FileHandle::encode_record(&record);
    bytes[0] = 9;
    let handle = FileHandle::open(bytes, FileConfig { max_file_size: 1024 });
    assert_eq!(handle.read_at_offset(0).unwrap_err(), Errors::InvalidRecordType { tag: 9 });
}

#[test]
fn test_record_metadata() {
    let record = LogRecord::Data { key: b"abc".to_vec(), value: b"de".to_vec() };
    assert!(!record.key_is_empty());
    assert_eq!(record.type_id(), 0);
    assert_eq!(record.encoded_len(), 13 + 3 + 2);
    assert_eq!(LogRecord::type_length(), 1);
    assert_eq!(LogRecord::header_length_data(), 8);
    assert_eq!(LogRecord::header_length_tomb(), 4);
    assert_eq!(LogRecord::header_length_data_in_batch(), 16);
    assert_eq!(LogRecord::header_length_tomb_in_batch(), 12);
    assert_eq!(LogRecord::header_length_batch_done(), 8);
    assert_eq!(LogRecord::tail_length(), 4);

    let done = LogRecord::BatchDone { batch_id: 3 };
    assert!(!done.key_is_empty());
    assert_eq!(done.type_id(), 4);
    assert_eq!(done.encoded_len(), 13);

    let empty = LogRecord::Data { key: Vec::new(), value: b"value".to_vec() };
    assert!(empty.key_is_empty());
    assert_eq!(LogRecord::Tomb { key: b"ab".to_vec() }.type_id(), 1);
    assert_eq!(
        LogRecord::DataInBatch { batch_id: 1, key: b"a".to_vec(), value: b"b".to_vec() }.type_id(),
        2
    );
    assert_eq!(LogRecord::TombInBatch { batch_id: 1, key: b"a".to_vec() }.type_id(), 3);
}

#[test]
fn test_eof_on_zero_padding() {
    // A zero-padded tail reads as a clean end of stream.
    let handle = FileHandle::open(vec![0u8; 64], FileConfig { max_file_size: 1024 });
    assert_eq!(handle.read_at_offset(0).unwrap_err(), Errors::Eof);
    assert_eq!(handle.read_at_offset(64).unwrap_err(), Errors::Eof);
}

#[test]
fn test_batched_record_conversion() {
    let rec = BatchedLogRecord::Data { key: b"k".to_vec(), value: b"v".to_vec() };
    match rec.into_batched(7) {
        LogRecord::DataInBatch { batch_id, key, value } => {
            assert_eq!(batch_id, 7);
            assert_eq!(key, b"k".to_vec());
            assert_eq!(value, b"v".to_vec());
        },
        _ => panic!("wrong variant"),
    }
    let tomb = BatchedLogRecord::Tomb { key: b"k".to_vec() };
    match tomb.into_batched(9) {
        LogRecord::TombInBatch { batch_id, key } => {
            assert_eq!(batch_id, 9);
            assert_eq!(key, b"k".to_vec());
        },
        _ => panic!("wrong variant"),
    }

    assert!(BatchedLogRecord::from_log_record(LogRecord::DataInBatch {
        batch_id: 1,
        key: b"a".to_vec(),
        value: b"b".to_vec(),
    })
    .is_ok());
    let plain = LogRecord::Data { key: b"a".to_vec(), value: b"b".to_vec() };
    assert_eq!(
        BatchedLogRecord::from_log_record(plain.clone()).unwrap_err(),
        kv::errors::Errors::InvalidBatchedRecordType { record: plain }
    );
}

#[test]
fn test_merge_combine_plan() {
    let meta = MergeMetadata { cur_active_file_id: 3, cur_write_offset: 120 };
    let plan = merge_combine_plan(meta, 5, 1);
    assert_eq!(
        plan,
        vec![
            CopyStep { src_id: 3, from_offset: 120, dest_id: 2 },
            CopyStep { src_id: 4, from_offset: 0, dest_id: 3 },
            CopyStep { src_id: 5, from_offset: 0, dest_id: 4 },
        ]
    );
}

#[test]
fn test_pointer_roundtrip_fields() {
    let p = LogRecordPtr { file_id: 7, offset: 4096 };
    let q = p;
    assert_eq!(p, q);
    assert_eq!(p.file_id, 7);
    assert_eq!(p.offset, 4096);
}
