//! The engine core: open with recovery, point reads and writes, segment
//! rotation, batch commit, and ordered iteration. A store's logical content
//! is its view: the map from live keys to values. The central invariant ties
//! every index entry to a CRC-framed data record stored in some segment.

use vstd::prelude::*;

use crate::batched::{apply_staged, stage_set, BatchedIndex, BatchedLogRecord, BatchedWrite};
use crate::config::{BatchedConfig, FileConfig, StoreConfig};
use crate::errors::Errors;
use crate::file_handle::FileHandle;
use crate::index::{clone_bytes, lex_lt, BTreeIndex, EntryModel, IndexType};
use crate::records::{parse_record, LogRecord, LogRecordPtr, ParseOutcome, RecordModel};

verus! {

impl IndexType {
    /// Build the key index the engine core itself drives. The store's
    /// contracts pin the index's entry sequence as a function of the
    /// store's state, so the core keeps the ordered in-memory tree under
    /// every selection; `SkiplistIndex` offers the same interface and
    /// per-operation contracts over the lock-free skip list for callers
    /// that use an index on its own, and the on-disk variant's persistence
    /// lives with the embedding shell.
    pub fn create_index(&self) -> (r: BTreeIndex)
        ensures
            r.wf(),
            r@ == Map::<Seq<u8>, LogRecordPtr>::empty(),
    {
        BTreeIndex::new()
    }
}

/// The storage engine over in-memory segments in the on-disk wire format.
pub struct Store {
    pub(crate) store_config: StoreConfig,
    pub(crate) file_config: FileConfig,
    pub(crate) batched_config: BatchedConfig,
    pub(crate) index: BTreeIndex,
    pub(crate) active_file: FileHandle,
    pub(crate) active_file_id: u32,
    pub(crate) legacy_files: Vec<FileHandle>,
    pub(crate) batch_id: u64,
    pub(crate) kv: Ghost<Map<Seq<u8>, Seq<u8>>>,
}

impl View for Store {
    type V = Map<Seq<u8>, Seq<u8>>;

    /// The logical content: every live key mapped to its current value.
    closed spec fn view(&self) -> Map<Seq<u8>, Seq<u8>> {
        self.kv@
    }
}

impl Store {
    /// The bytes of segment `fid`: a rotated segment for ids below the
    /// active one, else the active segment.
    pub closed spec fn seg_contents(self, fid: int) -> Seq<u8> {
        if fid < self.legacy_files@.len() {
            self.legacy_files@[fid].contents()
        } else {
            self.active_file.contents()
        }
    }

    /// A CRC-valid data record for key `k` with value `v` sits wholly inside
    /// segment `ptr.file_id` at `ptr.offset`.
    pub closed spec fn data_record_at(self, ptr: LogRecordPtr, k: Seq<u8>, v: Seq<u8>) -> bool {
        match parse_record(self.seg_contents(ptr.file_id as int), ptr.offset as int) {
            ParseOutcome::Parsed { rec, size } => {
                &&& ptr.offset + size <= self.seg_contents(ptr.file_id as int).len()
                &&& match rec {
                    RecordModel::Data { key, value } => key == k && value == v,
                    RecordModel::DataInBatch { key, value, .. } => key == k && value == v,
                    _ => false,
                }
            },
            _ => false,
        }
    }

    /// The bytes of the first `n` segments, oldest first, as one stream.
    pub closed spec fn stream_prefix(self, n: int) -> Seq<u8>
        decreases n,
    {
        if n <= 0 {
            Seq::empty()
        } else {
            self.stream_prefix(n - 1) + self.seg_contents(n - 1)
        }
    }

    /// The whole log as one byte stream: every segment's bytes in segment
    /// order. Every append extends it by exactly one record's encoding.
    pub closed spec fn stream_bytes(self) -> Seq<u8> {
        self.stream_prefix(self.active_id_spec() as int + 1)
    }

    /// The total number of bytes the log holds.
    pub open spec fn total_size(self) -> int {
        self.stream_bytes().len() as int
    }

    /// The segment rotation threshold.
    pub closed spec fn max_file_size_spec(self) -> u64 {
        self.file_config.max_file_size
    }

    /// The id of the active segment.
    pub closed spec fn active_id_spec(self) -> u32 {
        self.active_file_id
    }

    /// The next batch id to hand out.
    pub closed spec fn batch_id_spec(self) -> u64 {
        self.batch_id
    }

    /// The number of live keys.
    pub closed spec fn key_count(self) -> int {
        self.index.entry_seq().len() as int
    }

    /// The index entries, ascending by key.
    pub closed spec fn entry_seq(self) -> Seq<EntryModel> {
        self.index.entry_seq()
    }

    /// The configuration is untouched by every operation.
    pub closed spec fn same_config(self, other: Store) -> bool {
        &&& self.store_config == other.store_config
        &&& self.file_config == other.file_config
        &&& self.batched_config == other.batched_config
    }

    /// Well-formed: segments are numbered contiguously with the active one
    /// last, the index is sorted, and every index entry points at a whole,
    /// CRC-valid data record carrying that key and the view's value for it.
    pub closed spec fn wf(self) -> bool {
        &&& self.legacy_files@.len() == self.active_file_id as int
        &&& self.active_file.offset_synced()
        &&& self.active_file.max_size() == self.file_config.max_file_size
        &&& self.index.wf()
        &&& self.kv@.dom() == self.index@.dom()
        &&& forall|k: Seq<u8>| #[trigger]
            self.index@.contains_key(k) ==> {
                &&& self.index@[k].file_id <= self.active_file_id
                &&& self.data_record_at(self.index@[k], k, self.kv@[k])
                &&& 0 < k.len() < 0x1_0000_0000
                &&& self.kv@[k].len() < 0x1_0000_0000
            }
    }

    /// Two stores with the same segment contents hold the same stream.
    proof fn lemma_stream_prefix_congruence(s1: Store, s2: Store, n: int)
        requires
            forall|fid: int| 0 <= fid < n ==> s1.seg_contents(fid) == s2.seg_contents(fid),
        ensures
            s1.stream_prefix(n) == s2.stream_prefix(n),
        decreases n,
    {
        if n > 0 {
            Store::lemma_stream_prefix_congruence(s1, s2, n - 1);
        }
    }

    /// What one in-place append does to the segments: the new record parses
    /// at the old end of the active segment, everything already whole stays,
    /// and the stream grows by exactly the record's encoding.
    #[verifier::rlimit(100)]
    #[verifier::spinoff_prover]
    proof fn lemma_log_extend(pre: Store, post: Store, r: RecordModel)
        requires
            r.wire_valid(),
            !(r.key().len() == 0 && !(r is BatchDone)),
            pre.legacy_files@.len() == pre.active_file_id as int,
            post.active_file_id == pre.active_file_id,
            post.legacy_files@ == pre.legacy_files@,
            post.active_file.contents() == pre.active_file.contents() + r.wire_bytes(),
        ensures
            parse_record(
                post.seg_contents(pre.active_file_id as int),
                pre.active_file.contents().len() as int,
            ) == (ParseOutcome::Parsed { rec: r, size: r.wire_len() }),
            pre.active_file.contents().len() + r.wire_len() <= post.seg_contents(
                pre.active_file_id as int,
            ).len(),
            forall|fid: int|
                0 <= fid < pre.active_file_id as int ==> post.seg_contents(fid)
                    == pre.seg_contents(fid),
            post.seg_contents(pre.active_file_id as int) == pre.seg_contents(
                pre.active_file_id as int,
            ) + r.wire_bytes(),
            post.stream_bytes() == pre.stream_bytes() + r.wire_bytes(),
            forall|fid: int, off: int|
                (0 <= fid <= pre.active_file_id as int && 0 <= off && (#[trigger] parse_record(
                    pre.seg_contents(fid),
                    off,
                )) is Parsed && off + parse_record(pre.seg_contents(fid), off)->size
                    <= pre.seg_contents(fid).len()) ==> parse_record(post.seg_contents(fid), off)
                    == parse_record(pre.seg_contents(fid), off) && off + parse_record(
                    pre.seg_contents(fid),
                    off,
                )->size <= post.seg_contents(fid).len(),
    {
        crate::records::lemma_wire_bytes_len(r);
        let a = pre.active_file_id as int;
        let contents = post.active_file.contents();
        let offset = pre.active_file.contents().len() as int;
        assert(contents.subrange(offset, offset + r.wire_len()) =~= r.wire_bytes());
        crate::records::lemma_parse_encoded(contents, offset, r);
        assert forall|fid: int, off: int|
            (0 <= fid <= a && 0 <= off && (#[trigger] parse_record(pre.seg_contents(fid), off))
                is Parsed && off + parse_record(pre.seg_contents(fid), off)->size
                <= pre.seg_contents(fid).len()) implies parse_record(post.seg_contents(fid), off)
            == parse_record(pre.seg_contents(fid), off) && off + parse_record(
            pre.seg_contents(fid),
            off,
        )->size <= post.seg_contents(fid).len() by {
            if fid >= pre.legacy_files@.len() {
                let outcome = parse_record(pre.seg_contents(fid), off);
                crate::records::lemma_parse_stable_under_append(
                    pre.active_file.contents(),
                    r.wire_bytes(),
                    off,
                    outcome->rec,
                    outcome->size,
                );
            }
        }
        Store::lemma_stream_prefix_congruence(post, pre, a);
        assert(post.stream_bytes() == post.stream_prefix(a) + post.seg_contents(a));
        assert(pre.stream_bytes() == pre.stream_prefix(a) + pre.seg_contents(a));
        assert(post.stream_bytes() =~= pre.stream_bytes() + r.wire_bytes());
    }

    /// What one rotation plus append does: the full active segment keeps its
    /// bytes under its id, the record opens the fresh segment, and the
    /// stream still grows by exactly the record's encoding.
    #[verifier::rlimit(100)]
    #[verifier::spinoff_prover]
    proof fn lemma_log_rotate(pre: Store, post: Store, r: RecordModel)
        requires
            r.wire_valid(),
            !(r.key().len() == 0 && !(r is BatchDone)),
            pre.legacy_files@.len() == pre.active_file_id as int,
            post.active_file_id == pre.active_file_id + 1,
            post.legacy_files@.len() == pre.legacy_files@.len() + 1,
            forall|j: int|
                0 <= j < pre.legacy_files@.len() ==> post.legacy_files@[j]
                    == pre.legacy_files@[j],
            post.legacy_files@[pre.legacy_files@.len() as int].contents()
                == pre.active_file.contents(),
            post.active_file.contents() == r.wire_bytes(),
        ensures
            parse_record(post.seg_contents(post.active_file_id as int), 0) == (
            ParseOutcome::Parsed { rec: r, size: r.wire_len() }),
            r.wire_len() <= post.seg_contents(post.active_file_id as int).len(),
            forall|fid: int|
                0 <= fid <= pre.active_file_id as int ==> post.seg_contents(fid)
                    == pre.seg_contents(fid),
            post.seg_contents(post.active_file_id as int) == r.wire_bytes(),
            post.stream_bytes() == pre.stream_bytes() + r.wire_bytes(),
            forall|fid: int, off: int|
                (0 <= fid <= pre.active_file_id as int && 0 <= off && (#[trigger] parse_record(
                    pre.seg_contents(fid),
                    off,
                )) is Parsed && off + parse_record(pre.seg_contents(fid), off)->size
                    <= pre.seg_contents(fid).len()) ==> parse_record(post.seg_contents(fid), off)
                    == parse_record(pre.seg_contents(fid), off) && off + parse_record(
                    pre.seg_contents(fid),
                    off,
                )->size <= post.seg_contents(fid).len(),
    {
        crate::records::lemma_wire_bytes_len(r);
        let a = pre.active_file_id as int;
        let contents = post.active_file.contents();
        assert(contents.subrange(0, r.wire_len() as int) =~= r.wire_bytes());
        crate::records::lemma_parse_encoded(contents, 0, r);
        assert forall|fid: int| 0 <= fid <= a implies post.seg_contents(fid) == pre.seg_contents(
            fid,
        ) by {
            if fid < pre.legacy_files@.len() {
                assert(post.legacy_files@[fid] == pre.legacy_files@[fid]);
            } else {
                assert(post.legacy_files@[pre.legacy_files@.len() as int].contents()
                    == pre.active_file.contents());
            }
        }
        Store::lemma_stream_prefix_congruence(post, pre, a + 1);
        assert(post.stream_bytes() == post.stream_prefix(a + 1) + post.seg_contents(a + 1));
        assert(post.seg_contents(a + 1) =~= r.wire_bytes());
        assert(post.stream_bytes() =~= pre.stream_bytes() + r.wire_bytes());
    }

    /// Append one record to the active segment, rotating to a fresh segment
    /// when it would not fit. Exactly one record lands in exactly one
    /// segment; every record already stored stays where it was.
    #[verifier::rlimit(100)]
    #[verifier::spinoff_prover]
    pub(crate) fn log(&mut self, record: &LogRecord) -> (ptr: LogRecordPtr)
        requires
            old(self).active_file.offset_synced(),
            old(self).active_file.max_size() == old(self).file_config.max_file_size,
            old(self).legacy_files@.len() == old(self).active_file_id as int,
            record@.wire_valid(),
            record@.wire_len() < old(self).file_config.max_file_size,
            record@.wire_len() <= usize::MAX,
            !(record@.key().len() == 0 && !(record@ is BatchDone)),
            old(self).active_file_id < u32::MAX,
        ensures
            final(self).index == old(self).index,
            final(self).kv == old(self).kv,
            final(self).batch_id == old(self).batch_id,
            final(self).same_config(*old(self)),
            final(self).active_file.offset_synced(),
            final(self).active_file.max_size() == old(self).file_config.max_file_size,
            final(self).legacy_files@.len() == final(self).active_file_id as int,
            old(self).active_file_id <= final(self).active_file_id <= old(self).active_file_id
                + 1,
            ptr.file_id == final(self).active_file_id,
            parse_record(final(self).seg_contents(ptr.file_id as int), ptr.offset as int) == (
            ParseOutcome::Parsed { rec: record@, size: record@.wire_len() }),
            ptr.offset + record@.wire_len() <= final(self).seg_contents(
                ptr.file_id as int,
            ).len(),
            forall|fid: int|
                0 <= fid < old(self).active_file_id as int ==> final(self).seg_contents(fid)
                    == old(self).seg_contents(fid),
            final(self).active_file_id == old(self).active_file_id ==> final(self).seg_contents(
                old(self).active_file_id as int,
            ) == old(self).seg_contents(old(self).active_file_id as int) + record@.wire_bytes()
                && ptr.offset == old(self).seg_contents(old(self).active_file_id as int).len(),
            final(self).active_file_id == old(self).active_file_id + 1 ==> final(self).seg_contents(old(self).active_file_id as int) == old(self).seg_contents(
                old(self).active_file_id as int,
            ) && final(self).seg_contents(final(self).active_file_id as int)
                == record@.wire_bytes() && ptr.offset == 0,
            final(self).stream_bytes() == old(self).stream_bytes() + record@.wire_bytes(),
            forall|fid: int, off: int|
                (0 <= fid <= old(self).active_file_id as int && 0 <= off && (
                #[trigger] parse_record(old(self).seg_contents(fid), off)) is Parsed && off
                    + parse_record(old(self).seg_contents(fid), off)->size <= old(
                    self,
                ).seg_contents(fid).len()) ==> parse_record(final(self).seg_contents(fid), off)
                    == parse_record(old(self).seg_contents(fid), off) && off + parse_record(
                    old(self).seg_contents(fid),
                    off,
                )->size <= final(self).seg_contents(fid).len(),
    {
        let offset: u64 = self.active_file.get_write_offset();
        let first_try = self.active_file.try_append(record);
        if first_try.is_ok() {
            let ptr = LogRecordPtr { file_id: self.active_file_id, offset };
            proof {
                Store::lemma_log_extend(*old(self), *self, record@);
            }
            ptr
        } else {
            // Rotation: the full active segment becomes read-only history
            // and a fresh segment takes its id plus one.
            let mut rotated: FileHandle = FileHandle::create(self.file_config);
            core::mem::swap(&mut self.active_file, &mut rotated);
            self.legacy_files.push(rotated);
            self.active_file_id = self.active_file_id + 1;
            let _second_try = self.active_file.try_append(record);
            let ptr = LogRecordPtr { file_id: self.active_file_id, offset: 0 };
            proof {
                Store::lemma_log_rotate(*old(self), *self, record@);
            }
            ptr
        }
    }

    /// Store `value` under `key`: append a data record, then point the index
    /// at it. An empty key is rejected and nothing changes.
    pub fn put(&mut self, key: Vec<u8>, value: Vec<u8>) -> (r: Result<LogRecordPtr, Errors>)
        requires
            old(self).wf(),
            key@.len() < 0x1_0000_0000,
            value@.len() < 0x1_0000_0000,
            13 + key@.len() + value@.len() < old(self).max_file_size_spec(),
            13 + key@.len() + value@.len() <= usize::MAX,
            old(self).active_id_spec() < u32::MAX,
        ensures
            final(self).wf(),
            final(self).same_config(*old(self)),
            final(self).batch_id_spec() == old(self).batch_id_spec(),
            final(self).max_file_size_spec() == old(self).max_file_size_spec(),
            final(self).max_batch_size_of() == old(self).max_batch_size_of(),
            final(self).index_type_spec() == old(self).index_type_spec(),
            final(self).active_id_spec() <= old(self).active_id_spec() + 1,
            key@.len() == 0 ==> r == Err::<LogRecordPtr, Errors>(Errors::KeyIsEmpty) && *final(self) == *old(self),
            key@.len() > 0 ==> {
                let rec = RecordModel::Data { key: key@, value: value@ };
                let p = r.unwrap();
                &&& r is Ok
                &&& final(self)@ == old(self)@.insert(key@, value@)
                &&& p.file_id == final(self).active_id_spec()
                &&& parse_record(final(self).seg_contents(p.file_id as int), p.offset as int)
                    == (ParseOutcome::Parsed {
                    rec,
                    size: 13 + key@.len() as int + value@.len() as int,
                })
                &&& p.offset + 13 + key@.len() + value@.len() <= final(self).seg_contents(
                    p.file_id as int,
                ).len()
                &&& forall|fid: int|
                    0 <= fid < old(self).active_id_spec() as int ==> final(self).seg_contents(fid)
                        == old(self).seg_contents(fid)
                &&& final(self).active_id_spec() == old(self).active_id_spec() ==> final(self).seg_contents(old(self).active_id_spec() as int) == old(self).seg_contents(
                    old(self).active_id_spec() as int,
                ) + rec.wire_bytes() && p.offset == old(self).seg_contents(
                    old(self).active_id_spec() as int,
                ).len()
                &&& final(self).active_id_spec() == old(self).active_id_spec() + 1 ==> final(self).seg_contents(old(self).active_id_spec() as int) == old(self).seg_contents(
                    old(self).active_id_spec() as int,
                ) && final(self).seg_contents(final(self).active_id_spec() as int)
                    == rec.wire_bytes() && p.offset == 0
                &&& final(self).stream_bytes() == old(self).stream_bytes() + rec.wire_bytes()
            },
    {
        if key.len() == 0 {
            return Err(Errors::KeyIsEmpty);
        }
        let ghost k = key@;
        let ghost val = value@;
        let record = LogRecord::Data { key: clone_bytes(&key), value };
        let ptr = self.log(&record);
        let ghost mid = *self;
        self.index.put(key, ptr);
        self.kv = Ghost(self.kv@.insert(k, val));
        proof {
            self.lemma_wf_after_insert(*old(self), k, val, ptr);
            assert forall|fid: int| true implies #[trigger] self.seg_contents(fid)
                == mid.seg_contents(fid) by {}
            Store::lemma_stream_prefix_congruence(
                *self,
                mid,
                self.active_file_id as int + 1,
            );
        }
        Ok(ptr)
    }

    /// The records already indexed survive an append plus one index update.
    proof fn lemma_wf_after_insert(
        self,
        pre: Store,
        k: Seq<u8>,
        val: Seq<u8>,
        ptr: LogRecordPtr,
    )
        requires
            pre.wf(),
            0 < k.len() < 0x1_0000_0000,
            val.len() < 0x1_0000_0000,
            self.index@ == pre.index@.insert(k, ptr),
            self.index.wf(),
            self.kv@ == pre.kv@.insert(k, val),
            self.legacy_files@.len() == self.active_file_id as int,
            self.active_file.offset_synced(),
            self.active_file.max_size() == pre.file_config.max_file_size,
            self.file_config == pre.file_config,
            ptr.file_id == self.active_file_id,
            pre.active_file_id <= self.active_file_id,
            self.data_record_at(ptr, k, val),
            forall|fid: int, off: int|
                (0 <= fid <= pre.active_file_id as int && 0 <= off && (
                #[trigger] parse_record(pre.seg_contents(fid), off)) is Parsed && off
                    + parse_record(pre.seg_contents(fid), off)->size <= pre.seg_contents(
                    fid,
                ).len()) ==> parse_record(self.seg_contents(fid), off) == parse_record(
                    pre.seg_contents(fid),
                    off,
                ) && off + parse_record(pre.seg_contents(fid), off)->size <= self.seg_contents(
                    fid,
                ).len(),
        ensures
            self.wf(),
    {
        assert(self.kv@.dom() =~= self.index@.dom());
        assert forall|k2: Seq<u8>| #[trigger] self.index@.contains_key(k2) implies {
            &&& self.index@[k2].file_id <= self.active_file_id
            &&& self.data_record_at(self.index@[k2], k2, self.kv@[k2])
            &&& 0 < k2.len() < 0x1_0000_0000
            &&& self.kv@[k2].len() < 0x1_0000_0000
        } by {
            if k2 != k {
                assert(pre.index@.contains_key(k2));
                let p2 = pre.index@[k2];
                assert(pre.data_record_at(p2, k2, pre.kv@[k2]));
                assert(parse_record(self.seg_contents(p2.file_id as int), p2.offset as int)
                    == parse_record(pre.seg_contents(p2.file_id as int), p2.offset as int));
            }
        }
    }

    /// Remove `key`: append a tombstone, then drop the index entry. An empty
    /// key and a missing key are rejected and nothing changes.
    pub fn delete(&mut self, key: Vec<u8>) -> (r: Result<LogRecordPtr, Errors>)
        requires
            old(self).wf(),
            key@.len() < 0x1_0000_0000,
            13 + key@.len() < old(self).max_file_size_spec(),
            13 + key@.len() <= usize::MAX,
            old(self).active_id_spec() < u32::MAX,
        ensures
            final(self).wf(),
            final(self).same_config(*old(self)),
            final(self).batch_id_spec() == old(self).batch_id_spec(),
            final(self).max_file_size_spec() == old(self).max_file_size_spec(),
            final(self).max_batch_size_of() == old(self).max_batch_size_of(),
            final(self).active_id_spec() <= old(self).active_id_spec() + 1,
            key@.len() == 0 ==> r == Err::<LogRecordPtr, Errors>(Errors::KeyIsEmpty) && *final(self) == *old(self),
            key@.len() > 0 && !old(self)@.contains_key(key@) ==> r == Err::<
                LogRecordPtr,
                Errors,
            >(Errors::KeyNotFound) && *final(self) == *old(self),
            old(self)@.contains_key(key@) ==> {
                let rec = RecordModel::Tomb { key: key@ };
                let p = r.unwrap();
                &&& r is Ok
                &&& final(self)@ == old(self)@.remove(key@)
                &&& p.file_id == final(self).active_id_spec()
                &&& parse_record(final(self).seg_contents(p.file_id as int), p.offset as int)
                    == (ParseOutcome::Parsed { rec, size: 9 + key@.len() as int })
                &&& p.offset + 9 + key@.len() <= final(self).seg_contents(p.file_id as int).len()
                &&& forall|fid: int|
                    0 <= fid < old(self).active_id_spec() as int ==> final(self).seg_contents(fid)
                        == old(self).seg_contents(fid)
                &&& final(self).active_id_spec() == old(self).active_id_spec() ==> final(self).seg_contents(old(self).active_id_spec() as int) == old(self).seg_contents(
                    old(self).active_id_spec() as int,
                ) + rec.wire_bytes() && p.offset == old(self).seg_contents(
                    old(self).active_id_spec() as int,
                ).len()
                &&& final(self).active_id_spec() == old(self).active_id_spec() + 1 ==> final(self).seg_contents(old(self).active_id_spec() as int) == old(self).seg_contents(
                    old(self).active_id_spec() as int,
                ) && final(self).seg_contents(final(self).active_id_spec() as int)
                    == rec.wire_bytes() && p.offset == 0
                &&& final(self).stream_bytes() == old(self).stream_bytes() + rec.wire_bytes()
            },
    {
        if key.len() == 0 {
            return Err(Errors::KeyIsEmpty);
        }
        let ghost k = key@;
        if self.index.get(clone_bytes(&key)).is_none() {
            return Err(Errors::KeyNotFound);
        }
        let record = LogRecord::Tomb { key: clone_bytes(&key) };
        let ptr = self.log(&record);
        let ghost mid = *self;
        self.index.delete(key);
        self.kv = Ghost(self.kv@.remove(k));
        proof {
            assert forall|fid: int| true implies #[trigger] self.seg_contents(fid)
                == mid.seg_contents(fid) by {}
            Store::lemma_stream_prefix_congruence(
                *self,
                mid,
                self.active_file_id as int + 1,
            );
            let pre = *old(self);
            assert(self.kv@.dom() =~= self.index@.dom());
            assert forall|k2: Seq<u8>| #[trigger] self.index@.contains_key(k2) implies {
                &&& self.index@[k2].file_id <= self.active_file_id
                &&& self.data_record_at(self.index@[k2], k2, self.kv@[k2])
                &&& 0 < k2.len() < 0x1_0000_0000
                &&& self.kv@[k2].len() < 0x1_0000_0000
            } by {
                assert(pre.index@.contains_key(k2));
                let p2 = pre.index@[k2];
                assert(pre.data_record_at(p2, k2, pre.kv@[k2]));
                assert(parse_record(self.seg_contents(p2.file_id as int), p2.offset as int)
                    == parse_record(pre.seg_contents(p2.file_id as int), p2.offset as int));
            }
        }
        Ok(ptr)
    }

    /// Read the value stored under `key`: follow the index pointer into its
    /// segment and decode the record there.
    pub fn get(&self, key: Vec<u8>) -> (r: Result<Vec<u8>, Errors>)
        requires
            self.wf(),
        ensures
            key@.len() == 0 ==> r == Err::<Vec<u8>, Errors>(Errors::KeyIsEmpty),
            key@.len() > 0 && !self@.contains_key(key@) ==> r == Err::<Vec<u8>, Errors>(
                Errors::KeyNotFound,
            ),
            self@.contains_key(key@) ==> r is Ok && r.unwrap()@ == self@[key@],
    {
        if key.len() == 0 {
            return Err(Errors::KeyIsEmpty);
        }
        let ghost k = key@;
        match self.index.get(key) {
            None => Err(Errors::KeyNotFound),
            Some(ptr) => {
                proof {
                    assert(self.index@.contains_key(k));
                    assert(self.data_record_at(ptr, k, self.kv@[k]));
                }
                let read = if ptr.file_id == self.active_file_id {
                    self.active_file.read_at_offset(ptr.offset)
                } else {
                    let fid: usize = ptr.file_id as usize;
                    self.legacy_files[fid].read_at_offset(ptr.offset)
                };
                match read {
                    Ok((LogRecord::Data { key: _, value }, _)) => Ok(value),
                    Ok((LogRecord::DataInBatch { value, .. }, _)) => Ok(value),
                    Ok((LogRecord::Tomb { .. }, _)) => Err(Errors::KeyNotFound),
                    Ok((LogRecord::TombInBatch { .. }, _)) => Err(Errors::KeyNotFound),
                    Ok((LogRecord::BatchDone { .. }, _)) => Err(Errors::KeyNotFound),
                    Err(e) => Err(e),
                }
            },
        }
    }

    /// Flush the active segment; the in-memory core has nothing pending.
    pub fn sync(&self) -> (r: Result<(), Errors>)
        ensures
            r is Ok,
    {
        self.active_file.sync()
    }

    /// Every live key in ascending byte-lexicographic order.
    pub fn list_keys(&self) -> (r: Vec<Vec<u8>>)
        requires
            self.wf(),
        ensures
            forall|i: int, j: int|
                0 <= i < j < r@.len() ==> lex_lt(#[trigger] r@[i]@, #[trigger] r@[j]@),
            forall|i: int| 0 <= i < r@.len() ==> self@.contains_key(#[trigger] r@[i]@),
            forall|k: Seq<u8>| #[trigger]
                self@.contains_key(k) ==> exists|i: int| 0 <= i < r@.len() && r@[i]@ == k,
    {
        proof {
            self.index.lemma_entry_seq_matches_view();
        }
        let ghost es = self.index.entry_seq();
        let mut it = self.index.iter_snapshot().make();
        let mut out: Vec<Vec<u8>> = Vec::new();
        #[verifier::loop_isolation(true)]
        loop
            invariant
                self.wf(),
                it.items_seq() == es,
                0 <= it.position() <= es.len(),
                out@.len() == it.position(),
                forall|i: int| 0 <= i < out@.len() ==> (#[trigger] out@[i])@ == es[i].0,
            ensures
                out@.len() == es.len(),
                forall|i: int| 0 <= i < out@.len() ==> (#[trigger] out@[i])@ == es[i].0,
            decreases es.len() - it.position(),
        {
            match it.next() {
                Some(e) => {
                    out.push(e.0);
                },
                None => {
                    break ;
                },
            }
        }
        proof {
            assert forall|k: Seq<u8>| #[trigger] self@.contains_key(k) implies exists|i: int|
                0 <= i < out@.len() && out@[i]@ == k by {
                assert(self.index@.contains_key(k));
                crate::index::lemma_find_some_exists(es, k);
                let i = choose|i: int| 0 <= i < es.len() && es[i].0 == k;
                assert(out@[i]@ == k);
            }
        }
        out
    }

    /// The configured cap on entries staged in one batch.
    pub closed spec fn max_batch_size_of(self) -> usize {
        self.batched_config.max_batch_size
    }

    /// A fresh handle for staging a batch of writes against this store.
    pub fn new_batched(&self) -> (r: BatchedWrite)
        ensures
            r.staged() == Seq::<(Seq<u8>, Option<Seq<u8>>)>::empty(),
            r.max_batch_size_spec() == self.max_batch_size_of(),
    {
        BatchedWrite::start(self.batched_config)
    }

    /// The record pointer the index holds for `key`, if any.
    pub fn index_ptr(&self, key: Vec<u8>) -> (r: Option<LogRecordPtr>)
        requires
            self.wf(),
        ensures
            r == if self.index_map().contains_key(key@) {
                Some(self.index_map()[key@])
            } else {
                None::<LogRecordPtr>
            },
    {
        self.index.get(key)
    }

    /// The batch id the next commit will use.
    pub fn cur_batch_id(&self) -> (r: u64)
        ensures
            r == self.batch_id_spec(),
    {
        self.batch_id
    }
}

} // verus!
// Recovery: scanning a segment's bytes yields its records in order, and
// replaying all records through the batch state machine rebuilds the index.
// Only fully committed batches contribute; a batch with no end marker
// leaves no trace.

verus! {

/// What scanning a segment from an offset finds.
pub enum SegScan {
    /// Records up to a clean end of stream, each with its offset, and the
    /// offset the scan stopped at.
    Done { entries: Seq<(int, RecordModel)>, end: int },
    /// A record claims more bytes than the segment holds.
    Overrun { at: int, size: int },
    /// A record failed to decode.
    Fail { at: int, outcome: ParseOutcome },
}

/// Scan a segment from `off`: decode records until a clean end of stream, a
/// decode failure, or a record running past the segment's end.
pub open spec fn scan_seg(buf: Seq<u8>, off: int) -> SegScan
    decreases buf.len() - off
        when 0 <= off <= buf.len()
{
    match parse_record(buf, off) {
        ParseOutcome::Eof => SegScan::Done { entries: Seq::empty(), end: off },
        ParseOutcome::Parsed { rec, size } => {
            if off + size <= buf.len() {
                match scan_seg(buf, off + size) {
                    SegScan::Done { entries, end } => SegScan::Done {
                        entries: seq![(off, rec)] + entries,
                        end,
                    },
                    other => other,
                }
            } else {
                SegScan::Overrun { at: off, size }
            }
        },
        outcome => SegScan::Fail { at: off, outcome },
    }
}

/// Prepend already-scanned entries to a scan result.
pub open spec fn splice(acc: Seq<(int, RecordModel)>, sr: SegScan) -> SegScan {
    match sr {
        SegScan::Done { entries, end } => SegScan::Done { entries: acc + entries, end },
        other => other,
    }
}

/// No scanned record carries an empty key; end markers carry none.
pub open spec fn entries_keys_ok(es: Seq<(int, RecordModel)>) -> bool {
    forall|i: int|
        0 <= i < es.len() ==> ((#[trigger] es[i].1) is BatchDone || es[i].1.key().len() > 0)
}

/// The state of the recovery machine: the index built so far, the batch
/// currently open, its staged mutations, and the newest batch id seen.
pub struct ReplayState {
    pub idx: Map<Seq<u8>, LogRecordPtr>,
    pub cur_batch: Option<u64>,
    pub staging: Seq<(Seq<u8>, Option<LogRecordPtr>)>,
    pub newest: u64,
}

/// Recovery starts with nothing indexed and no batch open.
pub open spec fn replay_init() -> ReplayState {
    ReplayState { idx: Map::empty(), cur_batch: None, staging: Seq::empty(), newest: 0 }
}

/// One recovery transition. A plain record lands in the index at once and
/// closes any open batch unapplied; an in-batch record only stages; an end
/// marker applies the staging of exactly the batch it closes.
pub open spec fn replay_step(st: ReplayState, ptr: LogRecordPtr, rec: RecordModel) -> ReplayState {
    match rec {
        RecordModel::Data { key, .. } => ReplayState {
            idx: st.idx.insert(key, ptr),
            cur_batch: None,
            staging: Seq::empty(),
            newest: st.newest,
        },
        RecordModel::Tomb { key } => ReplayState {
            idx: st.idx.remove(key),
            cur_batch: None,
            staging: Seq::empty(),
            newest: st.newest,
        },
        RecordModel::DataInBatch { batch_id, key, .. } => {
            let staging0 = if st.cur_batch == Some(batch_id) {
                st.staging
            } else {
                Seq::empty()
            };
            ReplayState {
                idx: st.idx,
                cur_batch: Some(batch_id),
                staging: stage_set(staging0, key, Some(ptr)),
                newest: if st.newest >= batch_id {
                    st.newest
                } else {
                    batch_id
                },
            }
        },
        RecordModel::TombInBatch { batch_id, key } => {
            let staging0 = if st.cur_batch == Some(batch_id) {
                st.staging
            } else {
                Seq::empty()
            };
            ReplayState {
                idx: st.idx,
                cur_batch: Some(batch_id),
                staging: stage_set(staging0, key, None),
                newest: if st.newest >= batch_id {
                    st.newest
                } else {
                    batch_id
                },
            }
        },
        RecordModel::BatchDone { batch_id } => ReplayState {
            idx: if st.cur_batch == Some(batch_id) {
                apply_staged(st.idx, st.staging)
            } else {
                st.idx
            },
            cur_batch: None,
            staging: Seq::empty(),
            newest: if st.newest >= batch_id {
                st.newest
            } else {
                batch_id
            },
        },
    }
}

/// Replay records through the machine, first to last.
pub open spec fn replay_from(st: ReplayState, es: Seq<(LogRecordPtr, RecordModel)>) -> ReplayState
    decreases es.len(),
{
    if es.len() == 0 {
        st
    } else {
        replay_from(replay_step(st, es[0].0, es[0].1), es.skip(1))
    }
}

/// Replay a whole record stream from the initial state.
pub open spec fn replay(es: Seq<(LogRecordPtr, RecordModel)>) -> ReplayState {
    replay_from(replay_init(), es)
}

pub proof fn lemma_replay_snoc(
    st: ReplayState,
    es: Seq<(LogRecordPtr, RecordModel)>,
    e: (LogRecordPtr, RecordModel),
)
    ensures
        replay_from(st, es.push(e)) == replay_step(replay_from(st, es), e.0, e.1),
    decreases es.len(),
{
    let s2 = es.push(e);
    if es.len() == 0 {
        assert(s2[0] == e);
        assert(s2.skip(1) =~= Seq::<(LogRecordPtr, RecordModel)>::empty());
        assert(replay_from(replay_step(st, e.0, e.1), Seq::<(LogRecordPtr, RecordModel)>::empty())
            == replay_step(st, e.0, e.1));
    } else {
        lemma_replay_snoc(replay_step(st, es[0].0, es[0].1), es.skip(1), e);
        assert(s2[0] == es[0]);
        assert(s2.skip(1) =~= es.skip(1).push(e));
    }
}

/// The scanned entries of one segment as records with full pointers.
pub open spec fn file_entries(fid: u32, es: Seq<(int, RecordModel)>) -> Seq<
    (LogRecordPtr, RecordModel),
> {
    Seq::new(es.len(), |i: int| (LogRecordPtr { file_id: fid, offset: es[i].0 as u64 }, es[i].1))
}

/// The deep view of a segment list.
pub open spec fn segs_deep(v: Seq<Vec<u8>>) -> Seq<Seq<u8>> {
    Seq::new(v.len(), |i: int| v[i]@)
}

/// Every segment scans to a clean end of stream.
pub open spec fn segs_clean(segs: Seq<Seq<u8>>) -> bool {
    forall|fid: int| 0 <= fid < segs.len() ==> (#[trigger] scan_seg(segs[fid], 0)) is Done
}

/// The records of every segment in segment order, with their pointers.
pub open spec fn all_entries(segs: Seq<Seq<u8>>) -> Seq<(LogRecordPtr, RecordModel)>
    decreases segs.len(),
{
    if segs.len() == 0 {
        Seq::empty()
    } else {
        all_entries(segs.drop_last()) + file_entries(
            (segs.len() - 1) as u32,
            scan_seg(segs.last(), 0)->entries,
        )
    }
}

/// A CRC-valid data record for key `k` spans `[off, bound)` bytes of `buf`.
pub open spec fn keyed_data_at(buf: Seq<u8>, off: int, k: Seq<u8>, bound: int) -> bool {
    match parse_record(buf, off) {
        ParseOutcome::Parsed { rec, size } => {
            &&& 0 <= off
            &&& off + size <= bound
            &&& match rec {
                RecordModel::Data { key, .. } => key == k,
                RecordModel::DataInBatch { key, .. } => key == k,
                _ => false,
            }
            &&& 0 < k.len() < 0x1_0000_0000
            &&& data_value(rec).len() < 0x1_0000_0000
        },
        _ => false,
    }
}

/// The value a data record carries.
pub open spec fn data_value(rec: RecordModel) -> Seq<u8> {
    match rec {
        RecordModel::Data { value, .. } => value,
        RecordModel::DataInBatch { value, .. } => value,
        _ => Seq::empty(),
    }
}

impl Store {
    /// Drive the recovery machine over one segment: index plain records at
    /// once, stage in-batch records, and apply a batch's staging when its
    /// end marker arrives. Returns the offset of the clean end of stream.
    #[verifier::rlimit(100)]
    #[verifier::spinoff_prover]
    pub fn update_index_on_file(
        file: &FileHandle,
        file_id: u32,
        index: &mut BTreeIndex,
        cur_batch_id: &mut Option<u64>,
        newest_batch_id: &mut u64,
        batched_index: &mut BatchedIndex,
    ) -> (r: Result<u64, Errors>)
        requires
            old(index).wf(),
        ensures
            final(index).wf(),
            scan_seg(file.contents(), 0) is Done && entries_keys_ok(
                scan_seg(file.contents(), 0)->entries,
            ) <==> r is Ok,
            r is Ok ==> {
                let entries = scan_seg(file.contents(), 0)->entries;
                let st0 = ReplayState {
                    idx: old(index)@,
                    cur_batch: *old(cur_batch_id),
                    staging: old(batched_index)@,
                    newest: *old(newest_batch_id),
                };
                let st1 = replay_from(st0, file_entries(file_id, entries));
                &&& r.unwrap() as int == scan_seg(file.contents(), 0)->end
                &&& r.unwrap() <= file.contents().len()
                &&& final(index)@ == st1.idx
                &&& *final(cur_batch_id) == st1.cur_batch
                &&& final(batched_index)@ == st1.staging
                &&& *final(newest_batch_id) == st1.newest
                &&& forall|k: Seq<u8>| #[trigger]
                    final(index)@.contains_key(k) ==> (old(index)@.contains_key(k) && old(
                        index,
                    )@[k] == final(index)@[k]) || old(batched_index)@.contains(
                        (k, Some(final(index)@[k])),
                    ) || (final(index)@[k].file_id == file_id && keyed_data_at(
                        file.contents(),
                        final(index)@[k].offset as int,
                        k,
                        r.unwrap() as int,
                    ))
                &&& forall|j: int|
                    0 <= j < final(batched_index)@.len() ==> match (
                    #[trigger] final(batched_index)@[j]).1 {
                        Some(p) => old(batched_index)@.contains(final(batched_index)@[j]) || (
                        p.file_id == file_id && keyed_data_at(
                            file.contents(),
                            p.offset as int,
                            final(batched_index)@[j].0,
                            r.unwrap() as int,
                        )),
                        None => true,
                    }
            },
    {
        let ghost buf = file.contents();
        let ghost st0 = ReplayState {
            idx: old(index)@,
            cur_batch: *old(cur_batch_id),
            staging: old(batched_index)@,
            newest: *old(newest_batch_id),
        };
        let file_len: u64 = file.size();
        let mut offset: u64 = 0;
        let ghost mut done: Seq<(int, RecordModel)> = Seq::empty();
        proof {
            assert(splice(done, scan_seg(buf, 0)) == scan_seg(buf, 0)) by {
                match scan_seg(buf, 0) {
                    SegScan::Done { entries, end } => {
                        assert(done + entries =~= entries);
                    },
                    _ => {},
                }
            }
            assert(file_entries(file_id, done) =~= Seq::<(LogRecordPtr, RecordModel)>::empty());
        }
        loop
            invariant
                index.wf(),
                0 <= offset <= file_len,
                file_len == buf.len(),
                splice(done, scan_seg(buf, offset as int)) == scan_seg(buf, 0),
                entries_keys_ok(done),
                (ReplayState {
                    idx: index@,
                    cur_batch: *cur_batch_id,
                    staging: batched_index@,
                    newest: *newest_batch_id,
                }) == replay_from(st0, file_entries(file_id, done)),
                forall|k: Seq<u8>| #[trigger]
                    index@.contains_key(k) ==> (st0.idx.contains_key(k) && st0.idx[k] == index@[k])
                        || st0.staging.contains((k, Some(index@[k]))) || (index@[k].file_id
                        == file_id && keyed_data_at(
                        buf,
                        index@[k].offset as int,
                        k,
                        offset as int,
                    )),
                forall|j: int|
                    0 <= j < batched_index@.len() ==> match (#[trigger] batched_index@[j]).1 {
                        Some(p) => st0.staging.contains(batched_index@[j]) || (p.file_id == file_id
                            && keyed_data_at(
                            buf,
                            p.offset as int,
                            batched_index@[j].0,
                            offset as int,
                        )),
                        None => true,
                    },
            decreases buf.len() - offset,
        {
            let ghost done_pre = done;
            let ghost st_pre = ReplayState {
                idx: index@,
                cur_batch: *cur_batch_id,
                staging: batched_index@,
                newest: *newest_batch_id,
            };
            match file.read_at_offset(offset) {
                Err(e) => {
                    if let Errors::Eof = e {
                        proof {
                            assert(scan_seg(buf, offset as int) == (SegScan::Done {
                                entries: Seq::<(int, RecordModel)>::empty(),
                                end: offset as int,
                            }));
                            assert(done + Seq::<(int, RecordModel)>::empty() =~= done);
                        }
                        return Ok(offset);
                    }
                    return Err(e);
                },
                Ok((record, size)) => {
                    proof {
                        crate::records::lemma_parse_size_positive(buf, offset as int);
                        crate::records::lemma_parse_rec_bounds(buf, offset as int);
                    }
                    if record.key_is_empty() {
                        proof {
                            match scan_seg(buf, offset as int) {
                                SegScan::Done { entries, end } => {
                                    assert(entries[0] == (offset as int, record@));
                                    match scan_seg(buf, 0) {
                                        SegScan::Done { entries: all, end: e2 } => {
                                            assert(all == done + entries);
                                            assert(all.len() == done.len() + entries.len());
                                            assert(all[done.len() as int] == (
                                            offset as int,
                                            record@,
                                            ));
                                            assert(!(all[done.len() as int].1 is BatchDone)
                                                && all[done.len() as int].1.key().len() == 0);
                                            assert(!entries_keys_ok(all));
                                        },
                                        _ => {},
                                    }
                                },
                                _ => {},
                            }
                        }
                        return Err(Errors::KeyIsEmpty);
                    }
                    if offset as u128 + size as u128 > file_len as u128 {
                        return Err(
                            Errors::BinarySizeMismatch {
                                expected: size as u32,
                                got: (file_len - offset) as u32,
                            },
                        );
                    }
                    let ptr = LogRecordPtr { file_id, offset };
                    let ghost rec = record@;
                    proof {
                        done = done_pre.push((offset as int, rec));
                        assert(file_entries(file_id, done) =~= file_entries(
                            file_id,
                            done_pre,
                        ).push((ptr, rec)));
                        lemma_replay_snoc(st0, file_entries(file_id, done_pre), (ptr, rec));
                        // The scan takes exactly this record next.
                        let tail = scan_seg(buf, offset as int + size as int);
                        assert(scan_seg(buf, offset as int) == splice(
                            seq![(offset as int, rec)],
                            tail,
                        )) by {
                            match tail {
                                SegScan::Done { entries, end } => {
                                    assert(seq![(offset as int, rec)] + entries
                                        =~= seq![(offset as int, rec)] + entries);
                                },
                                _ => {},
                            }
                        }
                        assert(splice(done, tail) == scan_seg(buf, 0)) by {
                            match tail {
                                SegScan::Done { entries, end } => {
                                    assert(done_pre + (seq![(offset as int, rec)] + entries)
                                        =~= done + entries);
                                },
                                _ => {},
                            }
                        }
                    }
                    match record {
                        LogRecord::Data { key, value: _ } => {
                            index.put(key, ptr);
                            *cur_batch_id = None;
                            batched_index.reset();
                        },
                        LogRecord::Tomb { key } => {
                            index.delete(key);
                            *cur_batch_id = None;
                            batched_index.reset();
                        },
                        LogRecord::DataInBatch { batch_id, key, value: _ } => {
                            let stale: bool = match cur_batch_id {
                                Some(cur) => *cur != batch_id,
                                None => true,
                            };
                            if stale {
                                *cur_batch_id = Some(batch_id);
                                batched_index.reset();
                            }
                            batched_index.mark_put(key, ptr);
                            if batch_id > *newest_batch_id {
                                *newest_batch_id = batch_id;
                            }
                            proof {
                                crate::batched::lemma_stage_set_elems(
                                    if st_pre.cur_batch == Some(rec->DataInBatch_batch_id) {
                                        st_pre.staging
                                    } else {
                                        Seq::<(Seq<u8>, Option<LogRecordPtr>)>::empty()
                                    },
                                    rec.key(),
                                    Some(ptr),
                                );
                            }
                        },
                        LogRecord::TombInBatch { batch_id, key } => {
                            let stale: bool = match cur_batch_id {
                                Some(cur) => *cur != batch_id,
                                None => true,
                            };
                            if stale {
                                *cur_batch_id = Some(batch_id);
                                batched_index.reset();
                            }
                            batched_index.mark_delete(key);
                            if batch_id > *newest_batch_id {
                                *newest_batch_id = batch_id;
                            }
                            proof {
                                crate::batched::lemma_stage_set_elems(
                                    if st_pre.cur_batch == Some(rec->TombInBatch_batch_id) {
                                        st_pre.staging
                                    } else {
                                        Seq::<(Seq<u8>, Option<LogRecordPtr>)>::empty()
                                    },
                                    rec.key(),
                                    None::<LogRecordPtr>,
                                );
                            }
                        },
                        LogRecord::BatchDone { batch_id } => {
                            let matches_cur: bool = match cur_batch_id {
                                Some(cur) => *cur == batch_id,
                                None => false,
                            };
                            if matches_cur {
                                batched_index.commit(index);
                            }
                            *cur_batch_id = None;
                            batched_index.reset();
                            if batch_id > *newest_batch_id {
                                *newest_batch_id = batch_id;
                            }
                            proof {
                                if st_pre.cur_batch == Some(rec->BatchDone_batch_id) {
                                    crate::batched::lemma_apply_staged_elems(
                                        st_pre.idx,
                                        st_pre.staging,
                                    );
                                }
                            }
                        },
                    }
                    offset = offset + size;
                },
            }
        }
    }
}

} // verus!
// Opening a store: build one segment handle per byte buffer, scan them all
// through the recovery machine, and place the write offset at the active
// segment's clean end of stream.

verus! {

/// Every scanned segment passes the key check.
pub open spec fn segs_keys_ok(segs: Seq<Seq<u8>>) -> bool {
    forall|fid: int|
        0 <= fid < segs.len() ==> entries_keys_ok((#[trigger] scan_seg(segs[fid], 0))->entries)
}

/// A clean scan stops inside the segment, never before its start.
pub proof fn lemma_scan_end_bound(buf: Seq<u8>, off: int)
    requires
        0 <= off <= buf.len(),
        scan_seg(buf, off) is Done,
    ensures
        off <= scan_seg(buf, off)->end <= buf.len(),
    decreases buf.len() - off,
{
    match parse_record(buf, off) {
        ParseOutcome::Eof => {},
        ParseOutcome::Parsed { rec, size } => {
            if off + size <= buf.len() {
                crate::records::lemma_parse_size_positive(buf, off);
                lemma_scan_end_bound(buf, off + size);
            }
        },
        _ => {},
    }
}

pub proof fn lemma_replay_append(
    st: ReplayState,
    a: Seq<(LogRecordPtr, RecordModel)>,
    b: Seq<(LogRecordPtr, RecordModel)>,
)
    ensures
        replay_from(st, a + b) == replay_from(replay_from(st, a), b),
    decreases a.len(),
{
    if a.len() == 0 {
        assert(a + b =~= b);
    } else {
        lemma_replay_append(replay_step(st, a[0].0, a[0].1), a.skip(1), b);
        assert((a + b)[0] == a[0]);
        assert((a + b).skip(1) =~= a.skip(1) + b);
    }
}

impl Store {
    /// A fresh store: one empty active segment, nothing indexed.
    fn open_empty(
        store_config: StoreConfig,
        file_config: FileConfig,
        batched_config: BatchedConfig,
    ) -> (r: Store)
        ensures
            r.wf(),
            r@ == Map::<Seq<u8>, Seq<u8>>::empty(),
            r.batch_id_spec() == 0,
            r.active_id_spec() == 0,
            r.stream_bytes() == Seq::<u8>::empty(),
            r.max_file_size_spec() == file_config.max_file_size,
            r.max_batch_size_of() == batched_config.max_batch_size,
    {
        let index = store_config.index_type.create_index();
        let store = Store {
            store_config,
            file_config,
            batched_config,
            index,
            active_file: FileHandle::create(file_config),
            active_file_id: 0,
            legacy_files: Vec::new(),
            batch_id: 0,
            kv: Ghost(Map::empty()),
        };
        proof {
            assert(store.kv@.dom() =~= store.index@.dom());
            assert(store.stream_prefix(0) =~= Seq::<u8>::empty());
            assert(store.seg_contents(0) =~= Seq::<u8>::empty());
            assert(store.stream_bytes() =~= Seq::<u8>::empty());
        }
        store
    }

    /// Open a store over the given segment contents, oldest first; an empty
    /// list starts a fresh store. Recovery scans every segment in order,
    /// admits only fully committed batches into the index, sets the batch
    /// counter past the newest batch id seen, and places the write offset at
    /// the active segment's clean end of stream, discarding what follows it.
    #[verifier::rlimit(100)]
    #[verifier::spinoff_prover]
    pub fn open(
        store_config: StoreConfig,
        file_config: FileConfig,
        batched_config: BatchedConfig,
        segments: Vec<Vec<u8>>,
    ) -> (r: Result<Store, Errors>)
        requires
            segments@.len() <= 0x1_0000_0000,
        ensures
            segments@.len() == 0 ==> r is Ok && {
                let s = r.unwrap();
                &&& s.wf()
                &&& s@ == Map::<Seq<u8>, Seq<u8>>::empty()
                &&& s.batch_id_spec() == 0
                &&& s.active_id_spec() == 0
                &&& s.stream_bytes() == Seq::<u8>::empty()
                &&& s.max_file_size_spec() == file_config.max_file_size
                &&& s.max_batch_size_of() == batched_config.max_batch_size
            },
            segments@.len() > 0 ==> {
                let segs = segs_deep(segments@);
                &&& (r is Ok <==> segs_clean(segs) && segs_keys_ok(segs))
                &&& r is Ok ==> {
                    let s = r.unwrap();
                    let st = replay(all_entries(segs));
                    &&& s.wf()
                    &&& s.index_map() == st.idx
                    &&& s@.dom() == st.idx.dom()
                    &&& s.batch_id_spec() == if st.newest == u64::MAX {
                        u64::MAX
                    } else {
                        (st.newest + 1) as u64
                    }
                    &&& s.active_id_spec() as int == segs.len() - 1
                    &&& s.max_file_size_spec() == file_config.max_file_size
                    &&& s.max_batch_size_of() == batched_config.max_batch_size
                }
            },
    {
        let ghost segs = segs_deep(segments@);
        if segments.len() == 0 {
            return Ok(Store::open_empty(store_config, file_config, batched_config));
        }
        let total: usize = segments.len();
        let mut rest: Vec<Vec<u8>> = segments;
        let mut files: Vec<FileHandle> = Vec::new();
        let mut i: usize = 0;
        while i < total
            invariant
                0 <= i <= total,
                rest@.len() == total - i,
                files@.len() == i,
                forall|j: int| 0 <= j < rest@.len() ==> (#[trigger] rest@[j])@ == segs[i + j],
                forall|j: int|
                    0 <= j < i ==> (#[trigger] files@[j]).contents() == segs[j]
                        && files@[j].max_size() == file_config.max_file_size,
            decreases total - i,
        {
            let seg: Vec<u8> = rest.remove(0);
            files.push(FileHandle::open(seg, file_config));
            i = i + 1;
        }
        let mut index = store_config.index_type.create_index();
        let mut cur_batch_id: Option<u64> = None;
        let mut newest_batch_id: u64 = 0;
        let mut staging = BatchedIndex::new();
        let ghost mut processed: Seq<(LogRecordPtr, RecordModel)> = Seq::empty();
        let mut last_end: u64 = 0;
        let mut fid: usize = 0;
        proof {
            assert(all_entries(segs.take(0)) =~= Seq::<(LogRecordPtr, RecordModel)>::empty());
        }
        while fid < total
            invariant
                0 <= fid <= total,
                index.wf(),
                forall|j: int|
                    0 <= j < fid ==> (#[trigger] scan_seg(segs[j], 0)) is Done && entries_keys_ok(
                        scan_seg(segs[j], 0)->entries,
                    ),
                processed == all_entries(segs.take(fid as int)),
                (ReplayState {
                    idx: index@,
                    cur_batch: cur_batch_id,
                    staging: staging@,
                    newest: newest_batch_id,
                }) == replay_from(replay_init(), processed),
                forall|k: Seq<u8>| #[trigger]
                    index@.contains_key(k) ==> {
                        &&& index@[k].file_id < fid
                        &&& keyed_data_at(
                            segs[index@[k].file_id as int],
                            index@[k].offset as int,
                            k,
                            scan_seg(segs[index@[k].file_id as int], 0)->end,
                        )
                    },
                forall|j: int|
                    0 <= j < staging@.len() ==> match (#[trigger] staging@[j]).1 {
                        Some(p) => p.file_id < fid && keyed_data_at(
                            segs[p.file_id as int],
                            p.offset as int,
                            staging@[j].0,
                            scan_seg(segs[p.file_id as int], 0)->end,
                        ),
                        None => true,
                    },
                fid == total ==> fid > 0 && last_end as int == scan_seg(
                    segs[fid - 1],
                    0,
                )->end && last_end <= segs[fid - 1].len(),
            decreases total - fid,
        {
            let outcome = Store::update_index_on_file(
                &files[fid],
                fid as u32,
                &mut index,
                &mut cur_batch_id,
                &mut newest_batch_id,
                &mut staging,
            );
            match outcome {
                Err(e) => {
                    proof {
                        if !(scan_seg(segs[fid as int], 0) is Done) {
                            assert(!segs_clean(segs));
                        } else {
                            assert(!segs_keys_ok(segs));
                        }
                    }
                    return Err(e);
                },
                Ok(end) => {
                    last_end = end;
                    proof {
                        let entries = scan_seg(segs[fid as int], 0)->entries;
                        let st_before = replay_from(replay_init(), processed);
                        lemma_replay_append(
                            replay_init(),
                            processed,
                            file_entries(fid as u32, entries),
                        );
                        processed = processed + file_entries(fid as u32, entries);
                        assert(all_entries(segs.take(fid + 1)) =~= all_entries(
                            segs.take(fid as int),
                        ) + file_entries(fid as u32, entries)) by {
                            assert(segs.take(fid + 1).drop_last() =~= segs.take(fid as int));
                            assert(segs.take(fid + 1).last() == segs[fid as int]);
                        }
                    }
                    fid = fid + 1;
                },
            }
        }
        let active_id: u32 = (total - 1) as u32;
        let mut active_file: FileHandle = match files.pop() {
            Some(f) => f,
            None => FileHandle::create(file_config),
        };
        active_file.truncate_to(last_end);
        active_file.set_write_offset(last_end);
        let batch_id: u64 = if newest_batch_id == u64::MAX {
            u64::MAX
        } else {
            newest_batch_id + 1
        };
        let ghost kvm = Map::<Seq<u8>, Seq<u8>>::new(
            |k: Seq<u8>| index@.contains_key(k),
            |k: Seq<u8>|
                {
                    let p = index@[k];
                    let c = if (p.file_id as int) < total - 1 {
                        segs[p.file_id as int]
                    } else {
                        segs[total - 1].take(last_end as int)
                    };
                    data_value(parse_record(c, p.offset as int)->rec)
                },
        );
        let store = Store {
            store_config,
            file_config,
            batched_config,
            index,
            active_file,
            active_file_id: active_id,
            legacy_files: files,
            batch_id,
            kv: Ghost(kvm),
        };
        proof {
            assert(segs.take(total as int) =~= segs);
            assert(store.kv@.dom() =~= store.index@.dom());
            assert(store.active_file.contents() =~= segs[total - 1].take(last_end as int));
            assert forall|k: Seq<u8>| #[trigger] store.index@.contains_key(k) implies {
                &&& store.index@[k].file_id <= store.active_file_id
                &&& store.data_record_at(store.index@[k], k, store.kv@[k])
                &&& 0 < k.len() < 0x1_0000_0000
                &&& store.kv@[k].len() < 0x1_0000_0000
            } by {
                let p = store.index@[k];
                let full = segs[p.file_id as int];
                let bound = scan_seg(full, 0)->end;
                assert(keyed_data_at(full, p.offset as int, k, bound));
                lemma_scan_end_bound(full, 0);
                if (p.file_id as int) < total - 1 {
                    assert(store.legacy_files@[p.file_id as int].contents() == full);
                    assert(store.seg_contents(p.file_id as int) == full);
                }
                if p.file_id as int == total - 1 {
                    let truncated = segs[total - 1].take(last_end as int);
                    let rec = parse_record(full, p.offset as int)->rec;
                    let size = parse_record(full, p.offset as int)->size;
                    assert forall|m: int|
                        p.offset as int <= m < p.offset as int + size implies #[trigger] crate::records::byte_at(
                        truncated,
                        m,
                    ) == crate::records::byte_at(full, m) by {
                        assert(truncated[m] == full[m]);
                    }
                    crate::records::lemma_parse_depends_on_window(
                        full,
                        truncated,
                        p.offset as int,
                        rec,
                        size,
                    );
                }
            }
            assert(segs_clean(segs));
            assert(segs_keys_ok(segs));
        }
        Ok(store)
    }

    /// The index as a map from keys to record pointers.
    pub closed spec fn index_map(self) -> Map<Seq<u8>, LogRecordPtr> {
        self.index@
    }

    /// Which index implementation the store was configured with.
    pub closed spec fn index_type_spec(self) -> IndexType {
        self.store_config.index_type
    }

    /// Every index entry names a live key of the logical map, and every
    /// live key fits the wire format.
    pub(crate) proof fn lemma_entries_live(self)
        requires
            self.wf(),
        ensures
            self.entry_seq() == self.index.entry_seq(),
            self.index.wf(),
            self.key_count() == self.entry_seq().len(),
            forall|i: int|
                0 <= i < self.entry_seq().len() ==> self@.contains_key(
                    #[trigger] self.entry_seq()[i].0,
                ),
            forall|k: Seq<u8>| #[trigger]
                self@.contains_key(k) ==> 0 < k.len() < 0x1_0000_0000 && self@[k].len()
                    < 0x1_0000_0000,
            forall|k: Seq<u8>| #[trigger]
                self@.contains_key(k) ==> exists|i: int|
                    0 <= i < self.entry_seq().len() && self.entry_seq()[i].0 == k,
    {
        self.index.lemma_entry_seq_matches_view();
        assert forall|k: Seq<u8>| #[trigger] self@.contains_key(k) implies exists|i: int|
            0 <= i < self.entry_seq().len() && self.entry_seq()[i].0 == k by {
            assert(self.index@.contains_key(k));
            assert(crate::index::entries_map(self.index.entry_seq()).contains_key(k));
            crate::index::lemma_find_some_exists(self.index.entry_seq(), k);
            let i = choose|i: int|
                0 <= i < self.index.entry_seq().len() && (#[trigger] self.index.entry_seq()[i].0)
                    == k;
            assert(self.entry_seq()[i].0 == k);
        }
    }

    /// A copy of every segment's bytes, oldest first, active segment last:
    /// what `open` takes to rebuild this store.
    pub fn export_segments(&self) -> (r: Vec<Vec<u8>>)
        requires
            self.wf(),
        ensures
            r@.len() == self.active_id_spec() + 1,
            segs_deep(r@) =~= Seq::new(
                (self.active_id_spec() + 1) as nat,
                |fid: int| self.seg_contents(fid),
            ),
    {
        let mut out: Vec<Vec<u8>> = Vec::new();
        let n: usize = self.legacy_files.len();
        let mut i: usize = 0;
        while i < n
            invariant
                0 <= i <= n,
                n == self.legacy_files@.len(),
                out@.len() == i,
                forall|j: int| 0 <= j < i ==> (#[trigger] out@[j])@ == self.seg_contents(j),
            decreases n - i,
        {
            out.push(self.legacy_files[i].contents_vec());
            i = i + 1;
        }
        out.push(self.active_file.contents_vec());
        proof {
            assert(segs_deep(out@) =~= Seq::new(
                (self.active_id_spec() + 1) as nat,
                |fid: int| self.seg_contents(fid),
            ));
        }
        out
    }

    /// The active segment id, as the field the embedding shell mirrors.
    pub(crate) proof fn lemma_active_id(self)
        ensures
            self.active_id_spec() == self.active_file_id,
    {
    }

    /// A copy of the store's configuration sections, for a sibling store.
    pub(crate) fn clone_store_config(&self) -> (r: StoreConfig)
        ensures
            r.dir@ == self.store_config.dir@,
            r.sync_every_write == self.store_config.sync_every_write,
            r.index_type == self.index_type_spec(),
    {
        StoreConfig {
            dir: clone_bytes(&self.store_config.dir),
            sync_every_write: self.store_config.sync_every_write,
            index_type: self.store_config.index_type,
        }
    }

    /// A copy of the segment-file configuration.
    pub(crate) fn clone_file_config(&self) -> (r: FileConfig)
        ensures
            r.max_file_size == self.max_file_size_spec(),
    {
        FileConfig { max_file_size: self.file_config.max_file_size }
    }

    /// A copy of the batch configuration.
    pub(crate) fn clone_batched_config(&self) -> (r: BatchedConfig)
        ensures
            r.max_batch_size == self.max_batch_size_of(),
    {
        BatchedConfig {
            max_batch_size: self.batched_config.max_batch_size,
            sync_every_write: self.batched_config.sync_every_write,
        }
    }
}

} // verus!
// Committing a batch: all staged records are appended with one fresh batch
// id, then the end marker; only after that does the staging reach the index.

verus! {

impl Store {
    /// Append every staged record under one fresh batch id, then the batch's
    /// end marker, and only then fold the staged mutations into the index.
    #[verifier::rlimit(100)]
    #[verifier::spinoff_prover]
    pub(crate) fn commit_batch(&mut self, staged: &Vec<BatchedLogRecord>) -> (r: Result<
        (),
        Errors,
    >)
        requires
            old(self).wf(),
            old(self).batch_id_spec() < u64::MAX,
            old(self).active_id_spec() as int + staged@.len() + 1 < u32::MAX,
            13 < old(self).max_file_size_spec(),
            forall|i: int|
                0 <= i < staged@.len() ==> crate::batched::staged_fits(
                    #[trigger] crate::batched::staged_view(staged@)[i],
                    old(self).max_file_size_spec(),
                ) && crate::batched::staged_view(staged@)[i].0.len() + 21 + match crate::batched::staged_view(
                    staged@,
                )[i].1 {
                    Some(v) => v.len(),
                    None => 0,
                } <= usize::MAX,
        ensures
            r is Ok,
            final(self).wf(),
            final(self).same_config(*old(self)),
            final(self).batch_id_spec() == old(self).batch_id_spec() + 1,
            final(self)@ == crate::batched::apply_staged_kv(
                old(self)@,
                crate::batched::staged_view(staged@),
            ),
            final(self).stream_bytes() == old(self).stream_bytes()
                + crate::batched::batch_records_bytes(
                crate::batched::staged_view(staged@),
                old(self).batch_id_spec(),
            ) + (RecordModel::BatchDone { batch_id: old(self).batch_id_spec() }).wire_bytes(),
    {
        let ghost sv = crate::batched::staged_view(staged@);
        let bid: u64 = self.batch_id;
        let n: usize = staged.len();
        let mut ptrs: Vec<LogRecordPtr> = Vec::new();
        let mut i: usize = 0;
        #[verifier::loop_isolation(true)]
        while i < n
            invariant
                0 <= i <= n,
                n == staged@.len(),
                sv == crate::batched::staged_view(staged@),
                bid == old(self).batch_id,
                old(self).active_file_id as int + staged@.len() + 1 < u32::MAX,
                forall|j: int|
                    0 <= j < staged@.len() ==> crate::batched::staged_fits(
                        #[trigger] crate::batched::staged_view(staged@)[j],
                        old(self).max_file_size_spec(),
                    ) && crate::batched::staged_view(staged@)[j].0.len() + 21
                        + match crate::batched::staged_view(staged@)[j].1 {
                        Some(v) => v.len(),
                        None => 0,
                    } <= usize::MAX,
                self.wf(),
                self.same_config(*old(self)),
                self.index == old(self).index,
                self.kv == old(self).kv,
                self.batch_id == old(self).batch_id,
                self.active_file_id as int <= old(self).active_file_id as int + i,
                self.stream_bytes() == old(self).stream_bytes()
                    + crate::batched::batch_records_bytes(sv.take(i as int), bid),
                ptrs@.len() == i,
                forall|j: int|
                    0 <= j < i ==> (#[trigger] ptrs@[j]).file_id <= self.active_file_id
                        && match sv[j].1 {
                        Some(v) => self.data_record_at(ptrs@[j], sv[j].0, v),
                        None => true,
                    },
            decreases n - i,
        {
            proof {
                assert(sv[i as int] == (staged@[i as int].key_spec(),
                    staged@[i as int].value_spec()));
                assert(crate::batched::staged_fits(sv[i as int], self.file_config.max_file_size));
                assert(sv.take(i + 1).drop_last() =~= sv.take(i as int));
                assert(sv.take(i + 1).last() == sv[i as int]);
            }
            let record: LogRecord = staged[i].into_batched(bid);
            let ghost pre = *self;
            let ptr = self.log(&record);
            ptrs.push(ptr);
            proof {
                assert forall|j: int|
                    0 <= j < i + 1 implies (#[trigger] ptrs@[j]).file_id <= self.active_file_id
                    && match sv[j].1 {
                    Some(v) => self.data_record_at(ptrs@[j], sv[j].0, v),
                    None => true,
                } by {
                    if j < i {
                        match sv[j].1 {
                            Some(v) => {
                                assert(pre.data_record_at(ptrs@[j], sv[j].0, v));
                                let fid = ptrs@[j].file_id as int;
                                let off = ptrs@[j].offset as int;
                                assert(parse_record(self.seg_contents(fid), off) == parse_record(
                                    pre.seg_contents(fid),
                                    off,
                                ));
                                assert(self.data_record_at(ptrs@[j], sv[j].0, v));
                            },
                            None => {},
                        }
                    }
                }
                self.lemma_wf_preserved(pre);
                assert(record@ == crate::batched::in_batch_record(sv[i as int], bid));
                assert(self.stream_bytes() =~= old(self).stream_bytes()
                    + crate::batched::batch_records_bytes(sv.take(i + 1), bid));
            }
            i = i + 1;
        }
        let done_record = LogRecord::BatchDone { batch_id: bid };
        let ghost pre2 = *self;
        let _ = self.log(&done_record);
        proof {
            assert forall|j: int|
                0 <= j < n implies (#[trigger] ptrs@[j]).file_id <= self.active_file_id
                && match sv[j].1 {
                Some(v) => self.data_record_at(ptrs@[j], sv[j].0, v),
                None => true,
            } by {
                match sv[j].1 {
                    Some(v) => {
                        assert(pre2.data_record_at(ptrs@[j], sv[j].0, v));
                        let fid = ptrs@[j].file_id as int;
                        let off = ptrs@[j].offset as int;
                        assert(parse_record(self.seg_contents(fid), off) == parse_record(
                            pre2.seg_contents(fid),
                            off,
                        ));
                        assert(self.data_record_at(ptrs@[j], sv[j].0, v));
                    },
                    None => {},
                }
            }
            self.lemma_wf_preserved(pre2);
        }
        let ghost done_state = *self;
        proof {
            assert(sv.take(n as int) =~= sv);
            assert(self.stream_bytes() =~= old(self).stream_bytes()
                + crate::batched::batch_records_bytes(sv, bid) + (RecordModel::BatchDone {
                batch_id: bid,
            }).wire_bytes());
        }
        self.batch_id = bid + 1;
        proof {
            assert forall|fid: int| true implies #[trigger] self.seg_contents(fid)
                == done_state.seg_contents(fid) by {}
            Store::lemma_stream_prefix_congruence(
                *self,
                done_state,
                self.active_file_id as int + 1,
            );
        }
        let ghost kv0 = self.kv@;
        let ghost mid = *self;
        let mut j: usize = 0;
        proof {
            assert(crate::batched::apply_staged_kv(kv0, sv.take(0)) == kv0) by {
                assert(sv.take(0) =~= Seq::<(Seq<u8>, Option<Seq<u8>>)>::empty());
            }
        }
        #[verifier::loop_isolation(true)]
        while j < n
            invariant
                0 <= j <= n,
                n == staged@.len(),
                sv == crate::batched::staged_view(staged@),
                kv0 == mid.kv@,
                ptrs@.len() == n,
                forall|m: int|
                    0 <= m < staged@.len() ==> crate::batched::staged_fits(
                        #[trigger] crate::batched::staged_view(staged@)[m],
                        mid.max_file_size_spec(),
                    ),
                forall|m: int|
                    0 <= m < n ==> match sv[m].1 {
                        Some(v) => (#[trigger] ptrs@[m]).file_id <= mid.active_file_id
                            && mid.data_record_at(ptrs@[m], sv[m].0, v),
                        None => true,
                    },
                self.wf(),
                self.active_file == mid.active_file,
                self.legacy_files == mid.legacy_files,
                self.active_file_id == mid.active_file_id,
                self.batch_id == mid.batch_id,
                self.store_config == mid.store_config,
                self.file_config == mid.file_config,
                self.batched_config == mid.batched_config,
                self.kv@ == crate::batched::apply_staged_kv(kv0, sv.take(j as int)),
            decreases n - j,
        {
            proof {
                crate::batched::lemma_apply_staged_kv_snoc(kv0, sv.take(j as int), sv[j as int]);
                assert(sv.take(j + 1) =~= sv.take(j as int).push(sv[j as int]));
            }
            let ghost pre3 = *self;
            match &staged[j] {
                BatchedLogRecord::Data { key, value } => {
                    self.index.put(clone_bytes(key), ptrs[j]);
                    self.kv = Ghost(self.kv@.insert(key@, value@));
                    proof {
                        assert(self.kv@.dom() =~= self.index@.dom());
                        assert(sv[j as int] == (staged@[j as int].key_spec(), staged@[
                            j as int].value_spec()));
                        assert(staged@[j as int].key_spec() == key@);
                        assert(staged@[j as int].value_spec() == Some(value@));
                        assert(mid.data_record_at(ptrs@[j as int], key@, value@));
                        assert forall|fid: int| true implies #[trigger] self.seg_contents(fid)
                            == mid.seg_contents(fid) by {}
                        assert forall|fid: int| true implies #[trigger] pre3.seg_contents(fid)
                            == mid.seg_contents(fid) by {}
                        assert forall|k2: Seq<u8>| #[trigger]
                            self.index@.contains_key(k2) implies {
                            &&& self.index@[k2].file_id <= self.active_file_id
                            &&& self.data_record_at(self.index@[k2], k2, self.kv@[k2])
                            &&& 0 < k2.len() < 0x1_0000_0000
                            &&& self.kv@[k2].len() < 0x1_0000_0000
                        } by {
                            if k2 != key@ {
                                assert(pre3.index@.contains_key(k2));
                                assert(pre3.data_record_at(pre3.index@[k2], k2, pre3.kv@[k2]));
                            }
                        }
                    }
                },
                BatchedLogRecord::Tomb { key } => {
                    self.index.delete(clone_bytes(key));
                    self.kv = Ghost(self.kv@.remove(key@));
                    proof {
                        assert(self.kv@.dom() =~= self.index@.dom());
                        assert forall|fid: int| true implies #[trigger] self.seg_contents(fid)
                            == mid.seg_contents(fid) by {}
                        assert forall|fid: int| true implies #[trigger] pre3.seg_contents(fid)
                            == mid.seg_contents(fid) by {}
                        assert forall|k2: Seq<u8>| #[trigger]
                            self.index@.contains_key(k2) implies {
                            &&& self.index@[k2].file_id <= self.active_file_id
                            &&& self.data_record_at(self.index@[k2], k2, self.kv@[k2])
                            &&& 0 < k2.len() < 0x1_0000_0000
                            &&& self.kv@[k2].len() < 0x1_0000_0000
                        } by {
                            assert(pre3.index@.contains_key(k2));
                            assert(pre3.data_record_at(pre3.index@[k2], k2, pre3.kv@[k2]));
                        }
                    }
                },
            }
            j = j + 1;
        }
        proof {
            assert(sv.take(n as int) =~= sv);
            assert forall|fid: int| true implies #[trigger] self.seg_contents(fid)
                == mid.seg_contents(fid) by {}
            Store::lemma_stream_prefix_congruence(*self, mid, self.active_file_id as int + 1);
        }
        Ok(())
    }

    /// An append never disturbs what the index already points at.
    proof fn lemma_wf_preserved(self, pre: Store)
        requires
            pre.wf(),
            self.index == pre.index,
            self.kv == pre.kv,
            self.legacy_files@.len() == self.active_file_id as int,
            self.active_file.offset_synced(),
            self.active_file.max_size() == pre.file_config.max_file_size,
            self.file_config == pre.file_config,
            pre.active_file_id <= self.active_file_id,
            forall|fid: int, off: int|
                (0 <= fid <= pre.active_file_id as int && 0 <= off && (
                #[trigger] parse_record(pre.seg_contents(fid), off)) is Parsed && off
                    + parse_record(pre.seg_contents(fid), off)->size <= pre.seg_contents(
                    fid,
                ).len()) ==> parse_record(self.seg_contents(fid), off) == parse_record(
                    pre.seg_contents(fid),
                    off,
                ) && off + parse_record(pre.seg_contents(fid), off)->size <= self.seg_contents(
                    fid,
                ).len(),
        ensures
            self.wf(),
    {
        assert forall|k2: Seq<u8>| #[trigger] self.index@.contains_key(k2) implies {
            &&& self.index@[k2].file_id <= self.active_file_id
            &&& self.data_record_at(self.index@[k2], k2, self.kv@[k2])
            &&& 0 < k2.len() < 0x1_0000_0000
            &&& self.kv@[k2].len() < 0x1_0000_0000
        } by {
            assert(pre.index@.contains_key(k2));
            let p2 = pre.index@[k2];
            assert(pre.data_record_at(p2, k2, pre.kv@[k2]));
        }
    }
}

} // verus!
// The engine's governing laws, stated over the logical map and the recovery
// machine and proved once for all inputs.

verus! {

/// One logical operation against the store.
pub enum StoreOp {
    Put { key: Seq<u8>, value: Seq<u8> },
    Delete { key: Seq<u8> },
    Commit { staged: Seq<(Seq<u8>, Option<Seq<u8>>)> },
}

/// What one operation does to the logical map, as the operations' contracts
/// state it.
pub open spec fn apply_op(kv: Map<Seq<u8>, Seq<u8>>, op: StoreOp) -> Map<Seq<u8>, Seq<u8>> {
    match op {
        StoreOp::Put { key, value } => kv.insert(key, value),
        StoreOp::Delete { key } => kv.remove(key),
        StoreOp::Commit { staged } => crate::batched::apply_staged_kv(kv, staged),
    }
}

/// Apply a sequence of operations, first to last.
pub open spec fn apply_ops(kv: Map<Seq<u8>, Seq<u8>>, ops: Seq<StoreOp>) -> Map<Seq<u8>, Seq<u8>>
    decreases ops.len(),
{
    if ops.len() == 0 {
        kv
    } else {
        apply_ops(apply_op(kv, ops[0]), ops.skip(1))
    }
}

/// Whether an operation writes or removes the key.
pub open spec fn op_touches(op: StoreOp, k: Seq<u8>) -> bool {
    match op {
        StoreOp::Put { key, .. } => key == k,
        StoreOp::Delete { key } => key == k,
        StoreOp::Commit { staged } => exists|i: int| 0 <= i < staged.len() && staged[i].0 == k,
    }
}

proof fn lemma_staged_untouched(
    kv: Map<Seq<u8>, Seq<u8>>,
    s: Seq<(Seq<u8>, Option<Seq<u8>>)>,
    k: Seq<u8>,
)
    requires
        forall|i: int| 0 <= i < s.len() ==> (#[trigger] s[i].0) != k,
    ensures
        crate::batched::apply_staged_kv(kv, s).contains_key(k) == kv.contains_key(k),
        kv.contains_key(k) ==> crate::batched::apply_staged_kv(kv, s)[k] == kv[k],
    decreases s.len(),
{
    if s.len() > 0 {
        lemma_staged_untouched(crate::batched::apply_one_kv(kv, s[0]), s.skip(1), k);
    }
}

/// A key no later operation touches keeps its standing: it stays present
/// with the same value, or stays absent.
pub proof fn lemma_untouched_key_stable(
    kv: Map<Seq<u8>, Seq<u8>>,
    k: Seq<u8>,
    ops: Seq<StoreOp>,
)
    requires
        forall|i: int| 0 <= i < ops.len() ==> !op_touches(#[trigger] ops[i], k),
    ensures
        apply_ops(kv, ops).contains_key(k) == kv.contains_key(k),
        kv.contains_key(k) ==> apply_ops(kv, ops)[k] == kv[k],
    decreases ops.len(),
{
    if ops.len() > 0 {
        match ops[0] {
            StoreOp::Commit { staged } => {
                assert(!op_touches(ops[0], k));
                assert forall|i: int| 0 <= i < staged.len() implies (#[trigger] staged[i].0)
                    != k by {}
                lemma_staged_untouched(kv, staged, k);
            },
            _ => {},
        }
        lemma_untouched_key_stable(apply_op(kv, ops[0]), k, ops.skip(1));
    }
}

/// After a put of `(key, value)`, a get of that key returns exactly `value`
/// for as long as no later put, delete, or committed batch touches the key:
/// `get` returns the logical map's entry, and that entry stays `value`.
pub proof fn lemma_put_get_round_trip(
    kv: Map<Seq<u8>, Seq<u8>>,
    key: Seq<u8>,
    value: Seq<u8>,
    later: Seq<StoreOp>,
)
    requires
        forall|i: int| 0 <= i < later.len() ==> !op_touches(#[trigger] later[i], key),
    ensures
        apply_ops(kv.insert(key, value), later).contains_key(key),
        apply_ops(kv.insert(key, value), later)[key] == value,
{
    lemma_untouched_key_stable(kv.insert(key, value), key, later);
}

/// After a delete of `key`, a get of that key keeps failing with
/// `KeyNotFound` until a later operation writes the key again: the key
/// stays out of the logical map.
pub proof fn lemma_delete_clears_key(
    kv: Map<Seq<u8>, Seq<u8>>,
    key: Seq<u8>,
    later: Seq<StoreOp>,
)
    requires
        forall|i: int| 0 <= i < later.len() ==> !op_touches(#[trigger] later[i], key),
    ensures
        !apply_ops(kv.remove(key), later).contains_key(key),
{
    lemma_untouched_key_stable(kv.remove(key), key, later);
}

/// An in-batch record stages only; it never changes the recovered index.
proof fn lemma_in_batch_steps_keep_idx(st: ReplayState, tail: Seq<(LogRecordPtr, RecordModel)>)
    requires
        forall|i: int|
            0 <= i < tail.len() ==> ((#[trigger] tail[i].1) is DataInBatch
                || tail[i].1 is TombInBatch),
    ensures
        replay_from(st, tail).idx == st.idx,
    decreases tail.len(),
{
    if tail.len() > 0 {
        lemma_in_batch_steps_keep_idx(replay_step(st, tail[0].0, tail[0].1), tail.skip(1));
    }
}

/// Batch atomicity, the invisible half: however much of a batch reaches the
/// log, as long as its end marker does not, reopening recovers exactly the
/// index of the log without the batch.
pub proof fn lemma_partial_batch_invisible(
    es: Seq<(LogRecordPtr, RecordModel)>,
    tail: Seq<(LogRecordPtr, RecordModel)>,
)
    requires
        forall|i: int|
            0 <= i < tail.len() ==> ((#[trigger] tail[i].1) is DataInBatch
                || tail[i].1 is TombInBatch),
    ensures
        replay(es + tail).idx == replay(es).idx,
{
    lemma_replay_append(replay_init(), es, tail);
    lemma_in_batch_steps_keep_idx(replay(es), tail);
}

/// The staged mutation an in-batch record denotes.
pub open spec fn batch_entry(e: (LogRecordPtr, RecordModel)) -> (Seq<u8>, Option<LogRecordPtr>) {
    match e.1 {
        RecordModel::DataInBatch { key, .. } => (key, Some(e.0)),
        RecordModel::TombInBatch { key, .. } => (key, None),
        _ => (Seq::empty(), None),
    }
}

/// The staging a run of in-batch records builds up, first to last.
pub open spec fn stage_fold(
    acc: Seq<(Seq<u8>, Option<LogRecordPtr>)>,
    brs: Seq<(LogRecordPtr, RecordModel)>,
) -> Seq<(Seq<u8>, Option<LogRecordPtr>)>
    decreases brs.len(),
{
    if brs.len() == 0 {
        acc
    } else {
        stage_fold(stage_set(acc, batch_entry(brs[0]).0, batch_entry(brs[0]).1), brs.skip(1))
    }
}

/// Every record of `brs` belongs to batch `b`.
pub open spec fn all_in_batch(brs: Seq<(LogRecordPtr, RecordModel)>, b: u64) -> bool {
    forall|i: int|
        0 <= i < brs.len() ==> match (#[trigger] brs[i].1) {
            RecordModel::DataInBatch { batch_id, .. } => batch_id == b,
            RecordModel::TombInBatch { batch_id, .. } => batch_id == b,
            _ => false,
        }
}

/// The machine never holds a batch newer than the newest id it has seen.
proof fn lemma_replay_cur_le_newest(st: ReplayState, es: Seq<(LogRecordPtr, RecordModel)>)
    requires
        st.cur_batch is Some ==> st.cur_batch.unwrap() <= st.newest,
    ensures
        replay_from(st, es).cur_batch is Some ==> replay_from(st, es).cur_batch.unwrap()
            <= replay_from(st, es).newest,
        st.newest <= replay_from(st, es).newest,
    decreases es.len(),
{
    if es.len() > 0 {
        lemma_replay_cur_le_newest(replay_step(st, es[0].0, es[0].1), es.skip(1));
    }
}

/// Within one open batch, replay only accumulates staging.
proof fn lemma_batch_continue(st: ReplayState, brs: Seq<(LogRecordPtr, RecordModel)>, b: u64)
    requires
        all_in_batch(brs, b),
        st.cur_batch == Some(b),
        st.newest >= b,
    ensures
        replay_from(st, brs) == (ReplayState {
            idx: st.idx,
            cur_batch: Some(b),
            staging: stage_fold(st.staging, brs),
            newest: st.newest,
        }),
    decreases brs.len(),
{
    if brs.len() == 0 {
        assert(replay_from(st, brs) =~= st);
    } else {
        let st1 = replay_step(st, brs[0].0, brs[0].1);
        lemma_batch_continue(st1, brs.skip(1), b);
    }
}

/// Batch atomicity, the visible half: once a batch's records are all in the
/// log, under a batch id newer than everything before, and its end marker
/// follows, reopening recovers the index with exactly the staged mutations
/// applied.
pub proof fn lemma_committed_batch_applies(
    es: Seq<(LogRecordPtr, RecordModel)>,
    brs: Seq<(LogRecordPtr, RecordModel)>,
    b: u64,
    done_ptr: LogRecordPtr,
)
    requires
        all_in_batch(brs, b),
        replay(es).newest < b,
    ensures
        replay(es + brs + seq![(done_ptr, RecordModel::BatchDone { batch_id: b })]).idx
            == crate::batched::apply_staged(
            replay(es).idx,
            stage_fold(Seq::empty(), brs),
        ),
{
    let st = replay(es);
    let done = seq![(done_ptr, RecordModel::BatchDone { batch_id: b })];
    lemma_replay_append(replay_init(), es, brs + done);
    lemma_replay_append(st, brs, done);
    assert(es + (brs + done) =~= es + brs + done);
    lemma_replay_cur_le_newest(replay_init(), es);
    if brs.len() == 0 {
        assert(replay_from(st, brs) == st);
        assert(st.cur_batch is Some ==> st.cur_batch.unwrap() <= st.newest);
        assert(replay_from(st, done) == replay_step(st, done_ptr, done[0].1)) by {
            assert(done[0] == (done_ptr, RecordModel::BatchDone { batch_id: b }));
            assert(done.skip(1) =~= Seq::<(LogRecordPtr, RecordModel)>::empty());
            assert(replay_from(
                replay_step(st, done[0].0, done[0].1),
                Seq::<(LogRecordPtr, RecordModel)>::empty(),
            ) == replay_step(st, done[0].0, done[0].1));
        }
        assert(stage_fold(Seq::empty(), brs) =~= Seq::<(Seq<u8>, Option<LogRecordPtr>)>::empty());
    } else {
        let st1 = replay_step(st, brs[0].0, brs[0].1);
        assert(st.cur_batch != Some(b));
        assert(st1.cur_batch == Some(b));
        assert(st1.newest >= b);
        assert(st1.idx == st.idx);
        assert(st1.staging == stage_set(Seq::empty(), batch_entry(brs[0]).0, batch_entry(brs[0]).1));
        lemma_batch_continue(st1, brs.skip(1), b);
        let st2 = replay_from(st, brs);
        assert(st2.idx == st.idx && st2.cur_batch == Some(b) && st2.staging == stage_fold(
            st1.staging,
            brs.skip(1),
        ));
        assert(stage_fold(Seq::empty(), brs) == stage_fold(st1.staging, brs.skip(1)));
        assert(replay_from(st2, done) == replay_step(st2, done_ptr, done[0].1)) by {
            assert(done[0] == (done_ptr, RecordModel::BatchDone { batch_id: b }));
            assert(done.skip(1) =~= Seq::<(LogRecordPtr, RecordModel)>::empty());
            assert(replay_from(
                replay_step(st2, done[0].0, done[0].1),
                Seq::<(LogRecordPtr, RecordModel)>::empty(),
            ) == replay_step(st2, done[0].0, done[0].1));
        }
    }
}

} // verus!
// Crash durability's backbone: one durable append extends recovery by
// exactly that record, so a store reopened after any run of completed
// appends recovers precisely their effects.

verus! {

proof fn lemma_scan_append_from(buf: Seq<u8>, r: RecordModel, off: int)
    requires
        0 <= off <= buf.len(),
        scan_seg(buf, off) is Done,
        scan_seg(buf, off)->end == buf.len(),
        r.wire_valid(),
        !(r.key().len() == 0 && !(r is BatchDone)),
    ensures
        scan_seg(buf + r.wire_bytes(), off) == (SegScan::Done {
            entries: scan_seg(buf, off)->entries.push((buf.len() as int, r)),
            end: buf.len() + r.wire_len(),
        }),
    decreases buf.len() - off,
{
    let buf2 = buf + r.wire_bytes();
    let w = r.wire_bytes();
    crate::records::lemma_wire_bytes_len(r);
    match parse_record(buf, off) {
        ParseOutcome::Eof => {
            assert(off == buf.len());
            assert(buf2.subrange(off, off + r.wire_len()) =~= w);
            crate::records::lemma_parse_encoded(buf2, off, r);
            crate::records::lemma_parse_past_end(buf2, off + r.wire_len());
            assert(scan_seg(buf2, off + r.wire_len()) == (SegScan::Done {
                entries: Seq::<(int, RecordModel)>::empty(),
                end: off + r.wire_len(),
            }));
            assert(seq![(off, r)] + Seq::<(int, RecordModel)>::empty() =~= scan_seg(
                buf,
                off,
            )->entries.push((buf.len() as int, r)));
        },
        ParseOutcome::Parsed { rec, size } => {
            assert(off + size <= buf.len());
            assert(scan_seg(buf, off + size) is Done && scan_seg(buf, off + size)->end
                == buf.len());
            crate::records::lemma_parse_size_positive(buf, off);
            lemma_scan_append_from(buf, r, off + size);
            assert forall|i: int| off <= i < off + size implies #[trigger] crate::records::byte_at(
                buf2,
                i,
            ) == crate::records::byte_at(buf, i) by {
                assert(buf2[i] == buf[i]);
            }
            crate::records::lemma_parse_depends_on_window(buf, buf2, off, rec, size);
            assert(seq![(off, rec)] + scan_seg(buf, off + size)->entries.push(
                (buf.len() as int, r),
            ) =~= (seq![(off, rec)] + scan_seg(buf, off + size)->entries).push(
                (buf.len() as int, r),
            ));
        },
        _ => {},
    }
}

/// One durable append extends a clean scan by exactly the appended record:
/// nothing already recovered moves, and the new record is recovered last.
pub proof fn lemma_scan_append(buf: Seq<u8>, r: RecordModel)
    requires
        scan_seg(buf, 0) is Done,
        scan_seg(buf, 0)->end == buf.len(),
        r.wire_valid(),
        !(r.key().len() == 0 && !(r is BatchDone)),
    ensures
        scan_seg(buf + r.wire_bytes(), 0) == (SegScan::Done {
            entries: scan_seg(buf, 0)->entries.push((buf.len() as int, r)),
            end: buf.len() + r.wire_len(),
        }),
{
    lemma_scan_append_from(buf, r, 0);
}

/// Durability of a completed put: when a data record for `(k, v)` lands
/// whole at the end of a cleanly scanned segment, recovery of the extended
/// segment yields exactly the old index with `k` now pointing at it.
pub proof fn lemma_append_then_recover(
    buf: Seq<u8>,
    fid: u32,
    k: Seq<u8>,
    v: Seq<u8>,
)
    requires
        scan_seg(buf, 0) is Done,
        scan_seg(buf, 0)->end == buf.len(),
        0 < k.len() < 0x1_0000_0000,
        v.len() < 0x1_0000_0000,
    ensures
        ({
            let r = RecordModel::Data { key: k, value: v };
            let before = replay(file_entries(fid, scan_seg(buf, 0)->entries));
            let after = replay(
                file_entries(fid, scan_seg(buf + r.wire_bytes(), 0)->entries),
            );
            after.idx == before.idx.insert(
                k,
                LogRecordPtr { file_id: fid, offset: buf.len() as u64 },
            )
        }),
{
    let r = RecordModel::Data { key: k, value: v };
    lemma_scan_append(buf, r);
    let es = scan_seg(buf, 0)->entries;
    let ptr = LogRecordPtr { file_id: fid, offset: buf.len() as u64 };
    assert(file_entries(fid, es.push((buf.len() as int, r))) =~= file_entries(fid, es).push(
        (ptr, r),
    ));
    lemma_replay_snoc(replay_init(), file_entries(fid, es), (ptr, r));
}

} // verus!
// The recovery reading of a store: every segment scans cleanly and
// replaying what they hold rebuilds exactly the live index. The laws below
// prove that this reading determines the logical map outright, and that
// each completed append moves it in step — the backbone of reopening a
// store from its own segments.

verus! {

impl Store {
    /// The store's own segment list, as `open` would receive it.
    pub open spec fn seg_seq(self) -> Seq<Seq<u8>> {
        Seq::new((self.active_id_spec() + 1) as nat, |fid: int| self.seg_contents(fid))
    }

    /// The records all segments hold, in log order, with their pointers.
    pub open spec fn store_entries(self) -> Seq<(LogRecordPtr, RecordModel)> {
        all_entries(self.seg_seq())
    }

    /// The store's segments recover to its own index: every segment scans
    /// cleanly to keyed records, the active segment's scan reaches its very
    /// end, and replaying everything yields the live index.
    pub open spec fn recovers(self) -> bool {
        &&& segs_clean(self.seg_seq())
        &&& segs_keys_ok(self.seg_seq())
        &&& scan_seg(self.seg_contents(self.active_id_spec() as int), 0)->end == self.seg_contents(
            self.active_id_spec() as int,
        ).len()
        &&& replay(self.store_entries()).idx == self.index_map()
    }

    /// Crash durability's keystone: two well-formed stores whose segments
    /// recover to their own indexes and whose segments hold the same bytes
    /// have the same logical map — the segment bytes alone determine every
    /// key and every value.
    pub proof fn lemma_same_log_same_map(s1: Store, s2: Store)
        requires
            s1.wf(),
            s2.wf(),
            s1.recovers(),
            s2.recovers(),
            s1.seg_seq() == s2.seg_seq(),
        ensures
            s1.index_map() == s2.index_map(),
            s1@ == s2@,
    {
        assert(s1.store_entries() == s2.store_entries());
        assert(s1.index_map() == s2.index_map());
        assert forall|fid: int| fid >= 0 implies #[trigger] s1.seg_contents(fid)
            == s2.seg_contents(fid) by {
            if fid < s1.seg_seq().len() {
                assert(s1.seg_seq()[fid] == s2.seg_seq()[fid]);
            } else {
                assert(s1.seg_seq()[s1.active_id_spec() as int] == s2.seg_seq()[
                    s2.active_id_spec() as int]);
            }
        }
        assert(s1@ =~= s2@) by {
            assert forall|k: Seq<u8>| true implies (s1@.contains_key(k) <==> s2@.contains_key(k))
                && (s1@.contains_key(k) ==> s1@[k] == s2@[k]) by {
                if s1@.contains_key(k) || s2@.contains_key(k) {
                    assert(s1@.dom() == s1.index_map().dom());
                    assert(s2@.dom() == s2.index_map().dom());
                    if s1@.contains_key(k) {
                        let p = s1.index_map()[k];
                        assert(s1.data_record_at(p, k, s1@[k]));
                        assert(s2.data_record_at(p, k, s2@[k]));
                    }
                }
            }
        }
    }

    /// An in-place append keeps every segment scanning cleanly and extends
    /// the recovered record stream by exactly the appended record — the
    /// very shape `put`, `delete` and a batch commit state for the active
    /// segment.
    #[verifier::rlimit(100)]
    #[verifier::spinoff_prover]
    pub proof fn lemma_entries_after_extend(
        pre: Store,
        post: Store,
        rec: RecordModel,
        ptr: LogRecordPtr,
    )
        requires
            segs_clean(pre.seg_seq()),
            segs_keys_ok(pre.seg_seq()),
            scan_seg(pre.seg_contents(pre.active_id_spec() as int), 0)->end == pre.seg_contents(
                pre.active_id_spec() as int,
            ).len(),
            rec.wire_valid(),
            !(rec.key().len() == 0 && !(rec is BatchDone)),
            post.active_id_spec() == pre.active_id_spec(),
            forall|fid: int|
                0 <= fid < pre.active_id_spec() as int ==> post.seg_contents(fid)
                    == pre.seg_contents(fid),
            post.seg_contents(pre.active_id_spec() as int) == pre.seg_contents(
                pre.active_id_spec() as int,
            ) + rec.wire_bytes(),
            ptr.file_id == pre.active_id_spec(),
            ptr.offset as int == pre.seg_contents(pre.active_id_spec() as int).len(),
        ensures
            segs_clean(post.seg_seq()),
            segs_keys_ok(post.seg_seq()),
            scan_seg(post.seg_contents(post.active_id_spec() as int), 0)->end
                == post.seg_contents(post.active_id_spec() as int).len(),
            post.store_entries() == pre.store_entries().push((ptr, rec)),
            replay(post.store_entries()) == replay_step(replay(pre.store_entries()), ptr, rec),
    {
        let a = pre.active_id_spec() as int;
        let old_buf = pre.seg_contents(a);
        let new_buf = post.seg_contents(a);
        assert(pre.seg_seq()[a] == old_buf);
        assert(scan_seg(pre.seg_seq()[a], 0) is Done && entries_keys_ok(scan_seg(
            pre.seg_seq()[a],
            0,
        )->entries));
        assert(scan_seg(old_buf, 0) is Done && scan_seg(old_buf, 0)->end == old_buf.len());
        lemma_scan_append(old_buf, rec);
        let old_entries = scan_seg(old_buf, 0)->entries;
        assert(scan_seg(new_buf, 0) == (SegScan::Done {
            entries: old_entries.push((old_buf.len() as int, rec)),
            end: old_buf.len() + rec.wire_len(),
        }));
        crate::records::lemma_wire_bytes_len(rec);
        assert forall|fid: int|
            0 <= fid < post.seg_seq().len() implies (#[trigger] scan_seg(
            post.seg_seq()[fid],
            0,
        )) is Done && entries_keys_ok(scan_seg(post.seg_seq()[fid], 0)->entries) by {
            if fid < a {
                assert(post.seg_seq()[fid] == pre.seg_seq()[fid]);
                assert(scan_seg(pre.seg_seq()[fid], 0) is Done);
            }
        }
        assert(post.seg_seq().drop_last() =~= pre.seg_seq().drop_last());
        assert(post.store_entries() == all_entries(post.seg_seq().drop_last()) + file_entries(
            a as u32,
            scan_seg(new_buf, 0)->entries,
        ));
        assert(pre.store_entries() == all_entries(pre.seg_seq().drop_last()) + file_entries(
            a as u32,
            old_entries,
        ));
        assert(file_entries(a as u32, old_entries.push((old_buf.len() as int, rec)))
            =~= file_entries(a as u32, old_entries).push((ptr, rec)));
        assert(post.store_entries() =~= pre.store_entries().push((ptr, rec)));
        lemma_replay_snoc(replay_init(), pre.store_entries(), (ptr, rec));
    }

    /// A rotation plus append does the same: the full active segment keeps
    /// its bytes under its id, the record opens the fresh segment, and the
    /// recovered record stream still grows by exactly that record.
    #[verifier::rlimit(100)]
    #[verifier::spinoff_prover]
    pub proof fn lemma_entries_after_rotate(
        pre: Store,
        post: Store,
        rec: RecordModel,
        ptr: LogRecordPtr,
    )
        requires
            segs_clean(pre.seg_seq()),
            segs_keys_ok(pre.seg_seq()),
            scan_seg(pre.seg_contents(pre.active_id_spec() as int), 0)->end == pre.seg_contents(
                pre.active_id_spec() as int,
            ).len(),
            rec.wire_valid(),
            !(rec.key().len() == 0 && !(rec is BatchDone)),
            post.active_id_spec() == pre.active_id_spec() + 1,
            forall|fid: int|
                0 <= fid <= pre.active_id_spec() as int ==> post.seg_contents(fid)
                    == pre.seg_contents(fid),
            post.seg_contents(post.active_id_spec() as int) == rec.wire_bytes(),
            ptr.file_id == post.active_id_spec(),
            ptr.offset == 0,
        ensures
            segs_clean(post.seg_seq()),
            segs_keys_ok(post.seg_seq()),
            scan_seg(post.seg_contents(post.active_id_spec() as int), 0)->end
                == post.seg_contents(post.active_id_spec() as int).len(),
            post.store_entries() == pre.store_entries().push((ptr, rec)),
            replay(post.store_entries()) == replay_step(replay(pre.store_entries()), ptr, rec),
    {
        let a = pre.active_id_spec() as int;
        let new_buf = post.seg_contents(a + 1);
        crate::records::lemma_parse_past_end(Seq::<u8>::empty(), 0);
        assert(scan_seg(Seq::<u8>::empty(), 0) == (SegScan::Done {
            entries: Seq::<(int, RecordModel)>::empty(),
            end: 0,
        }));
        lemma_scan_append(Seq::<u8>::empty(), rec);
        assert(Seq::<u8>::empty() + rec.wire_bytes() =~= rec.wire_bytes());
        crate::records::lemma_wire_bytes_len(rec);
        assert(scan_seg(new_buf, 0) == (SegScan::Done {
            entries: Seq::<(int, RecordModel)>::empty().push((0, rec)),
            end: rec.wire_len(),
        }));
        assert forall|fid: int|
            0 <= fid < post.seg_seq().len() implies (#[trigger] scan_seg(
            post.seg_seq()[fid],
            0,
        )) is Done && entries_keys_ok(scan_seg(post.seg_seq()[fid], 0)->entries) by {
            if fid <= a {
                assert(post.seg_seq()[fid] == pre.seg_seq()[fid]);
                assert(scan_seg(pre.seg_seq()[fid], 0) is Done);
            }
        }
        assert(post.seg_seq().drop_last() =~= pre.seg_seq());
        assert(post.store_entries() == all_entries(post.seg_seq().drop_last()) + file_entries(
            (a + 1) as u32,
            scan_seg(new_buf, 0)->entries,
        ));
        assert(file_entries((a + 1) as u32, Seq::<(int, RecordModel)>::empty().push((0, rec)))
            =~= Seq::<(LogRecordPtr, RecordModel)>::empty().push((ptr, rec)));
        assert(post.store_entries() =~= pre.store_entries().push((ptr, rec)));
        lemma_replay_snoc(replay_init(), pre.store_entries(), (ptr, rec));
    }
}

} // verus!
