//! Batch staging: the per-key last-write-wins buffers used both by batched
//! writes and by the recovery state machine, and their spec-level fold.

use vstd::prelude::*;

use crate::errors::Errors;
use crate::index::{clone_bytes, lex_compare, BTreeIndex};
use crate::config::BatchedConfig;
use crate::records::{LogRecord, LogRecordPtr};

verus! {

/// Replace the value stored under `k`, or append a fresh entry for it.
pub open spec fn stage_set<T>(s: Seq<(Seq<u8>, T)>, k: Seq<u8>, v: T) -> Seq<(Seq<u8>, T)>
    decreases s.len(),
{
    if s.len() == 0 {
        seq![(k, v)]
    } else if s[0].0 == k {
        seq![(k, v)] + s.skip(1)
    } else {
        seq![s[0]] + stage_set(s.skip(1), k, v)
    }
}

pub proof fn lemma_stage_set_at<T>(s: Seq<(Seq<u8>, T)>, i: int, k: Seq<u8>, v: T)
    requires
        0 <= i < s.len(),
        s[i].0 == k,
        forall|j: int| 0 <= j < i ==> (#[trigger] s[j].0) != k,
    ensures
        stage_set(s, k, v) == s.update(i, (k, v)),
    decreases i,
{
    if i == 0 {
        assert(stage_set(s, k, v) =~= s.update(0, (k, v)));
    } else {
        lemma_stage_set_at(s.skip(1), i - 1, k, v);
        assert(stage_set(s, k, v) =~= s.update(i, (k, v)));
    }
}

pub proof fn lemma_stage_set_absent<T>(s: Seq<(Seq<u8>, T)>, k: Seq<u8>, v: T)
    requires
        forall|j: int| 0 <= j < s.len() ==> (#[trigger] s[j].0) != k,
    ensures
        stage_set(s, k, v) == s.push((k, v)),
    decreases s.len(),
{
    if s.len() == 0 {
        assert(stage_set(s, k, v) =~= s.push((k, v)));
    } else {
        lemma_stage_set_absent(s.skip(1), k, v);
        assert(stage_set(s, k, v) =~= s.push((k, v)));
    }
}

/// How one staged entry lands in the key index: a `Some` pointer is stored,
/// a `None` removes the key.
pub open spec fn apply_one(
    idx: Map<Seq<u8>, LogRecordPtr>,
    e: (Seq<u8>, Option<LogRecordPtr>),
) -> Map<Seq<u8>, LogRecordPtr> {
    match e.1 {
        Some(p) => idx.insert(e.0, p),
        None => idx.remove(e.0),
    }
}

/// Apply staged entries to the index, first to last.
pub open spec fn apply_staged(
    idx: Map<Seq<u8>, LogRecordPtr>,
    s: Seq<(Seq<u8>, Option<LogRecordPtr>)>,
) -> Map<Seq<u8>, LogRecordPtr>
    decreases s.len(),
{
    if s.len() == 0 {
        idx
    } else {
        apply_staged(apply_one(idx, s[0]), s.skip(1))
    }
}

pub proof fn lemma_apply_staged_snoc(
    idx: Map<Seq<u8>, LogRecordPtr>,
    s: Seq<(Seq<u8>, Option<LogRecordPtr>)>,
    e: (Seq<u8>, Option<LogRecordPtr>),
)
    ensures
        apply_staged(idx, s.push(e)) == apply_one(apply_staged(idx, s), e),
    decreases s.len(),
{
    let s2 = s.push(e);
    if s.len() == 0 {
        assert(s2[0] == e);
        assert(s2.skip(1) =~= Seq::<(Seq<u8>, Option<LogRecordPtr>)>::empty());
        assert(apply_staged(apply_one(idx, e), Seq::<(Seq<u8>, Option<LogRecordPtr>)>::empty())
            == apply_one(idx, e));
    } else {
        lemma_apply_staged_snoc(apply_one(idx, s[0]), s.skip(1), e);
        assert(s2[0] == s[0]);
        assert(s2.skip(1) =~= s.skip(1).push(e));
        assert(apply_staged(idx, s2) == apply_staged(apply_one(idx, s[0]), s.skip(1).push(e)));
    }
}

/// Every entry of a staged buffer after an update is either the new entry
/// or one of the old ones.
pub proof fn lemma_stage_set_elems<T>(s: Seq<(Seq<u8>, T)>, k: Seq<u8>, v: T)
    ensures
        forall|j: int|
            0 <= j < stage_set(s, k, v).len() ==> (#[trigger] stage_set(s, k, v)[j]) == (k, v)
                || exists|i: int| 0 <= i < s.len() && s[i] == stage_set(s, k, v)[j],
    decreases s.len(),
{
    let out = stage_set(s, k, v);
    if s.len() == 0 {
    } else if s[0].0 == k {
        assert forall|j: int| 0 <= j < out.len() implies (#[trigger] out[j]) == (k, v) || exists|
            i: int,
        | 0 <= i < s.len() && s[i] == out[j] by {
            if j > 0 {
                assert(out[j] == s[j]);
            }
        }
    } else {
        lemma_stage_set_elems(s.skip(1), k, v);
        assert forall|j: int| 0 <= j < out.len() implies (#[trigger] out[j]) == (k, v) || exists|
            i: int,
        | 0 <= i < s.len() && s[i] == out[j] by {
            if j == 0 {
                assert(out[0] == s[0]);
            } else {
                let inner = stage_set(s.skip(1), k, v);
                assert(out[j] == inner[j - 1]);
                if inner[j - 1] != (k, v) {
                    let i = choose|i: int| 0 <= i < s.skip(1).len() && s.skip(1)[i] == inner[j - 1];
                    assert(s[i + 1] == out[j]);
                }
            }
        }
    }
}

/// Every key present after applying staged entries maps either to its old
/// pointer or to a pointer staged for it.
pub proof fn lemma_apply_staged_elems(
    idx: Map<Seq<u8>, LogRecordPtr>,
    s: Seq<(Seq<u8>, Option<LogRecordPtr>)>,
)
    ensures
        forall|k: Seq<u8>| #[trigger]
            apply_staged(idx, s).contains_key(k) ==> (idx.contains_key(k) && idx[k]
                == apply_staged(idx, s)[k]) || exists|i: int|
                0 <= i < s.len() && #[trigger] s[i] == (k, Some(apply_staged(idx, s)[k])),
    decreases s.len(),
{
    if s.len() > 0 {
        let idx1 = apply_one(idx, s[0]);
        let m = apply_staged(idx, s);
        let m1 = apply_staged(idx1, s.skip(1));
        lemma_apply_staged_elems(idx1, s.skip(1));
        assert(m == m1);
        assert forall|k: Seq<u8>| #[trigger] m.contains_key(k) implies (idx.contains_key(k)
            && idx[k] == m[k]) || exists|i: int| 0 <= i < s.len() && #[trigger] s[i] == (
        k,
        Some(m[k]),
        ) by {
            assert(m1.contains_key(k));
            if idx1.contains_key(k) && idx1[k] == m1[k] {
                if k == s[0].0 {
                    match s[0].1 {
                        Some(p) => {
                            assert(idx1[k] == p);
                            assert(s[0] == (k, Some(m[k])));
                        },
                        None => {
                            assert(!idx1.contains_key(k));
                        },
                    }
                } else {
                    assert(idx.contains_key(k) && idx[k] == m[k]);
                }
            } else {
                let i = choose|i: int|
                    0 <= i < s.skip(1).len() && #[trigger] s.skip(1)[i] == (k, Some(m1[k]));
                assert(s[i + 1] == (k, Some(m[k])));
            }
        }
    }
}

/// A staged batch mutation: either a pending put of a pointer, or a pending
/// removal.
pub enum BatchedIndexPtr {
    Put(LogRecordPtr),
    Delete,
}

/// Maps each key to the last meaningful write staged for it, omitting
/// intermediate operations; recovery uses this to hold a batch back until
/// its end marker arrives.
pub struct BatchedIndex {
    ptr: Vec<(Vec<u8>, BatchedIndexPtr)>,
}

impl BatchedIndex {
    /// The staged entries, in staging order.
    pub closed spec fn view(&self) -> Seq<(Seq<u8>, Option<LogRecordPtr>)> {
        Seq::new(
            self.ptr@.len(),
            |i: int|
                (
                    self.ptr@[i].0@,
                    match self.ptr@[i].1 {
                        BatchedIndexPtr::Put(p) => Some(p),
                        BatchedIndexPtr::Delete => None,
                    },
                ),
        )
    }

    pub fn new() -> (r: Self)
        ensures
            r@ == Seq::<(Seq<u8>, Option<LogRecordPtr>)>::empty(),
    {
        let r = BatchedIndex { ptr: Vec::new() };
        proof {
            assert(r@ =~= Seq::<(Seq<u8>, Option<LogRecordPtr>)>::empty());
        }
        r
    }

    /// Stage `key` to be stored at `value` when the batch completes.
    pub fn mark_put(&mut self, key: Vec<u8>, value: LogRecordPtr)
        ensures
            final(self)@ == stage_set(old(self)@, key@, Some(value)),
    {
        self.stage(key, BatchedIndexPtr::Put(value));
    }

    /// Stage `key` to be removed when the batch completes.
    pub fn mark_delete(&mut self, key: Vec<u8>)
        ensures
            final(self)@ == stage_set(old(self)@, key@, None::<LogRecordPtr>),
    {
        self.stage(key, BatchedIndexPtr::Delete);
    }

    fn stage(&mut self, key: Vec<u8>, value: BatchedIndexPtr)
        ensures
            final(self)@ == stage_set(
                old(self)@,
                key@,
                match value {
                    BatchedIndexPtr::Put(p) => Some(p),
                    BatchedIndexPtr::Delete => None,
                },
            ),
    {
        let ghost s0 = self@;
        let ghost v = match value {
            BatchedIndexPtr::Put(p) => Some(p),
            BatchedIndexPtr::Delete => None::<LogRecordPtr>,
        };
        let n: usize = self.ptr.len();
        let mut i: usize = 0;
        while i < n
            invariant
                0 <= i <= n,
                self == old(self),
                n == self.ptr@.len(),
                forall|j: int| 0 <= j < i ==> (#[trigger] s0[j].0) != key@,
            decreases n - i,
        {
            if lex_compare(&self.ptr[i].0, &key) == 0 {
                proof {
                    lemma_stage_set_at(s0, i as int, key@, v);
                }
                self.ptr.set(i, (key, value));
                proof {
                    assert(self@ =~= s0.update(i as int, (key@, v)));
                }
                return ;
            }
            i = i + 1;
        }
        proof {
            lemma_stage_set_absent(s0, key@, v);
        }
        self.ptr.push((key, value));
        proof {
            assert(self@ =~= s0.push((key@, v)));
        }
    }

    /// Discard everything staged.
    pub fn reset(&mut self)
        ensures
            final(self)@ == Seq::<(Seq<u8>, Option<LogRecordPtr>)>::empty(),
    {
        self.ptr = Vec::new();
        proof {
            assert(self@ =~= Seq::<(Seq<u8>, Option<LogRecordPtr>)>::empty());
        }
    }

    /// Apply every staged mutation to the index, in staging order.
    pub fn commit(&self, index: &mut BTreeIndex)
        requires
            old(index).wf(),
        ensures
            final(index).wf(),
            final(index)@ == apply_staged(old(index)@, self@),
    {
        let ghost s = self@;
        let n: usize = self.ptr.len();
        let mut i: usize = 0;
        while i < n
            invariant
                0 <= i <= n,
                index.wf(),
                index@ == apply_staged(old(index)@, s.take(i as int)),
            decreases n - i,
        {
            proof {
                lemma_apply_staged_snoc(old(index)@, s.take(i as int), s[i as int]);
                assert(s.take(i + 1) =~= s.take(i as int).push(s[i as int]));
            }
            match self.ptr[i].1 {
                BatchedIndexPtr::Put(p) => {
                    index.put(clone_bytes(&self.ptr[i].0), p);
                },
                BatchedIndexPtr::Delete => {
                    index.delete(clone_bytes(&self.ptr[i].0));
                },
            }
            i = i + 1;
        }
        proof {
            assert(s.take(n as int) =~= s);
        }
    }
}

/// A staged write of a batch: the data to put, or a tombstone.
#[derive(Debug)]
pub enum BatchedLogRecord {
    Data { key: Vec<u8>, value: Vec<u8> },
    Tomb { key: Vec<u8> },
}

impl BatchedLogRecord {
    /// The staged key.
    pub open spec fn key_spec(&self) -> Seq<u8> {
        match self {
            BatchedLogRecord::Data { key, .. } => key@,
            BatchedLogRecord::Tomb { key } => key@,
        }
    }

    /// The staged value, `None` for a tombstone.
    pub open spec fn value_spec(&self) -> Option<Seq<u8>> {
        match self {
            BatchedLogRecord::Data { value, .. } => Some(value@),
            BatchedLogRecord::Tomb { .. } => None,
        }
    }

    /// The staged entry as a batch record carrying `batch_id`.
    pub fn into_batched(&self, batch_id: u64) -> (r: LogRecord)
        ensures
            r@ == match self {
                BatchedLogRecord::Data { key, value } => crate::records::RecordModel::DataInBatch {
                    batch_id,
                    key: key@,
                    value: value@,
                },
                BatchedLogRecord::Tomb { key } => crate::records::RecordModel::TombInBatch {
                    batch_id,
                    key: key@,
                },
            },
    {
        match self {
            BatchedLogRecord::Data { key, value } => LogRecord::DataInBatch {
                batch_id,
                key: clone_bytes(key),
                value: clone_bytes(value),
            },
            BatchedLogRecord::Tomb { key } => LogRecord::TombInBatch {
                batch_id,
                key: clone_bytes(key),
            },
        }
    }

    /// The batch form of a record, stripped of its batch id; in-batch
    /// variants only.
    pub fn from_log_record(value: LogRecord) -> (r: Result<Self, Errors>)
        ensures
            match value@ {
                crate::records::RecordModel::DataInBatch { key, value: v, .. } => {
                    &&& r is Ok
                    &&& r.unwrap().key_spec() == key
                    &&& r.unwrap().value_spec() == Some(v)
                },
                crate::records::RecordModel::TombInBatch { key, .. } => {
                    &&& r is Ok
                    &&& r.unwrap().key_spec() == key
                    &&& r.unwrap().value_spec() is None
                },
                _ => r == Err::<Self, Errors>(Errors::InvalidBatchedRecordType { record: value }),
            },
    {
        match value {
            LogRecord::DataInBatch { batch_id: _, key, value } => Ok(
                BatchedLogRecord::Data { key, value },
            ),
            LogRecord::TombInBatch { batch_id: _, key } => Ok(BatchedLogRecord::Tomb { key }),
            _ => Err(Errors::InvalidBatchedRecordType { record: value }),
        }
    }
}

} // verus!

verus! {

/// How one staged entry lands in the logical map: a `Some` value is stored,
/// a `None` removes the key.
pub open spec fn apply_one_kv(
    kv: Map<Seq<u8>, Seq<u8>>,
    e: (Seq<u8>, Option<Seq<u8>>),
) -> Map<Seq<u8>, Seq<u8>> {
    match e.1 {
        Some(v) => kv.insert(e.0, v),
        None => kv.remove(e.0),
    }
}

/// Apply staged entries to the logical map, first to last.
pub open spec fn apply_staged_kv(
    kv: Map<Seq<u8>, Seq<u8>>,
    s: Seq<(Seq<u8>, Option<Seq<u8>>)>,
) -> Map<Seq<u8>, Seq<u8>>
    decreases s.len(),
{
    if s.len() == 0 {
        kv
    } else {
        apply_staged_kv(apply_one_kv(kv, s[0]), s.skip(1))
    }
}

pub proof fn lemma_apply_staged_kv_snoc(
    kv: Map<Seq<u8>, Seq<u8>>,
    s: Seq<(Seq<u8>, Option<Seq<u8>>)>,
    e: (Seq<u8>, Option<Seq<u8>>),
)
    ensures
        apply_staged_kv(kv, s.push(e)) == apply_one_kv(apply_staged_kv(kv, s), e),
    decreases s.len(),
{
    let s2 = s.push(e);
    if s.len() == 0 {
        assert(s2[0] == e);
        assert(s2.skip(1) =~= Seq::<(Seq<u8>, Option<Seq<u8>>)>::empty());
        assert(apply_staged_kv(apply_one_kv(kv, e), Seq::<(Seq<u8>, Option<Seq<u8>>)>::empty())
            == apply_one_kv(kv, e));
    } else {
        lemma_apply_staged_kv_snoc(apply_one_kv(kv, s[0]), s.skip(1), e);
        assert(s2[0] == s[0]);
        assert(s2.skip(1) =~= s.skip(1).push(e));
        assert(apply_staged_kv(kv, s2) == apply_staged_kv(apply_one_kv(kv, s[0]), s.skip(1).push(
            e,
        )));
    }
}

/// The in-batch record one staged entry becomes under batch id `b`.
pub open spec fn in_batch_record(
    e: (Seq<u8>, Option<Seq<u8>>),
    b: u64,
) -> crate::records::RecordModel {
    match e.1 {
        Some(v) => crate::records::RecordModel::DataInBatch { batch_id: b, key: e.0, value: v },
        None => crate::records::RecordModel::TombInBatch { batch_id: b, key: e.0 },
    }
}

/// The bytes a batch's records put on the log before the end marker: every
/// staged entry's in-batch encoding, in staging order.
pub open spec fn batch_records_bytes(s: Seq<(Seq<u8>, Option<Seq<u8>>)>, b: u64) -> Seq<u8>
    decreases s.len(),
{
    if s.len() == 0 {
        Seq::empty()
    } else {
        batch_records_bytes(s.drop_last(), b) + in_batch_record(s.last(), b).wire_bytes()
    }
}

/// The `(key, staged value)` form of a pending record list.
pub open spec fn staged_view(s: Seq<BatchedLogRecord>) -> Seq<(Seq<u8>, Option<Seq<u8>>)> {
    Seq::new(s.len(), |i: int| (s[i].key_spec(), s[i].value_spec()))
}

/// One staged entry fits the wire format and the segment size cap.
pub open spec fn staged_fits(e: (Seq<u8>, Option<Seq<u8>>), max_file_size: u64) -> bool {
    &&& 0 < e.0.len() < 0x1_0000_0000
    &&& match e.1 {
        Some(v) => v.len() < 0x1_0000_0000 && 21 + e.0.len() + v.len() < max_file_size,
        None => 17 + e.0.len() < max_file_size,
    }
}

/// A handle accumulating staged writes, committed atomically against a
/// store: until `commit`, nothing of it is visible to readers.
pub struct BatchedWrite {
    pub(crate) pending: Vec<BatchedLogRecord>,
    pub(crate) config: BatchedConfig,
}

impl BatchedWrite {
    /// The staged entries: each key with the value it will get, `None` for
    /// a staged removal.
    pub closed spec fn staged(&self) -> Seq<(Seq<u8>, Option<Seq<u8>>)> {
        staged_view(self.pending@)
    }

    /// The configured cap on staged entries.
    pub closed spec fn max_batch_size_spec(&self) -> usize {
        self.config.max_batch_size
    }

    /// The batch configuration the handle carries.
    pub closed spec fn config_spec(&self) -> BatchedConfig {
        self.config
    }

    /// The staged entries as in-batch records carrying `batch_id`, in
    /// staging order: what a commit appends before the end marker.
    pub fn staged_records(&self, batch_id: u64) -> (r: Vec<LogRecord>)
        ensures
            r@.len() == self.staged().len(),
            forall|i: int|
                0 <= i < r@.len() ==> (#[trigger] r@[i])@ == match self.staged()[i].1 {
                    Some(v) => crate::records::RecordModel::DataInBatch {
                        batch_id,
                        key: self.staged()[i].0,
                        value: v,
                    },
                    None => crate::records::RecordModel::TombInBatch {
                        batch_id,
                        key: self.staged()[i].0,
                    },
                },
    {
        let n: usize = self.pending.len();
        let mut out: Vec<LogRecord> = Vec::new();
        let mut i: usize = 0;
        while i < n
            invariant
                0 <= i <= n,
                out@.len() == i,
                forall|j: int|
                    0 <= j < i ==> (#[trigger] out@[j])@ == match self.staged()[j].1 {
                        Some(v) => crate::records::RecordModel::DataInBatch {
                            batch_id,
                            key: self.staged()[j].0,
                            value: v,
                        },
                        None => crate::records::RecordModel::TombInBatch {
                            batch_id,
                            key: self.staged()[j].0,
                        },
                    },
            decreases n - i,
        {
            out.push(self.pending[i].into_batched(batch_id));
            i = i + 1;
        }
        out
    }

    /// An empty staging buffer with the given limits.
    pub(crate) fn start(config: BatchedConfig) -> (r: Self)
        ensures
            r.staged() == Seq::<(Seq<u8>, Option<Seq<u8>>)>::empty(),
            r.max_batch_size_spec() == config.max_batch_size,
    {
        let r = BatchedWrite { pending: Vec::new(), config };
        proof {
            assert(r.staged() =~= Seq::<(Seq<u8>, Option<Seq<u8>>)>::empty());
        }
        r
    }

    /// Stage `value` under `key`, overwriting what the batch already holds
    /// for that key. Full buffers reject even overwrites.
    pub fn put(&mut self, key: Vec<u8>, value: Vec<u8>) -> (r: Result<(), Errors>)
        ensures
            key@.len() == 0 ==> r == Err::<(), Errors>(Errors::KeyIsEmpty) && *final(self) == *old(self),
            key@.len() > 0 && old(self).staged().len() >= old(self).max_batch_size_spec() ==> r
                == Err::<(), Errors>(Errors::BatchOverflow) && *final(self) == *old(self),
            key@.len() > 0 && old(self).staged().len() < old(self).max_batch_size_spec() ==> r
                is Ok && final(self).staged() == stage_set(
                old(self).staged(),
                key@,
                Some(value@),
            ),
            final(self).max_batch_size_spec() == old(self).max_batch_size_spec(),
            final(self).config_spec() == old(self).config_spec(),
    {
        if key.len() == 0 {
            return Err(Errors::KeyIsEmpty);
        }
        if self.pending.len() >= self.config.max_batch_size {
            return Err(Errors::BatchOverflow);
        }
        self.stage_record(BatchedLogRecord::Data { key, value });
        Ok(())
    }

    /// Stage a removal of `key`, overwriting what the batch already holds
    /// for that key. Whether the store holds the key is checked only at
    /// commit time, by the tombstone's effect.
    pub fn delete(&mut self, key: Vec<u8>) -> (r: Result<(), Errors>)
        ensures
            key@.len() == 0 ==> r == Err::<(), Errors>(Errors::KeyIsEmpty) && *final(self) == *old(self),
            key@.len() > 0 && old(self).staged().len() >= old(self).max_batch_size_spec() ==> r
                == Err::<(), Errors>(Errors::BatchOverflow) && *final(self) == *old(self),
            key@.len() > 0 && old(self).staged().len() < old(self).max_batch_size_spec() ==> r
                is Ok && final(self).staged() == stage_set(
                old(self).staged(),
                key@,
                None::<Seq<u8>>,
            ),
            final(self).max_batch_size_spec() == old(self).max_batch_size_spec(),
            final(self).config_spec() == old(self).config_spec(),
    {
        if key.len() == 0 {
            return Err(Errors::KeyIsEmpty);
        }
        if self.pending.len() >= self.config.max_batch_size {
            return Err(Errors::BatchOverflow);
        }
        self.stage_record(BatchedLogRecord::Tomb { key });
        Ok(())
    }

    fn stage_record(&mut self, record: BatchedLogRecord)
        ensures
            final(self).staged() == stage_set(
                old(self).staged(),
                record.key_spec(),
                record.value_spec(),
            ),
            final(self).config_spec() == old(self).config_spec(),
    {
        let ghost s0 = self.staged();
        let ghost k = record.key_spec();
        let ghost v = record.value_spec();
        let key_probe: Vec<u8> = match &record {
            BatchedLogRecord::Data { key, .. } => clone_bytes(key),
            BatchedLogRecord::Tomb { key } => clone_bytes(key),
        };
        let n: usize = self.pending.len();
        let mut i: usize = 0;
        while i < n
            invariant
                0 <= i <= n,
                self == old(self),
                n == self.pending@.len(),
                forall|j: int| 0 <= j < i ==> (#[trigger] s0[j].0) != k,
            decreases n - i,
        {
            let hit: bool = match &self.pending[i] {
                BatchedLogRecord::Data { key, .. } => lex_compare(key, &key_probe) == 0,
                BatchedLogRecord::Tomb { key } => lex_compare(key, &key_probe) == 0,
            };
            if hit {
                proof {
                    lemma_stage_set_at(s0, i as int, k, v);
                }
                self.pending.set(i, record);
                proof {
                    assert(self.staged() =~= s0.update(i as int, (k, v)));
                }
                return ;
            }
            i = i + 1;
        }
        proof {
            lemma_stage_set_absent(s0, k, v);
        }
        self.pending.push(record);
        proof {
            assert(self.staged() =~= s0.push((k, v)));
        }
    }
}

} // verus!
// Committing a batch against a store: everything staged becomes visible at
// once, or, if the commit never completes, not at all.

verus! {

impl BatchedWrite {
    /// Commit the staged writes atomically: all records land under one fresh
    /// batch id followed by the end marker, the staged mutations reach the
    /// index only then, and the staging buffer is cleared.
    pub fn commit(&mut self, store: &mut crate::store::Store) -> (r: Result<(), Errors>)
        requires
            old(store).wf(),
            old(store).batch_id_spec() < u64::MAX,
            old(store).active_id_spec() as int + old(self).staged().len() + 1 < u32::MAX,
            13 < old(store).max_file_size_spec(),
            forall|i: int|
                0 <= i < old(self).staged().len() ==> staged_fits(
                    #[trigger] old(self).staged()[i],
                    old(store).max_file_size_spec(),
                ) && old(self).staged()[i].0.len() + 21 + match old(self).staged()[i].1 {
                    Some(v) => v.len(),
                    None => 0,
                } <= usize::MAX,
        ensures
            r is Ok,
            final(store).wf(),
            final(store).same_config(*old(store)),
            final(store).batch_id_spec() == old(store).batch_id_spec() + 1,
            final(store)@ == apply_staged_kv(old(store)@, old(self).staged()),
            final(store).stream_bytes() == old(store).stream_bytes() + batch_records_bytes(
                old(self).staged(),
                old(store).batch_id_spec(),
            ) + (crate::records::RecordModel::BatchDone {
                batch_id: old(store).batch_id_spec(),
            }).wire_bytes(),
            final(self).staged() == Seq::<(Seq<u8>, Option<Seq<u8>>)>::empty(),
            final(self).config_spec() == old(self).config_spec(),
    {
        let outcome = store.commit_batch(&self.pending);
        match outcome {
            Ok(()) => {
                self.pending = Vec::new();
                proof {
                    assert(self.staged() =~= Seq::<(Seq<u8>, Option<Seq<u8>>)>::empty());
                }
                Ok(())
            },
            Err(e) => Err(e),
        }
    }
}

} // verus!
