//! Compaction: rewrite the live key set into a fresh store whose log holds
//! exactly one record per live key, plus the snapshot marker and the plan
//! for splicing concurrent tail writes back in.

use vstd::prelude::*;

use crate::errors::Errors;
use crate::store::Store;

verus! {

/// The snapshot taken when compaction started: how much of which segment
/// the compacted data covers. Everything past it must be carried over.
#[derive(Debug, Clone, Copy, PartialEq, Eq, Structural)]
pub struct MergeMetadata {
    pub cur_active_file_id: u32,
    pub cur_write_offset: u64,
}

/// One step of the tail carry-over: copy `src_id` from `from_offset` on
/// into a fresh segment numbered `dest_id` of the compacted stream.
#[derive(Debug, Clone, Copy, PartialEq, Eq, Structural)]
pub struct CopyStep {
    pub src_id: u32,
    pub from_offset: u64,
    pub dest_id: u32,
}

/// The byte stream a compaction must produce: one data record per live
/// entry, in ascending key order, and nothing else.
pub open spec fn compact_stream(
    es: Seq<crate::index::EntryModel>,
    kv: Map<Seq<u8>, Seq<u8>>,
) -> Seq<u8>
    decreases es.len(),
{
    if es.len() == 0 {
        Seq::empty()
    } else {
        compact_stream(es.drop_last(), kv) + (crate::records::RecordModel::Data {
            key: es.last().0,
            value: kv[es.last().0],
        }).wire_bytes()
    }
}

/// The bytes the live records occupy: framing plus key plus value, summed.
pub open spec fn live_records_size(
    es: Seq<crate::index::EntryModel>,
    kv: Map<Seq<u8>, Seq<u8>>,
) -> int
    decreases es.len(),
{
    if es.len() == 0 {
        0
    } else {
        live_records_size(es.drop_last(), kv) + 13 + es.last().0.len() + kv[es.last().0].len()
    }
}

/// The compacted stream is exactly as large as the live records.
pub proof fn lemma_compact_stream_len(es: Seq<crate::index::EntryModel>, kv: Map<Seq<u8>, Seq<u8>>)
    ensures
        compact_stream(es, kv).len() == live_records_size(es, kv),
    decreases es.len(),
{
    if es.len() > 0 {
        lemma_compact_stream_len(es.drop_last(), kv);
        crate::records::lemma_wire_bytes_len(
            crate::records::RecordModel::Data { key: es.last().0, value: kv[es.last().0] },
        );
    }
}

impl Store {
    /// Compact the live key set: build a fresh store holding the same
    /// logical map, one data record per live key, and return it with the
    /// snapshot marker recording how far the compaction covers this store.
    pub fn merge_compact(&self) -> (r: Result<(Store, MergeMetadata), Errors>)
        requires
            self.wf(),
            self.key_count() < 0xFFFF_FFFE,
            13 < self.max_file_size_spec(),
            forall|k: Seq<u8>| #[trigger]
                self@.contains_key(k) ==> 13 + k.len() + self@[k].len()
                    < self.max_file_size_spec() && 13 + k.len() + self@[k].len() <= usize::MAX,
        ensures
            r is Ok,
            r.unwrap().0.wf(),
            r.unwrap().0@ == self@,
            r.unwrap().0.stream_bytes() == compact_stream(self.entry_seq(), self@),
            r.unwrap().0.total_size() == live_records_size(self.entry_seq(), self@),
            r.unwrap().1.cur_active_file_id == self.active_id_spec(),
            r.unwrap().0.max_file_size_spec() == self.max_file_size_spec(),
    {
        proof {
            self.lemma_entries_live();
        }
        let ghost es = self.entry_seq();
        let mut merged = match Store::open(
            self.clone_store_config(),
            self.clone_file_config(),
            self.clone_batched_config(),
            Vec::new(),
        ) {
            Ok(s) => s,
            Err(_) => {
                return Err(Errors::MergeFailure { phase: crate::errors::MergePhase::Compact });
            },
        };
        let mut it = self.index.iter_snapshot().make();
        let mut seen: usize = 0;
        proof {
            assert(es.take(0) =~= Seq::<crate::index::EntryModel>::empty());
            assert(compact_stream(es.take(0), self@) == Seq::<u8>::empty());
        }
        #[verifier::loop_isolation(true)]
        loop
            invariant
                self.wf(),
                merged.wf(),
                merged.max_file_size_spec() == self.max_file_size_spec(),
                merged.active_id_spec() as int <= seen,
                it.items_seq() == es,
                es == self.entry_seq(),
                forall|k: Seq<u8>| #[trigger]
                    self@.contains_key(k) ==> 13 + k.len() + self@[k].len()
                        < self.max_file_size_spec() && 13 + k.len() + self@[k].len() <= usize::MAX,
                forall|k: Seq<u8>| #[trigger]
                    self@.contains_key(k) ==> 0 < k.len() < 0x1_0000_0000 && self@[k].len()
                        < 0x1_0000_0000,
                forall|i: int|
                    0 <= i < es.len() ==> self@.contains_key(#[trigger] es[i].0),
                forall|k: Seq<u8>| #[trigger]
                    self@.contains_key(k) ==> exists|i: int|
                        0 <= i < es.len() && es[i].0 == k,
                es.len() < 0xFFFF_FFFE,
                0 <= it.position() <= es.len(),
                seen == it.position(),
                forall|k: Seq<u8>|
                    merged@.contains_key(k) <==> exists|j: int|
                        0 <= j < it.position() && (#[trigger] es[j]).0 == k,
                forall|k: Seq<u8>| #[trigger]
                    merged@.contains_key(k) ==> self@.contains_key(k) && merged@[k] == self@[k],
                merged.stream_bytes() == compact_stream(es.take(it.position()), self@),
            ensures
                it.position() == es.len(),
                forall|k: Seq<u8>|
                    merged@.contains_key(k) <==> exists|j: int|
                        0 <= j < es.len() && (#[trigger] es[j]).0 == k,
                forall|k: Seq<u8>| #[trigger]
                    merged@.contains_key(k) ==> self@.contains_key(k) && merged@[k] == self@[k],
                merged.stream_bytes() == compact_stream(es, self@),
                merged.wf(),
                merged.max_file_size_spec() == self.max_file_size_spec(),
            decreases es.len() - it.position(),
        {
            match it.next() {
                None => {
                    proof {
                        assert(es.take(it.position()) =~= es);
                    }
                    break ;
                },
                Some((key, _ptr)) => {
                    proof {
                        assert(self@.contains_key(es[seen as int].0));
                    }
                    let value = match self.get(crate::index::clone_bytes(&key)) {
                        Ok(v) => v,
                        Err(_) => Vec::new(),
                    };
                    proof {
                        assert(es.take(seen + 1).drop_last() =~= es.take(seen as int));
                        assert(es.take(seen + 1).last() == es[seen as int]);
                    }
                    let ghost pre = merged@;
                    let put_r = merged.put(key, value);
                    proof {
                        assert(merged.stream_bytes() =~= compact_stream(
                            es.take(seen + 1),
                            self@,
                        ));
                    }
                    seen = seen + 1;
                },
            }
        }
        proof {
            assert(merged@ =~= self@);
            assert(es.take(es.len() as int) =~= es);
            lemma_compact_stream_len(es, self@);
        }
        proof {
            self.lemma_active_id();
        }
        let meta = MergeMetadata {
            cur_active_file_id: self.active_file_id,
            cur_write_offset: self.active_file.get_write_offset(),
        };
        Ok((merged, meta))
    }

    /// Compaction as the public operation: the live store itself is
    /// untouched; the compacted twin and the marker are handed back for the
    /// embedding shell to persist and later swap in.
    pub fn merge(&self) -> (r: Result<(Store, MergeMetadata), Errors>)
        requires
            self.wf(),
            self.key_count() < 0xFFFF_FFFE,
            13 < self.max_file_size_spec(),
            forall|k: Seq<u8>| #[trigger]
                self@.contains_key(k) ==> 13 + k.len() + self@[k].len()
                    < self.max_file_size_spec() && 13 + k.len() + self@[k].len() <= usize::MAX,
        ensures
            r is Ok,
            r.unwrap().0.wf(),
            r.unwrap().0@ == self@,
            r.unwrap().0.stream_bytes() == compact_stream(self.entry_seq(), self@),
            r.unwrap().0.total_size() == live_records_size(self.entry_seq(), self@),
    {
        self.merge_compact()
    }

}

/// The tail carry-over plan: every segment from the snapshot's active one
/// up to the newest gets copied behind the compacted stream, the first from
/// the snapshot offset and the rest whole.
pub fn merge_combine_plan(meta: MergeMetadata, newest_file_id: u32, merge_newest_id: u32) -> (r:
    Vec<CopyStep>)
    requires
        meta.cur_active_file_id <= newest_file_id,
        merge_newest_id as int + (newest_file_id - meta.cur_active_file_id) as int + 1
            <= u32::MAX,
    ensures
        r@.len() == newest_file_id - meta.cur_active_file_id + 1,
        forall|i: int|
            0 <= i < r@.len() ==> (#[trigger] r@[i]) == (CopyStep {
                src_id: (meta.cur_active_file_id + i) as u32,
                from_offset: if i == 0 {
                    meta.cur_write_offset
                } else {
                    0
                },
                dest_id: (merge_newest_id + 1 + i) as u32,
            }),
{
    let mut out: Vec<CopyStep> = Vec::new();
    let total: u32 = newest_file_id - meta.cur_active_file_id;
    let mut i: u32 = 0;
    while i <= total
        invariant
            0 <= i as int <= total as int + 1,
            out@.len() == i,
            forall|j: int|
                0 <= j < i ==> (#[trigger] out@[j]) == (CopyStep {
                    src_id: (meta.cur_active_file_id + j) as u32,
                    from_offset: if j == 0 {
                        meta.cur_write_offset
                    } else {
                        0
                    },
                    dest_id: (merge_newest_id + 1 + j) as u32,
                }),
        decreases total as int + 1 - i as int,
    {
        out.push(
            CopyStep {
                src_id: meta.cur_active_file_id + i,
                from_offset: if i == 0 {
                    meta.cur_write_offset
                } else {
                    0
                },
                dest_id: merge_newest_id + 1 + i,
            },
        );
        i = i + 1;
    }
    out
}

} // verus!
