//! The concurrent skip-list key index: the same interface and contracts as
//! the ordered in-memory tree, with the map held in a lock-free skip list
//! of the `crossbeam_skiplist` crate behind trusted wrappers.

use vstd::prelude::*;

use crate::index::{clone_bytes, entries_sorted, lex_lt, EntryModel, IndexEntry};
use crate::iter::KeyIteratorOptions;
use crate::records::LogRecordPtr;

verus! {

#[verifier::external_type_specification]
#[verifier::external_body]
#[verifier::reject_recursive_types(K)]
#[verifier::reject_recursive_types(V)]
pub struct ExSkipMap<K, V>(crossbeam_skiplist::SkipMap<K, V>);

/// What a skip list holds: the map from each stored key's bytes to its
/// pointer.
pub uninterp spec fn skiplist_entries(
    m: crossbeam_skiplist::SkipMap<Vec<u8>, LogRecordPtr>,
) -> Map<Seq<u8>, LogRecordPtr>;

/// Relies on `crossbeam_skiplist::SkipMap::new`: a fresh map is empty.
#[verifier::external_body]
fn skiplist_new() -> (r: crossbeam_skiplist::SkipMap<Vec<u8>, LogRecordPtr>)
    ensures
        forall|k: Seq<u8>| !skiplist_entries(r).contains_key(k),
{
    crossbeam_skiplist::SkipMap::new()
}

/// Relies on `crossbeam_skiplist::SkipMap::get`: the entry stored under the
/// key, if one is.
#[verifier::external_body]
fn skiplist_get(
    m: &crossbeam_skiplist::SkipMap<Vec<u8>, LogRecordPtr>,
    key: &Vec<u8>,
) -> (r: Option<LogRecordPtr>)
    ensures
        r == if skiplist_entries(*m).contains_key(key@) {
            Some(skiplist_entries(*m)[key@])
        } else {
            None::<LogRecordPtr>
        },
{
    m.get(key).map(|entry| *entry.value())
}

/// Relies on `crossbeam_skiplist::SkipMap::insert`: the pair is stored,
/// replacing any value the key held.
#[verifier::external_body]
fn skiplist_insert(
    m: &mut crossbeam_skiplist::SkipMap<Vec<u8>, LogRecordPtr>,
    key: Vec<u8>,
    ptr: LogRecordPtr,
)
    ensures
        skiplist_entries(*final(m)) == skiplist_entries(*old(m)).insert(key@, ptr),
{
    m.insert(key, ptr);
}

/// Relies on `crossbeam_skiplist::SkipMap::remove`: the key's entry leaves
/// the map and comes back, if one was stored.
#[verifier::external_body]
fn skiplist_remove(
    m: &mut crossbeam_skiplist::SkipMap<Vec<u8>, LogRecordPtr>,
    key: &Vec<u8>,
) -> (r: Option<LogRecordPtr>)
    ensures
        skiplist_entries(*final(m)) == skiplist_entries(*old(m)).remove(key@),
        r == if skiplist_entries(*old(m)).contains_key(key@) {
            Some(skiplist_entries(*old(m))[key@])
        } else {
            None::<LogRecordPtr>
        },
{
    m.remove(key).map(|entry| *entry.value())
}

/// Relies on `crossbeam_skiplist::SkipMap::iter`: every stored entry comes
/// out exactly once, keys from least to greatest in `Vec<u8>`'s order,
/// which is byte-lexicographic.
#[verifier::external_body]
fn skiplist_collect(m: &crossbeam_skiplist::SkipMap<Vec<u8>, LogRecordPtr>) -> (r: Vec<
    IndexEntry,
>)
    ensures
        entries_sorted(crate::index::deep_entries(r@)),
        forall|i: int|
            0 <= i < r@.len() ==> skiplist_entries(*m).contains_key((#[trigger] r@[i]).0@)
                && skiplist_entries(*m)[r@[i].0@] == r@[i].1,
        forall|k: Seq<u8>| #[trigger]
            skiplist_entries(*m).contains_key(k) ==> exists|i: int|
                0 <= i < r@.len() && (#[trigger] r@[i]).0@ == k,
{
    let mut out: Vec<IndexEntry> = Vec::new();
    for entry in m.iter() {
        out.push((entry.key().clone(), *entry.value()));
    }
    out
}

/// A lock-free skip-list key index with the ordered map's interface.
pub struct SkiplistIndex {
    list: crossbeam_skiplist::SkipMap<Vec<u8>, LogRecordPtr>,
}

impl SkiplistIndex {
    /// The map this index denotes.
    pub closed spec fn view(&self) -> Map<Seq<u8>, LogRecordPtr> {
        skiplist_entries(self.list)
    }

    pub fn new() -> (r: Self)
        ensures
            r@ == Map::<Seq<u8>, LogRecordPtr>::empty(),
    {
        let r = SkiplistIndex { list: skiplist_new() };
        proof {
            assert(r@ =~= Map::<Seq<u8>, LogRecordPtr>::empty());
        }
        r
    }

    /// Store `ptr` under `key`, returning the pointer it replaces, if any.
    pub fn put(&mut self, key: Vec<u8>, ptr: LogRecordPtr) -> (r: Option<LogRecordPtr>)
        ensures
            final(self)@ == old(self)@.insert(key@, ptr),
            r == if old(self)@.contains_key(key@) {
                Some(old(self)@[key@])
            } else {
                None::<LogRecordPtr>
            },
    {
        let prev: Option<LogRecordPtr> = skiplist_get(&self.list, &key);
        skiplist_insert(&mut self.list, key, ptr);
        prev
    }

    /// Remove `key`, returning the pointer it held, if any.
    pub fn delete(&mut self, key: Vec<u8>) -> (r: Option<LogRecordPtr>)
        ensures
            final(self)@ == old(self)@.remove(key@),
            r == if old(self)@.contains_key(key@) {
                Some(old(self)@[key@])
            } else {
                None::<LogRecordPtr>
            },
    {
        skiplist_remove(&mut self.list, &key)
    }

    /// Look up the pointer stored under `key`.
    pub fn get(&self, key: Vec<u8>) -> (r: Option<LogRecordPtr>)
        ensures
            r == if self@.contains_key(key@) {
                Some(self@[key@])
            } else {
                None::<LogRecordPtr>
            },
    {
        skiplist_get(&self.list, &key)
    }

    /// A snapshot of the entries for iteration, in ascending key order:
    /// every live key exactly once, each with its stored pointer.
    pub fn iter_snapshot(&self) -> (r: KeyIteratorOptions)
        ensures
            !r.reversed(),
            r.prefix() is None,
            entries_sorted(r.items_seq()),
            forall|i: int|
                0 <= i < r.items_seq().len() ==> self@.contains_key(
                    (#[trigger] r.items_seq()[i]).0,
                ) && self@[r.items_seq()[i].0] == r.items_seq()[i].1,
            forall|k: Seq<u8>| #[trigger]
                self@.contains_key(k) ==> exists|i: int|
                    0 <= i < r.items_seq().len() && (#[trigger] r.items_seq()[i]).0 == k,
    {
        let snap: Vec<IndexEntry> = skiplist_collect(&self.list);
        let ghost ds = crate::index::deep_entries(snap@);
        proof {
            assert forall|k: Seq<u8>| #[trigger] self@.contains_key(k) implies exists|i: int|
                0 <= i < ds.len() && (#[trigger] ds[i]).0 == k by {
                let i = choose|i: int| 0 <= i < snap@.len() && (#[trigger] snap@[i]).0@ == k;
                assert(ds[i].0 == k);
            }
        }
        KeyIteratorOptions::begin(snap)
    }

    /// An independent index holding the same entries.
    pub fn deepcopy(&self) -> (r: Self)
        ensures
            r@ == self@,
    {
        let entries: Vec<IndexEntry> = skiplist_collect(&self.list);
        let ghost es = crate::index::deep_entries(entries@);
        let mut copy = SkiplistIndex::new();
        let n: usize = entries.len();
        let mut i: usize = 0;
        while i < n
            invariant
                0 <= i <= n,
                n == entries@.len(),
                forall|k: Seq<u8>|
                    copy@.contains_key(k) <==> exists|j: int|
                        0 <= j < i && (#[trigger] es[j]).0 == k,
                forall|k: Seq<u8>| #[trigger]
                    copy@.contains_key(k) ==> self@.contains_key(k) && copy@[k] == self@[k],
            decreases n - i,
        {
            proof {
                assert(es[i as int].0 == entries@[i as int].0@ && es[i as int].1 == entries@[
                    i as int].1);
                assert(self@.contains_key(es[i as int].0) && self@[es[i as int].0] == es[
                    i as int].1);
            }
            let key: Vec<u8> = clone_bytes(&entries[i].0);
            copy.put(key, entries[i].1);
            i = i + 1;
        }
        proof {
            assert forall|k: Seq<u8>| #[trigger] self@.contains_key(k) implies copy@.contains_key(
                k,
            ) by {
                let j = choose|j: int| 0 <= j < entries@.len() && (#[trigger] entries@[j]).0@ == k;
                assert(es[j].0 == k);
            }
            assert(copy@ =~= self@);
        }
        copy
    }
}

} // verus!
