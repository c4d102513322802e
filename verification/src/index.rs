//! The in-memory key index: byte keys ordered lexicographically, each mapped
//! to the pointer of its latest live record.

use vstd::pervasive::VecAdditionalExecFns;
use vstd::prelude::*;

use crate::iter::KeyIteratorOptions;
use crate::records::LogRecordPtr;

verus! {

/// Strict byte-lexicographic order: a proper prefix sorts first, otherwise
/// the first differing byte decides.
pub open spec fn lex_lt(a: Seq<u8>, b: Seq<u8>) -> bool
    decreases a.len(),
{
    if b.len() == 0 {
        false
    } else if a.len() == 0 {
        true
    } else if a[0] < b[0] {
        true
    } else if a[0] > b[0] {
        false
    } else {
        lex_lt(a.skip(1), b.skip(1))
    }
}

pub proof fn lemma_lex_irrefl(a: Seq<u8>)
    ensures
        !lex_lt(a, a),
    decreases a.len(),
{
    if a.len() > 0 {
        lemma_lex_irrefl(a.skip(1));
    }
}

pub proof fn lemma_lex_asym(a: Seq<u8>, b: Seq<u8>)
    requires
        lex_lt(a, b),
    ensures
        !lex_lt(b, a),
        a != b,
    decreases a.len(),
{
    if a.len() > 0 && b.len() > 0 && a[0] == b[0] {
        lemma_lex_asym(a.skip(1), b.skip(1));
        assert(a != b) by {
            assert(a.skip(1) != b.skip(1));
        }
    }
}

pub proof fn lemma_lex_connex(a: Seq<u8>, b: Seq<u8>)
    ensures
        lex_lt(a, b) || lex_lt(b, a) || a == b,
    decreases a.len(),
{
    if a.len() > 0 && b.len() > 0 && a[0] == b[0] {
        lemma_lex_connex(a.skip(1), b.skip(1));
        if a.skip(1) == b.skip(1) {
            assert(a =~= b) by {
                assert(forall|i: int|
                    1 <= i < a.len() ==> a[i] == a.skip(1)[i - 1] && b[i] == b.skip(1)[i - 1]);
            }
        }
    }
}

pub proof fn lemma_lex_trans(a: Seq<u8>, b: Seq<u8>, c: Seq<u8>)
    requires
        lex_lt(a, b),
        lex_lt(b, c),
    ensures
        lex_lt(a, c),
    decreases a.len(),
{
    if a.len() > 0 && b.len() > 0 && c.len() > 0 {
        if a[0] == b[0] && b[0] == c[0] {
            lemma_lex_trans(a.skip(1), b.skip(1), c.skip(1));
        }
    }
}

/// The first point of difference decides the order: if `a` and `b` agree on
/// the first `i` bytes and either `a` ends there or its next byte is the
/// smaller one, then `a` sorts strictly first.
pub proof fn lemma_lex_from_diff(a: Seq<u8>, b: Seq<u8>, i: int)
    requires
        0 <= i <= a.len(),
        i <= b.len(),
        forall|j: int| 0 <= j < i ==> a[j] == b[j],
        i < b.len(),
        i == a.len() || a[i] < b[i],
    ensures
        lex_lt(a, b),
    decreases i,
{
    if i == 0 {
    } else {
        assert(a[0] == b[0]);
        lemma_lex_from_diff(a.skip(1), b.skip(1), i - 1);
    }
}

/// Three-way byte comparison, proved against `lex_lt`.
pub fn lex_compare(a: &Vec<u8>, b: &Vec<u8>) -> (r: i8)
    ensures
        r == -1i8 <==> lex_lt(a@, b@),
        r == 0i8 <==> a@ == b@,
        r == 1i8 <==> lex_lt(b@, a@),
{
    let a_len: usize = a.len();
    let b_len: usize = b.len();
    let min_len: usize = if a_len < b_len {
        a_len
    } else {
        b_len
    };
    let mut i: usize = 0;
    while i < min_len
        invariant
            0 <= i <= min_len,
            forall|j: int| 0 <= j < i ==> a@[j] == b@[j],
        decreases min_len - i,
    {
        if a[i] < b[i] {
            proof {
                lemma_lex_from_diff(a@, b@, i as int);
                lemma_lex_asym(a@, b@);
            }
            return -1;
        }
        if a[i] > b[i] {
            proof {
                lemma_lex_from_diff(b@, a@, i as int);
                lemma_lex_asym(b@, a@);
            }
            return 1;
        }
        i = i + 1;
    }
    if a_len == b_len {
        proof {
            assert(a@ =~= b@);
            lemma_lex_irrefl(a@);
        }
        0
    } else if a_len < b_len {
        proof {
            lemma_lex_from_diff(a@, b@, a_len as int);
            lemma_lex_asym(a@, b@);
        }
        -1
    } else {
        proof {
            lemma_lex_from_diff(b@, a@, b_len as int);
            lemma_lex_asym(b@, a@);
        }
        1
    }
}

/// One index entry as stored: a key and the pointer of its latest record.
pub type IndexEntry = (Vec<u8>, LogRecordPtr);

/// The spec-level value of an entry: the key's bytes and the pointer.
pub type EntryModel = (Seq<u8>, LogRecordPtr);

/// The spec-level value of an entry sequence.
pub open spec fn deep_entries(s: Seq<IndexEntry>) -> Seq<EntryModel> {
    Seq::new(s.len(), |i: int| (s[i].0@, s[i].1))
}

/// The pointer stored for `k`, scanning entries front to back.
pub open spec fn spec_find(s: Seq<EntryModel>, k: Seq<u8>) -> Option<LogRecordPtr>
    decreases s.len(),
{
    if s.len() == 0 {
        None
    } else if s[0].0 == k {
        Some(s[0].1)
    } else {
        spec_find(s.skip(1), k)
    }
}

/// Entries are strictly ascending by key.
pub open spec fn entries_sorted(s: Seq<EntryModel>) -> bool {
    forall|i: int, j: int| 0 <= i < j < s.len() ==> lex_lt(#[trigger] s[i].0, #[trigger] s[j].0)
}

/// The map an entry sequence denotes.
pub open spec fn entries_map(s: Seq<EntryModel>) -> Map<Seq<u8>, LogRecordPtr> {
    Map::new(|k: Seq<u8>| spec_find(s, k) is Some, |k: Seq<u8>| spec_find(s, k)->Some_0)
}

pub proof fn lemma_find_absent(s: Seq<EntryModel>, k: Seq<u8>)
    requires
        forall|i: int| 0 <= i < s.len() ==> (#[trigger] s[i].0) != k,
    ensures
        spec_find(s, k) is None,
    decreases s.len(),
{
    if s.len() > 0 {
        lemma_find_absent(s.skip(1), k);
    }
}

pub proof fn lemma_find_at(s: Seq<EntryModel>, k: Seq<u8>, i: int)
    requires
        0 <= i < s.len(),
        s[i].0 == k,
        forall|j: int| 0 <= j < i ==> (#[trigger] s[j].0) != k,
    ensures
        spec_find(s, k) == Some(s[i].1),
    decreases i,
{
    if i > 0 {
        lemma_find_at(s.skip(1), k, i - 1);
    }
}

pub proof fn lemma_find_some_exists(s: Seq<EntryModel>, k: Seq<u8>)
    requires
        spec_find(s, k) is Some,
    ensures
        exists|i: int| 0 <= i < s.len() && (#[trigger] s[i].0) == k,
    decreases s.len(),
{
    if s.len() > 0 && s[0].0 != k {
        lemma_find_some_exists(s.skip(1), k);
        let i = choose|i: int| 0 <= i < s.skip(1).len() && (#[trigger] s.skip(1)[i].0) == k;
        assert(s[i + 1].0 == k);
    }
}

/// Sorted entries carry pairwise distinct keys.
pub proof fn lemma_sorted_distinct(s: Seq<EntryModel>)
    requires
        entries_sorted(s),
    ensures
        forall|i: int, j: int|
            0 <= i < s.len() && 0 <= j < s.len() && i != j ==> (#[trigger] s[i].0) != (
            #[trigger] s[j].0),
{
    assert forall|i: int, j: int|
        0 <= i < s.len() && 0 <= j < s.len() && i != j implies (#[trigger] s[i].0) != (
    #[trigger] s[j].0) by {
        if i < j {
            lemma_lex_asym(s[i].0, s[j].0);
        } else {
            lemma_lex_asym(s[j].0, s[i].0);
        }
    }
}

pub proof fn lemma_find_insert(s: Seq<EntryModel>, pos: int, e: EntryModel, k: Seq<u8>)
    requires
        0 <= pos <= s.len(),
        forall|i: int| 0 <= i < s.len() ==> (#[trigger] s[i].0) != e.0,
    ensures
        spec_find(s.insert(pos, e), k) == if k == e.0 {
            Some(e.1)
        } else {
            spec_find(s, k)
        },
    decreases pos,
{
    let s2 = s.insert(pos, e);
    if pos == 0 {
        assert(s2.skip(1) =~= s);
    } else {
        assert(s2[0] == s[0]);
        lemma_find_insert(s.skip(1), pos - 1, e, k);
        assert(s2.skip(1) =~= s.skip(1).insert(pos - 1, e));
    }
}

pub proof fn lemma_find_update(s: Seq<EntryModel>, i: int, e: EntryModel, k: Seq<u8>)
    requires
        0 <= i < s.len(),
        s[i].0 == e.0,
        forall|j: int| 0 <= j < i ==> (#[trigger] s[j].0) != e.0,
    ensures
        spec_find(s.update(i, e), k) == if k == e.0 {
            Some(e.1)
        } else {
            spec_find(s, k)
        },
    decreases i,
{
    let s2 = s.update(i, e);
    if i == 0 {
        assert(s2.skip(1) =~= s.skip(1));
    } else {
        assert(s2[0] == s[0]);
        lemma_find_update(s.skip(1), i - 1, e, k);
        assert(s2.skip(1) =~= s.skip(1).update(i - 1, e));
    }
}

pub proof fn lemma_find_remove(s: Seq<EntryModel>, i: int, k: Seq<u8>)
    requires
        0 <= i < s.len(),
        forall|j: int| 0 <= j < s.len() && j != i ==> (#[trigger] s[j].0) != s[i].0,
    ensures
        spec_find(s.remove(i), k) == if k == s[i].0 {
            None
        } else {
            spec_find(s, k)
        },
    decreases i,
{
    let s2 = s.remove(i);
    if i == 0 {
        assert(s2 =~= s.skip(1));
        if k == s[0].0 {
            lemma_find_absent(s.skip(1), k);
        }
    } else {
        assert(s2[0] == s[0]);
        lemma_find_remove(s.skip(1), i - 1, k);
        assert(s2.skip(1) =~= s.skip(1).remove(i - 1));
    }
}

/// Which key index implementation a store builds.
#[derive(Debug, Clone, Copy, PartialEq, Eq, Structural)]
pub enum IndexType {
    BTree,
    Skiplist,
    DiskTree,
}

/// An ordered in-memory key index: entries kept strictly sorted by key.
#[derive(Debug)]
pub struct BTreeIndex {
    entries: Vec<IndexEntry>,
}

impl BTreeIndex {
    /// The map this index denotes.
    pub closed spec fn view(&self) -> Map<Seq<u8>, LogRecordPtr> {
        entries_map(deep_entries(self.entries@))
    }

    /// The entries in ascending key order.
    pub closed spec fn entry_seq(&self) -> Seq<EntryModel> {
        deep_entries(self.entries@)
    }

    /// Well-formed: entries strictly sorted by key.
    pub closed spec fn wf(&self) -> bool {
        entries_sorted(deep_entries(self.entries@))
    }

    pub proof fn lemma_entry_seq_matches_view(&self)
        requires
            self.wf(),
        ensures
            entries_sorted(self.entry_seq()),
            entries_map(self.entry_seq()) == self@,
            forall|i: int|
                0 <= i < self.entry_seq().len() ==> self@.contains_key(
                    #[trigger] self.entry_seq()[i].0,
                ) && self@[self.entry_seq()[i].0] == self.entry_seq()[i].1,
    {
        let s = self.entry_seq();
        lemma_sorted_distinct(s);
        assert forall|i: int| 0 <= i < s.len() implies self@.contains_key(#[trigger] s[i].0)
            && self@[s[i].0] == s[i].1 by {
            lemma_find_at(s, s[i].0, i);
        }
    }

    pub fn new() -> (r: Self)
        ensures
            r.wf(),
            r@ == Map::<Seq<u8>, LogRecordPtr>::empty(),
            r.entry_seq().len() == 0,
    {
        let r = BTreeIndex { entries: Vec::new() };
        proof {
            assert(r@ =~= Map::<Seq<u8>, LogRecordPtr>::empty());
        }
        r
    }

    /// Index of the first entry whose key is not below `key`; `len` if all
    /// are.
    fn lower_bound(&self, key: &Vec<u8>) -> (r: usize)
        ensures
            0 <= r <= self.entry_seq().len(),
            forall|j: int| 0 <= j < r ==> lex_lt(#[trigger] self.entry_seq()[j].0, key@),
            r < self.entry_seq().len() ==> !lex_lt(self.entry_seq()[r as int].0, key@),
    {
        let n: usize = self.entries.len();
        let mut i: usize = 0;
        while i < n
            invariant
                0 <= i <= n,
                forall|j: int| 0 <= j < i ==> lex_lt(#[trigger] deep_entries(self.entries@)[j].0, key@),
            decreases n - i,
        {
            if lex_compare(&self.entries[i].0, key) != -1 {
                return i;
            }
            i = i + 1;
        }
        i
    }

    /// Store `ptr` under `key`, returning the pointer it replaces, if any.
    pub fn put(&mut self, key: Vec<u8>, ptr: LogRecordPtr) -> (r: Option<LogRecordPtr>)
        requires
            old(self).wf(),
        ensures
            final(self).wf(),
            final(self)@ == old(self)@.insert(key@, ptr),
            r == if old(self)@.contains_key(key@) {
                Some(old(self)@[key@])
            } else {
                None::<LogRecordPtr>
            },
    {
        let ghost s0 = deep_entries(self.entries@);
        proof {
            lemma_sorted_distinct(s0);
        }
        let pos: usize = self.lower_bound(&key);
        if pos < self.entries.len() && lex_compare(&self.entries[pos].0, &key) == 0 {
            let prev: LogRecordPtr = self.entries[pos].1;
            proof {
                assert forall|j: int| 0 <= j < pos implies (#[trigger] s0[j].0) != key@ by {
                    lemma_lex_asym(s0[j].0, key@);
                }
                lemma_find_at(s0, key@, pos as int);
                assert forall|k2: Seq<u8>| true implies spec_find(
                    s0.update(pos as int, (key@, ptr)),
                    k2,
                ) == if k2 == key@ {
                    Some(ptr)
                } else {
                    spec_find(s0, k2)
                } by {
                    lemma_find_update(s0, pos as int, (key@, ptr), k2);
                }
            }
            self.entries.set(pos, (key, ptr));
            proof {
                assert(deep_entries(self.entries@) =~= s0.update(pos as int, (key@, ptr)));
                assert(entries_sorted(deep_entries(self.entries@)));
                assert(self@ =~= entries_map(s0).insert(key@, ptr));
            }
            Some(prev)
        } else {
            proof {
                assert forall|j: int| 0 <= j < s0.len() implies (#[trigger] s0[j].0) != key@ by {
                    if j < pos {
                        lemma_lex_asym(s0[j].0, key@);
                    } else if j == pos {
                    } else {
                        lemma_lex_trans_chain(s0, pos as int, j, key@);
                    }
                }
                lemma_find_absent(s0, key@);
                assert forall|k2: Seq<u8>| true implies spec_find(
                    s0.insert(pos as int, (key@, ptr)),
                    k2,
                ) == if k2 == key@ {
                    Some(ptr)
                } else {
                    spec_find(s0, k2)
                } by {
                    lemma_find_insert(s0, pos as int, (key@, ptr), k2);
                }
            }
            self.entries.insert(pos, (key, ptr));
            proof {
                let s2 = deep_entries(self.entries@);
                assert(s2 =~= s0.insert(pos as int, (key@, ptr)));
                assert(entries_sorted(s2)) by {
                    assert forall|i: int, j: int| 0 <= i < j < s2.len() implies lex_lt(
                        #[trigger] s2[i].0,
                        #[trigger] s2[j].0,
                    ) by {
                        if i < pos && j == pos {
                        } else if i == pos && j > pos {
                            lemma_key_above(s0, pos as int, j - 1, key@);
                        } else if i < pos && j > pos {
                            assert(lex_lt(s0[i].0, s0[j - 1].0));
                        } else if i > pos && j > pos {
                            assert(lex_lt(s0[i - 1].0, s0[j - 1].0));
                        }
                    }
                }
                assert(self@ =~= entries_map(s0).insert(key@, ptr));
            }
            None
        }
    }

    /// Remove `key`, returning the pointer it held, if any.
    pub fn delete(&mut self, key: Vec<u8>) -> (r: Option<LogRecordPtr>)
        requires
            old(self).wf(),
        ensures
            final(self).wf(),
            final(self)@ == old(self)@.remove(key@),
            r == if old(self)@.contains_key(key@) {
                Some(old(self)@[key@])
            } else {
                None::<LogRecordPtr>
            },
    {
        let ghost s0 = deep_entries(self.entries@);
        proof {
            lemma_sorted_distinct(s0);
        }
        let pos: usize = self.lower_bound(&key);
        if pos < self.entries.len() && lex_compare(&self.entries[pos].0, &key) == 0 {
            proof {
                assert forall|j: int| 0 <= j < pos implies (#[trigger] s0[j].0) != key@ by {
                    lemma_lex_asym(s0[j].0, key@);
                }
                lemma_find_at(s0, key@, pos as int);
                assert forall|k2: Seq<u8>| true implies spec_find(s0.remove(pos as int), k2)
                    == if k2 == key@ {
                    None::<LogRecordPtr>
                } else {
                    spec_find(s0, k2)
                } by {
                    lemma_find_remove(s0, pos as int, k2);
                }
            }
            let prev: IndexEntry = self.entries.remove(pos);
            proof {
                let s2 = deep_entries(self.entries@);
                assert(s2 =~= s0.remove(pos as int));
                assert(entries_sorted(s2)) by {
                    assert forall|i: int, j: int| 0 <= i < j < s2.len() implies lex_lt(
                        #[trigger] s2[i].0,
                        #[trigger] s2[j].0,
                    ) by {
                        if j < pos {
                            assert(lex_lt(s0[i].0, s0[j].0));
                        } else if i < pos {
                            assert(lex_lt(s0[i].0, s0[j + 1].0));
                        } else {
                            assert(lex_lt(s0[i + 1].0, s0[j + 1].0));
                        }
                    }
                }
                assert(self@ =~= entries_map(s0).remove(key@));
            }
            Some(prev.1)
        } else {
            proof {
                assert forall|j: int| 0 <= j < s0.len() implies (#[trigger] s0[j].0) != key@ by {
                    if j < pos {
                        lemma_lex_asym(s0[j].0, key@);
                    } else if j == pos {
                    } else {
                        lemma_lex_trans_chain(s0, pos as int, j, key@);
                    }
                }
                lemma_find_absent(s0, key@);
                assert(self@ =~= entries_map(s0).remove(key@));
            }
            None
        }
    }

    /// Look up the pointer stored under `key`.
    pub fn get(&self, key: Vec<u8>) -> (r: Option<LogRecordPtr>)
        requires
            self.wf(),
        ensures
            r == if self@.contains_key(key@) {
                Some(self@[key@])
            } else {
                None::<LogRecordPtr>
            },
    {
        let ghost s0 = deep_entries(self.entries@);
        proof {
            lemma_sorted_distinct(s0);
        }
        let n: usize = self.entries.len();
        let mut i: usize = 0;
        while i < n
            invariant
                0 <= i <= n,
                forall|j: int| 0 <= j < i ==> (#[trigger] s0[j].0) != key@,
            decreases n - i,
        {
            if lex_compare(&self.entries[i].0, &key) == 0 {
                proof {
                    lemma_find_at(s0, key@, i as int);
                }
                return Some(self.entries[i].1);
            }
            i = i + 1;
        }
        proof {
            lemma_find_absent(s0, key@);
        }
        None
    }

    /// A snapshot of the entries for iteration, in ascending key order.
    pub fn iter_snapshot(&self) -> (r: KeyIteratorOptions)
        requires
            self.wf(),
        ensures
            r.items_seq() == self.entry_seq(),
            !r.reversed(),
            r.prefix() is None,
    {
        KeyIteratorOptions::begin(clone_entries(&self.entries))
    }

    /// An independent index holding the same entries.
    pub fn deepcopy(&self) -> (r: Self)
        requires
            self.wf(),
        ensures
            r.wf(),
            r@ == self@,
            r.entry_seq() == self.entry_seq(),
    {
        BTreeIndex { entries: clone_entries(&self.entries) }
    }
}

/// Entries at or after `pos` stay strictly above `key` when the entry at
/// `pos` is neither below nor equal to it.
proof fn lemma_key_above(s: Seq<EntryModel>, pos: int, j: int, key: Seq<u8>)
    requires
        entries_sorted(s),
        0 <= pos <= j < s.len(),
        !lex_lt(s[pos].0, key),
        s[pos].0 != key,
    ensures
        lex_lt(key, s[j].0),
{
    lemma_lex_connex(s[pos].0, key);
    if pos < j {
        lemma_lex_trans(key, s[pos].0, s[j].0);
    }
}

/// A key that stops below the entry at `pos` differs from every later key.
proof fn lemma_lex_trans_chain(s: Seq<EntryModel>, pos: int, j: int, key: Seq<u8>)
    requires
        entries_sorted(s),
        0 <= pos < j < s.len(),
        !lex_lt(s[pos].0, key),
        s[pos].0 != key,
    ensures
        s[j].0 != key,
{
    lemma_key_above(s, pos, j, key);
    lemma_lex_asym(key, s[j].0);
}

/// Element-for-element copy of an entry vector.
fn clone_entries(entries: &Vec<IndexEntry>) -> (r: Vec<IndexEntry>)
    ensures
        deep_entries(r@) == deep_entries(entries@),
{
    let mut out: Vec<IndexEntry> = Vec::new();
    let n: usize = entries.len();
    let mut i: usize = 0;
    while i < n
        invariant
            0 <= i <= n,
            out@.len() == i,
            forall|j: int|
                0 <= j < i ==> (#[trigger] out@[j]).0@ == entries@[j].0@ && out@[j].1
                    == entries@[j].1,
        decreases n - i,
    {
        let key: Vec<u8> = clone_bytes(&entries[i].0);
        out.push((key, entries[i].1));
        i = i + 1;
    }
    proof {
        assert(deep_entries(out@) =~= deep_entries(entries@));
    }
    out
}

/// Byte-for-byte copy of a key or value.
pub fn clone_bytes(v: &Vec<u8>) -> (r: Vec<u8>)
    ensures
        r@ == v@,
{
    let mut out: Vec<u8> = Vec::new();
    let n: usize = v.len();
    let mut i: usize = 0;
    while i < n
        invariant
            0 <= i <= n,
            out@.len() == i,
            forall|j: int| 0 <= j < i ==> out@[j] == v@[j],
        decreases n - i,
    {
        out.push(v[i]);
        i = i + 1;
    }
    proof {
        assert(out@ =~= v@);
    }
    out
}

} // verus!
