//! Snapshot iteration over the key index: an options builder with optional
//! reversal and key-prefix filter, and the materialized key iterator.

use vstd::prelude::*;

use crate::index::{
    clone_bytes, deep_entries, entries_sorted, lex_compare, lex_lt, EntryModel, IndexEntry,
};

verus! {

/// `k` begins with the bytes of `p`.
pub open spec fn starts_with(k: Seq<u8>, p: Seq<u8>) -> bool {
    p.len() <= k.len() && k.take(p.len() as int) == p
}

/// The entries whose keys begin with `p`, in their original order.
pub open spec fn filtered_entries(s: Seq<EntryModel>, p: Seq<u8>) -> Seq<EntryModel>
    decreases s.len(),
{
    if s.len() == 0 {
        Seq::empty()
    } else {
        let rest = filtered_entries(s.drop_last(), p);
        if starts_with(s.last().0, p) {
            rest.push(s.last())
        } else {
            rest
        }
    }
}

/// Filtering keeps exactly the entries with the prefix and keeps their
/// order: every kept entry comes from the input, and a sorted input stays
/// sorted.
pub proof fn lemma_filtered_props(s: Seq<EntryModel>, p: Seq<u8>)
    ensures
        forall|e: EntryModel| #[trigger]
            filtered_entries(s, p).contains(e) <==> s.contains(e) && starts_with(e.0, p),
        entries_sorted(s) ==> entries_sorted(filtered_entries(s, p)),
    decreases s.len(),
{
    let out = filtered_entries(s, p);
    if s.len() == 0 {
    } else {
        let head = s.drop_last();
        let rest = filtered_entries(head, p);
        lemma_filtered_props(head, p);
        assert forall|e: EntryModel| #[trigger] out.contains(e) implies s.contains(e)
            && starts_with(e.0, p) by {
            if rest.contains(e) {
                let i = choose|i: int| 0 <= i < head.len() && head[i] == e;
                assert(s[i] == e);
            }
        }
        assert forall|e: EntryModel| s.contains(e) && starts_with(e.0, p) implies #[trigger]
            out.contains(e) by {
            let i = choose|i: int| 0 <= i < s.len() && s[i] == e;
            if i < s.len() - 1 {
                assert(head[i] == e);
                assert(rest.contains(e));
                if starts_with(s.last().0, p) {
                    let j = choose|j: int| 0 <= j < rest.len() && rest[j] == e;
                    assert(out[j] == e);
                }
            } else {
                assert(out.last() == e);
            }
        }
        if entries_sorted(s) {
            assert(entries_sorted(head));
            assert forall|i: int, j: int| 0 <= i < j < out.len() implies lex_lt(
                #[trigger] out[i].0,
                #[trigger] out[j].0,
            ) by {
                if j < rest.len() {
                    assert(rest[i] == out[i] && rest[j] == out[j]);
                } else {
                    assert(out[j] == s.last());
                    assert(rest.contains(rest[i]));
                    assert(head.contains(rest[i]) && starts_with(rest[i].0, p));
                    let m = choose|m: int| 0 <= m < head.len() && head[m] == rest[i];
                    assert(lex_lt(s[m].0, s[s.len() - 1].0));
                }
            }
        }
    }
}

/// The entry sequence a finished iterator walks, given the snapshot, the
/// optional prefix, and the direction.
pub open spec fn materialized(s: Seq<EntryModel>, p: Option<Seq<u8>>, rev: bool) -> Seq<
    EntryModel,
> {
    let kept = match p {
        Some(pre) => filtered_entries(s, pre),
        None => s,
    };
    if rev {
        kept.reverse()
    } else {
        kept
    }
}

/// Builder of a snapshot key iterator: optional reversal and an optional
/// key-prefix filter, applied at `make`.
pub struct KeyIteratorOptions {
    items: Vec<IndexEntry>,
    reversed: bool,
    prefix: Option<Vec<u8>>,
}

impl KeyIteratorOptions {
    /// The snapshot the builder was given.
    pub closed spec fn items_seq(&self) -> Seq<EntryModel> {
        deep_entries(self.items@)
    }

    /// Whether iteration order is reversed.
    pub closed spec fn reversed(&self) -> bool {
        self.reversed
    }

    /// The configured key prefix, if one was set.
    pub closed spec fn prefix(&self) -> Option<Seq<u8>> {
        match self.prefix {
            Some(ref p) => Some(p@),
            None => None,
        }
    }

    /// Start from a snapshot of index entries.
    pub fn begin(items: Vec<IndexEntry>) -> (r: Self)
        ensures
            r.items_seq() == deep_entries(items@),
            !r.reversed(),
            r.prefix() is None,
    {
        KeyIteratorOptions { items, reversed: false, prefix: None }
    }

    /// Toggle reverse iteration.
    pub fn rev(self) -> (r: Self)
        ensures
            r.items_seq() == self.items_seq(),
            r.reversed() == !self.reversed(),
            r.prefix() == self.prefix(),
    {
        KeyIteratorOptions { reversed: !self.reversed, ..self }
    }

    /// Restrict iteration to keys beginning with `prefix`; may be set once.
    pub fn with_prefix(self, prefix: Vec<u8>) -> (r: Self)
        requires
            self.prefix() is None,
        ensures
            r.items_seq() == self.items_seq(),
            r.reversed() == self.reversed(),
            r.prefix() == Some(prefix@),
    {
        KeyIteratorOptions { prefix: Some(prefix), ..self }
    }

    /// Apply the prefix filter and the direction and materialize the
    /// iterator.
    pub fn make(self) -> (r: KeyIterator)
        ensures
            r.items_seq() == materialized(self.items_seq(), self.prefix(), self.reversed()),
            r.position() == 0,
    {
        let KeyIteratorOptions { items, reversed, prefix } = self;
        let kept: Vec<IndexEntry> = match prefix {
            Some(pre) => filter_by_prefix(items, &pre),
            None => items,
        };
        let out: Vec<IndexEntry> = if reversed {
            reverse_entries(kept)
        } else {
            kept
        };
        KeyIterator { items: out, cur_index: 0 }
    }
}

/// Keep the entries whose keys begin with `pre`.
fn filter_by_prefix(items: Vec<IndexEntry>, pre: &Vec<u8>) -> (r: Vec<IndexEntry>)
    ensures
        deep_entries(r@) == filtered_entries(deep_entries(items@), pre@),
{
    let ghost s = deep_entries(items@);
    let n: usize = items.len();
    let mut out: Vec<IndexEntry> = Vec::new();
    let mut i: usize = 0;
    while i < n
        invariant
            0 <= i <= n,
            deep_entries(out@) == filtered_entries(s.take(i as int), pre@),
        decreases n - i,
    {
        let ghost out0 = deep_entries(out@);
        let keep: bool = has_prefix(&items[i].0, pre);
        if keep {
            let e: IndexEntry = (clone_bytes(&items[i].0), items[i].1);
            out.push(e);
            proof {
                assert(deep_entries(out@) =~= out0.push(s[i as int]));
            }
        }
        proof {
            let next = s.take(i + 1 as int);
            assert(next.drop_last() =~= s.take(i as int));
            assert(next.last() == s[i as int]);
        }
        i = i + 1;
    }
    proof {
        assert(s.take(n as int) =~= s);
    }
    out
}

/// Whether `k` begins with the bytes of `pre`.
fn has_prefix(k: &Vec<u8>, pre: &Vec<u8>) -> (r: bool)
    ensures
        r == starts_with(k@, pre@),
{
    let p_len: usize = pre.len();
    if p_len > k.len() {
        return false;
    }
    let mut i: usize = 0;
    while i < p_len
        invariant
            0 <= i <= p_len,
            forall|j: int| 0 <= j < i ==> k@[j] == pre@[j],
        decreases p_len - i,
    {
        if k[i] != pre[i] {
            proof {
                assert(k@.take(p_len as int)[i as int] != pre@[i as int]);
            }
            return false;
        }
        i = i + 1;
    }
    proof {
        assert(k@.take(p_len as int) =~= pre@);
    }
    true
}

/// The entries in the opposite order.
fn reverse_entries(items: Vec<IndexEntry>) -> (r: Vec<IndexEntry>)
    ensures
        deep_entries(r@) == deep_entries(items@).reverse(),
{
    let ghost s = deep_entries(items@);
    let n: usize = items.len();
    let mut out: Vec<IndexEntry> = Vec::new();
    let mut i: usize = 0;
    while i < n
        invariant
            0 <= i <= n,
            out@.len() == i,
            forall|j: int|
                0 <= j < i ==> (#[trigger] out@[j]).0@ == items@[n - 1 - j].0@ && out@[j].1
                    == items@[n - 1 - j].1,
        decreases n - i,
    {
        let e: IndexEntry = (clone_bytes(&items[n - 1 - i].0), items[n - 1 - i].1);
        out.push(e);
        i = i + 1;
    }
    proof {
        assert(deep_entries(out@) =~= s.reverse());
    }
    out
}

/// A materialized snapshot iterator over `(key, pointer)` entries.
#[derive(Debug)]
pub struct KeyIterator {
    pub(crate) items: Vec<IndexEntry>,
    pub(crate) cur_index: usize,
}

impl KeyIterator {
    /// The entries the iterator walks, in iteration order.
    pub closed spec fn items_seq(&self) -> Seq<EntryModel> {
        deep_entries(self.items@)
    }

    /// The position of the next entry to yield.
    pub closed spec fn position(&self) -> int {
        self.cur_index as int
    }

    /// Restart iteration from the first entry.
    pub fn rewind(&mut self)
        ensures
            final(self).items_seq() == old(self).items_seq(),
            final(self).position() == 0,
    {
        self.cur_index = 0;
    }

    /// Position the iterator at the first entry whose key is not below
    /// `key`; on an ascending iterator the next yield is the first key at or
    /// above the probe.
    pub fn find(&mut self, key: Vec<u8>)
        ensures
            final(self).items_seq() == old(self).items_seq(),
            0 <= final(self).position() <= old(self).items_seq().len(),
            forall|j: int|
                0 <= j < final(self).position() ==> lex_lt(
                    #[trigger] old(self).items_seq()[j].0,
                    key@,
                ),
            final(self).position() < old(self).items_seq().len() ==> !lex_lt(
                old(self).items_seq()[final(self).position()].0,
                key@,
            ),
    {
        let n: usize = self.items.len();
        let mut i: usize = 0;
        while i < n
            invariant
                0 <= i <= n,
                self == old(self),
                forall|j: int| 0 <= j < i ==> lex_lt(#[trigger] old(self).items_seq()[j].0, key@),
            decreases n - i,
        {
            if lex_compare(&self.items[i].0, &key) != -1 {
                self.cur_index = i;
                return ;
            }
            i = i + 1;
        }
        self.cur_index = n;
    }

    /// Yield the entry at the current position and advance, or `None` at the
    /// end.
    pub fn next(&mut self) -> (r: Option<IndexEntry>)
        ensures
            final(self).items_seq() == old(self).items_seq(),
            old(self).position() < old(self).items_seq().len() ==> {
                &&& r is Some
                &&& (r.unwrap().0@, r.unwrap().1) == old(self).items_seq()[old(self).position()]
                &&& final(self).position() == old(self).position() + 1
            },
            old(self).position() >= old(self).items_seq().len() ==> {
                &&& r is None
                &&& final(self).position() == old(self).position()
            },
    {
        if self.cur_index < self.items.len() {
            let e: IndexEntry = (
                clone_bytes(&self.items[self.cur_index].0),
                self.items[self.cur_index].1,
            );
            self.cur_index = self.cur_index + 1;
            Some(e)
        } else {
            None
        }
    }
}

} // verus!
// Key/value iteration over a store: the key set is captured when the
// iterator is made; each value is read from the store at yield time.

verus! {

/// One key with its current value.
#[derive(Debug)]
pub struct KvBytes {
    pub key: Vec<u8>,
    pub value: Vec<u8>,
}

/// Builder of a key/value snapshot iterator over a store.
pub struct KvIteratorOptions<'a> {
    key_options: KeyIteratorOptions,
    store: &'a crate::store::Store,
}

impl<'a> KvIteratorOptions<'a> {
    /// The snapshot the builder was given.
    pub closed spec fn items_seq(&self) -> Seq<EntryModel> {
        self.key_options.items_seq()
    }

    /// Whether iteration order is reversed.
    pub closed spec fn reversed(&self) -> bool {
        self.key_options.reversed()
    }

    /// The configured key prefix, if one was set.
    pub closed spec fn prefix(&self) -> Option<Seq<u8>> {
        self.key_options.prefix()
    }

    /// The store values are read from.
    pub closed spec fn store_of(&self) -> crate::store::Store {
        *self.store
    }

    /// The snapshot only holds keys the store knows.
    pub closed spec fn wf(&self) -> bool {
        &&& self.store.wf()
        &&& forall|i: int|
            0 <= i < self.key_options.items_seq().len() ==> (*self.store)@.contains_key(
                (#[trigger] self.key_options.items_seq()[i]).0,
            )
    }

    /// Pair a key snapshot with the store that resolves its values.
    pub fn begin(key_options: KeyIteratorOptions, store: &'a crate::store::Store) -> (r: Self)
        requires
            store.wf(),
            forall|i: int|
                0 <= i < key_options.items_seq().len() ==> store@.contains_key(
                    (#[trigger] key_options.items_seq()[i]).0,
                ),
        ensures
            r.wf(),
            r.items_seq() == key_options.items_seq(),
            r.reversed() == key_options.reversed(),
            r.prefix() == key_options.prefix(),
            r.store_of() == *store,
    {
        KvIteratorOptions { key_options, store }
    }

    /// Toggle reverse iteration.
    pub fn rev(self) -> (r: Self)
        ensures
            r.items_seq() == self.items_seq(),
            r.reversed() == !self.reversed(),
            r.prefix() == self.prefix(),
            r.store_of() == self.store_of(),
            self.wf() ==> r.wf(),
    {
        KvIteratorOptions { key_options: self.key_options.rev(), store: self.store }
    }

    /// Restrict iteration to keys beginning with `prefix`; may be set once.
    pub fn with_key_prefix(self, prefix: Vec<u8>) -> (r: Self)
        requires
            self.prefix() is None,
        ensures
            r.items_seq() == self.items_seq(),
            r.reversed() == self.reversed(),
            r.prefix() == Some(prefix@),
            r.store_of() == self.store_of(),
            self.wf() ==> r.wf(),
    {
        KvIteratorOptions { key_options: self.key_options.with_prefix(prefix), store: self.store }
    }

    /// Apply the prefix filter and the direction and materialize the
    /// iterator.
    pub fn make(self) -> (r: KvIterator<'a>)
        requires
            self.wf(),
        ensures
            r.wf(),
            r.items_seq() == materialized(self.items_seq(), self.prefix(), self.reversed()),
            r.position() == 0,
            r.store_of() == self.store_of(),
    {
        proof {
            let s = self.items_seq();
            let kept = match self.prefix() {
                Some(pre) => filtered_entries(s, pre),
                None => s,
            };
            match self.prefix() {
                Some(pre) => {
                    lemma_filtered_props(s, pre);
                    assert forall|i: int| 0 <= i < kept.len() implies (self.store_of())@.contains_key(
                        (#[trigger] kept[i]).0,
                    ) by {
                        assert(kept.contains(kept[i]));
                        let m = choose|m: int| 0 <= m < s.len() && s[m] == kept[i];
                        assert(s[m] == kept[i]);
                    }
                },
                None => {},
            }
            let out = materialized(self.items_seq(), self.prefix(), self.reversed());
            if self.reversed() {
                assert forall|i: int| 0 <= i < out.len() implies (self.store_of())@.contains_key(
                    (#[trigger] out[i]).0,
                ) by {
                    assert(out[i] == kept[out.len() - 1 - i]);
                }
            }
        }
        let KvIteratorOptions { key_options, store } = self;
        KvIterator { key_iter: key_options.make(), store }
    }
}

/// A materialized key/value iterator: keys fixed at creation, values read
/// from the store lazily.
pub struct KvIterator<'a> {
    key_iter: KeyIterator,
    store: &'a crate::store::Store,
}

impl<'a> KvIterator<'a> {
    /// The entries the iterator walks, in iteration order.
    pub closed spec fn items_seq(&self) -> Seq<EntryModel> {
        self.key_iter.items_seq()
    }

    /// The position of the next entry to yield.
    pub closed spec fn position(&self) -> int {
        self.key_iter.position()
    }

    /// The store values are read from.
    pub closed spec fn store_of(&self) -> crate::store::Store {
        *self.store
    }

    /// Every walked key is live in the store.
    pub closed spec fn wf(&self) -> bool {
        &&& self.store.wf()
        &&& forall|i: int|
            0 <= i < self.key_iter.items_seq().len() ==> (*self.store)@.contains_key(
                (#[trigger] self.key_iter.items_seq()[i]).0,
            )
    }

    /// Restart iteration from the first entry.
    pub fn rewind(&mut self)
        ensures
            final(self).items_seq() == old(self).items_seq(),
            final(self).position() == 0,
            final(self).store_of() == old(self).store_of(),
            old(self).wf() ==> final(self).wf(),
    {
        self.key_iter.rewind();
    }

    /// Position the iterator at the first entry whose key is not below the
    /// probe.
    pub fn find(&mut self, key: Vec<u8>)
        ensures
            final(self).items_seq() == old(self).items_seq(),
            final(self).store_of() == old(self).store_of(),
            old(self).wf() ==> final(self).wf(),
            0 <= final(self).position() <= old(self).items_seq().len(),
            forall|j: int|
                0 <= j < final(self).position() ==> lex_lt(
                    #[trigger] old(self).items_seq()[j].0,
                    key@,
                ),
            final(self).position() < old(self).items_seq().len() ==> !lex_lt(
                old(self).items_seq()[final(self).position()].0,
                key@,
            ),
    {
        self.key_iter.find(key);
    }

    /// Yield the key at the current position with its current value and
    /// advance, or `None` at the end.
    pub fn next(&mut self) -> (r: Option<KvBytes>)
        requires
            old(self).wf(),
        ensures
            final(self).wf(),
            final(self).items_seq() == old(self).items_seq(),
            final(self).store_of() == old(self).store_of(),
            old(self).position() < old(self).items_seq().len() ==> {
                &&& r is Some
                &&& r.unwrap().key@ == old(self).items_seq()[old(self).position()].0
                &&& r.unwrap().value@ == (old(self).store_of())@[r.unwrap().key@]
                &&& final(self).position() == old(self).position() + 1
            },
            old(self).position() >= old(self).items_seq().len() ==> {
                &&& r is None
                &&& final(self).position() == old(self).position()
            },
    {
        match self.key_iter.next() {
            Some((key, _ptr)) => {
                let value: Vec<u8> = match self.store.get(clone_bytes(&key)) {
                    Ok(v) => v,
                    Err(_) => Vec::new(),
                };
                Some(KvBytes { key, value })
            },
            None => None,
        }
    }
}

impl crate::store::Store {
    /// A snapshot key/value iterator builder over this store.
    pub fn iter_options<'a>(&'a self) -> (r: KvIteratorOptions<'a>)
        requires
            self.wf(),
        ensures
            r.wf(),
            r.items_seq() == self.entry_seq(),
            !r.reversed(),
            r.prefix() is None,
            r.store_of() == *self,
    {
        proof {
            self.lemma_entries_live();
        }
        KvIteratorOptions::begin(self.index.iter_snapshot(), self)
    }

    /// Run `keep` over every key/value pair in ascending key order until it
    /// returns false.
    pub fn fold<F: Fn(KvBytes) -> bool>(&self, keep: F)
        requires
            self.wf(),
            forall|kv: KvBytes| #[trigger] keep.requires((kv,)),
    {
        let mut it = self.iter_options().make();
        let ghost n = it.items_seq().len();
        loop
            invariant
                it.wf(),
                it.items_seq().len() == n,
                0 <= it.position() <= n,
                forall|kv: KvBytes| #[trigger] keep.requires((kv,)),
            decreases n - it.position(),
        {
            match it.next() {
                Some(kv) => {
                    if !keep(kv) {
                        return ;
                    }
                },
                None => {
                    return ;
                },
            }
        }
    }
}

} // verus!
// The governing laws of snapshot iteration, proved once for all snapshots.

verus! {

/// Iteration order: over a sorted snapshot, a forward iterator yields keys
/// in strictly ascending byte-lexicographic order and a reversed one in
/// strictly descending order; with a prefix, every yielded key begins with
/// it.
pub proof fn lemma_iteration_order(s: Seq<EntryModel>, p: Option<Seq<u8>>, rev: bool)
    requires
        entries_sorted(s),
    ensures
        !rev ==> entries_sorted(materialized(s, p, rev)),
        rev ==> forall|i: int, j: int|
            0 <= i < j < materialized(s, p, rev).len() ==> lex_lt(
                #[trigger] materialized(s, p, rev)[j].0,
                #[trigger] materialized(s, p, rev)[i].0,
            ),
        forall|i: int|
            0 <= i < materialized(s, p, rev).len() && p is Some ==> starts_with(
                (#[trigger] materialized(s, p, rev)[i]).0,
                p.unwrap(),
            ),
{
    let kept = match p {
        Some(pre) => filtered_entries(s, pre),
        None => s,
    };
    match p {
        Some(pre) => {
            lemma_filtered_props(s, pre);
            assert forall|i: int| 0 <= i < kept.len() implies starts_with(
                (#[trigger] kept[i]).0,
                pre,
            ) by {
                assert(kept.contains(kept[i]));
            }
        },
        None => {},
    }
    let out = materialized(s, p, rev);
    if rev {
        assert forall|i: int, j: int| 0 <= i < j < out.len() implies lex_lt(
            #[trigger] out[j].0,
            #[trigger] out[i].0,
        ) by {
            assert(out[i] == kept[out.len() - 1 - i]);
            assert(out[j] == kept[out.len() - 1 - j]);
        }
        assert forall|i: int| 0 <= i < out.len() && p is Some implies starts_with(
            (#[trigger] out[i]).0,
            p.unwrap(),
        ) by {
            assert(out[i] == kept[out.len() - 1 - i]);
        }
    }
}

/// Prefix completeness: over a sorted snapshot, an iterator with prefix `p`
/// yields every key of the snapshot that begins with `p`, and yields each
/// exactly once.
pub proof fn lemma_prefix_complete(s: Seq<EntryModel>, p: Seq<u8>, rev: bool)
    requires
        entries_sorted(s),
    ensures
        forall|i: int|
            0 <= i < s.len() && starts_with((#[trigger] s[i]).0, p) ==> materialized(
                s,
                Some(p),
                rev,
            ).contains(s[i]),
        forall|i: int, j: int|
            0 <= i < j < materialized(s, Some(p), rev).len() ==> (#[trigger] materialized(
                s,
                Some(p),
                rev,
            )[i]).0 != (#[trigger] materialized(s, Some(p), rev)[j]).0,
{
    let kept = filtered_entries(s, p);
    let out = materialized(s, Some(p), rev);
    lemma_filtered_props(s, p);
    assert forall|i: int|
        0 <= i < s.len() && starts_with((#[trigger] s[i]).0, p) implies out.contains(s[i]) by {
        assert(s.contains(s[i]));
        assert(kept.contains(s[i]));
        if rev {
            let m = choose|m: int| 0 <= m < kept.len() && kept[m] == s[i];
            assert(out[out.len() - 1 - m] == s[i]);
        }
    }
    lemma_iteration_order(s, Some(p), rev);
    assert forall|i: int, j: int| 0 <= i < j < out.len() implies (#[trigger] out[i]).0 != (
    #[trigger] out[j]).0 by {
        if rev {
            crate::index::lemma_lex_asym(out[j].0, out[i].0);
        } else {
            crate::index::lemma_lex_asym(out[i].0, out[j].0);
        }
    }
}

} // verus!
