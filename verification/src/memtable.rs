//! The in-memory sorted table.
//!
//! A MemTable maps internal keys to values, kept sorted in internal-key
//! order.  Because that order puts the highest sequence number of a user key
//! first, the first entry of a forward scan that matches a user key is the
//! freshest version of it.  An `Active` table receives mutations; freezing
//! turns its contents into an immutable `Frozen` table awaiting flush.

use vstd::prelude::*;

use crate::codec::bytes_eq;
use crate::key::{key_lt, lemma_key_lt_connected, lemma_key_lt_irrefl, lemma_key_lt_trans, Key, KeyV};
use crate::value::{payload_len, Value, ValueV};

verus! {

/// Marker for the mutable lifecycle state of a table.
pub struct Active;

/// Marker for the immutable lifecycle state of a table.
pub struct Frozen;

/// Seals the set of lifecycle states.
pub trait Sealed {

}

impl Sealed for Active {

}

impl Sealed for Frozen {

}

/// A lifecycle state of a table: either `Active` or `Frozen`.
pub trait MemTableState: Sealed {

}

impl<T: Sealed> MemTableState for T {

}

/// One table entry: an internal key and the value written under it.
#[derive(Debug)]
pub struct Entry {
    pub key: Key,
    pub value: Value,
}

/// The mathematical content of a table entry.
#[verifier::ext_equal]
pub struct EntryV {
    pub key: KeyV,
    pub value: ValueV,
}

impl View for Entry {
    type V = EntryV;

    open spec fn view(&self) -> EntryV {
        EntryV { key: self.key@, value: self.value@ }
    }
}

/// An active table at or above this byte-size estimate is eligible to
/// freeze.
pub const MEMTABLE_MAX_SIZE: usize = 65536;

/// Entries strictly sorted in internal-key order (which makes keys unique).
pub open spec fn entries_sorted(s: Seq<EntryV>) -> bool {
    forall|i: int, j: int| 0 <= i < j < s.len() ==> key_lt(#[trigger] s[i].key, #[trigger] s[j].key)
}

/// The byte-size estimate one entry contributes: its user-key length plus
/// its payload length.
pub open spec fn entry_weight(e: EntryV) -> int {
    e.key.user_key.len() + payload_len(e.value)
}

/// The byte-size estimate of a table: the sum of its entries' weights.
pub open spec fn entries_size(s: Seq<EntryV>) -> int
    decreases s.len(),
{
    if s.len() == 0 {
        0
    } else {
        entry_weight(s[0]) + entries_size(s.drop_first())
    }
}

/// The first entry, in sorted order, whose user key is `u`: the freshest
/// version of `u` held by the table.
pub open spec fn first_with_user_key(s: Seq<EntryV>, u: Seq<u8>) -> Option<EntryV>
    decreases s.len(),
{
    if s.len() == 0 {
        None
    } else if s[0].key.user_key == u {
        Some(s[0])
    } else {
        first_with_user_key(s.drop_first(), u)
    }
}

/// The first entry whose internal key is exactly `k`; in a sorted table the
/// only one.
pub open spec fn find_key(s: Seq<EntryV>, k: KeyV) -> Option<EntryV>
    decreases s.len(),
{
    if s.len() == 0 {
        None
    } else if s[0].key == k {
        Some(s[0])
    } else {
        find_key(s.drop_first(), k)
    }
}

/// All entries whose user key is `u`, in sorted order.
pub open spec fn entries_with_user_key(s: Seq<EntryV>, u: Seq<u8>) -> Seq<EntryV>
    decreases s.len(),
{
    if s.len() == 0 {
        Seq::empty()
    } else if s[0].key.user_key == u {
        seq![s[0]] + entries_with_user_key(s.drop_first(), u)
    } else {
        entries_with_user_key(s.drop_first(), u)
    }
}

/// Sorted insertion of `e`: an entry under the same internal key is
/// replaced, otherwise `e` enters at its sorted position.
pub open spec fn entries_insert(s: Seq<EntryV>, e: EntryV) -> Seq<EntryV>
    decreases s.len(),
{
    if s.len() == 0 {
        seq![e]
    } else if key_lt(e.key, s[0].key) {
        seq![e] + s
    } else if e.key == s[0].key {
        seq![e] + s.drop_first()
    } else {
        seq![s[0]] + entries_insert(s.drop_first(), e)
    }
}

/// Dropping the head of a sorted table leaves it sorted.
pub proof fn lemma_sorted_drop_first(s: Seq<EntryV>)
    requires
        entries_sorted(s),
        s.len() > 0,
    ensures
        entries_sorted(s.drop_first()),
{
    assert(forall|i: int, j: int|
        0 <= i < j < s.drop_first().len() ==> key_lt(
            (#[trigger] s.drop_first()[i]).key,
            (#[trigger] s.drop_first()[j]).key,
        ) == key_lt(s[i + 1].key, s[j + 1].key));
}

/// Entry weights are never negative and a table's size estimate covers each
/// entry it holds.
pub proof fn lemma_entries_size_nonneg(s: Seq<EntryV>)
    ensures
        entries_size(s) >= 0,
    decreases s.len(),
{
    if s.len() > 0 {
        lemma_entries_size_nonneg(s.drop_first());
    }
}

pub proof fn lemma_find_key_weight(s: Seq<EntryV>, k: KeyV)
    requires
        find_key(s, k) is Some,
    ensures
        entries_size(s) >= entry_weight(find_key(s, k).unwrap()),
    decreases s.len(),
{
    lemma_entries_size_nonneg(s.drop_first());
    if s.len() > 0 && s[0].key != k {
        lemma_find_key_weight(s.drop_first(), k);
        assert(entries_size(s) == entry_weight(s[0]) + entries_size(s.drop_first()));
    }
}

/// Inserting into a sorted table keeps it sorted.
pub proof fn lemma_insert_sorted(s: Seq<EntryV>, e: EntryV)
    requires
        entries_sorted(s),
    ensures
        entries_sorted(entries_insert(s, e)),
    decreases s.len(),
{
    let r = entries_insert(s, e);
    if s.len() == 0 {
    } else if key_lt(e.key, s[0].key) {
        assert(forall|j: int| 1 <= j < r.len() ==> r[j] == s[j - 1]);
        assert(forall|j: int| 1 <= j < r.len() ==> key_lt(r[0].key, (#[trigger] r[j]).key)) by {
            assert(forall|j: int|
                2 <= j < r.len() ==> key_lt(s[0].key, (#[trigger] s[j - 1]).key));
            assert(forall|j: int|
                2 <= j < r.len() ==> key_lt(e.key, (#[trigger] r[j]).key)) by {
                assert forall|j: int| 2 <= j < r.len() implies key_lt(
                    e.key,
                    (#[trigger] r[j]).key,
                ) by {
                    lemma_key_lt_trans(e.key, s[0].key, s[j - 1].key);
                }
            }
        }
    } else if e.key == s[0].key {
        assert(forall|j: int| 1 <= j < r.len() ==> r[j] == s[j]);
    } else {
        let t = entries_insert(s.drop_first(), e);
        lemma_insert_sorted(s.drop_first(), e);
        lemma_key_lt_connected(e.key, s[0].key);
        assert(key_lt(s[0].key, e.key));
        // every entry of the recursive insert is either e or from the tail,
        // so the head still sorts before all of them
        assert(forall|j: int| 1 <= j < r.len() ==> r[j] == t[j - 1]);
        assert forall|j: int| 1 <= j < r.len() implies key_lt(r[0].key, (#[trigger] r[j]).key) by {
            lemma_insert_membership(s.drop_first(), e, j - 1);
            if t[j - 1] == e {
            } else {
                let idx = choose|i: int|
                    0 <= i < s.drop_first().len() && s.drop_first()[i] == t[j - 1];
                assert(s[idx + 1] == t[j - 1]);
                assert(key_lt(s[0].key, s[idx + 1].key));
            }
        }
    }
}

/// Every entry of an insertion result is the new entry or one of the old
/// ones.
pub proof fn lemma_insert_membership(s: Seq<EntryV>, e: EntryV, j: int)
    requires
        0 <= j < entries_insert(s, e).len(),
    ensures
        entries_insert(s, e)[j] == e || exists|i: int| 0 <= i < s.len() && s[i] == #[trigger] entries_insert(s, e)[j],
    decreases s.len(),
{
    let r = entries_insert(s, e);
    if s.len() == 0 {
    } else if key_lt(e.key, s[0].key) {
        if j >= 1 {
            assert(s[j - 1] == r[j]);
        }
    } else if e.key == s[0].key {
        if j >= 1 {
            assert(s[j] == r[j]);
        }
    } else {
        if j == 0 {
            assert(s[0] == r[0]);
        } else {
            lemma_insert_membership(s.drop_first(), e, j - 1);
            if r[j] != e {
                let i = choose|i: int|
                    0 <= i < s.drop_first().len() && s.drop_first()[i] == entries_insert(
                        s.drop_first(),
                        e,
                    )[j - 1];
                assert(s[i + 1] == r[j]);
            }
        }
    }
}

/// The size estimate of an insertion: the new entry's weight enters, the
/// weight of a replaced entry leaves.
pub proof fn lemma_insert_size(s: Seq<EntryV>, e: EntryV)
    requires
        entries_sorted(s),
    ensures
        entries_size(entries_insert(s, e)) == entries_size(s) + entry_weight(e) - (match find_key(
            s,
            e.key,
        ) {
            Some(o) => entry_weight(o),
            None => 0,
        }),
    decreases s.len(),
{
    let r = entries_insert(s, e);
    if s.len() == 0 {
        assert(entries_size(r) == entry_weight(e) + entries_size(r.drop_first()));
        assert(r.drop_first() =~= Seq::<EntryV>::empty());
    } else if key_lt(e.key, s[0].key) {
        assert(r.drop_first() =~= s);
        // no entry of s carries e's key: e sorts before them all
        assert(find_key(s, e.key) is None) by {
            lemma_find_key_lt_absent(s, e.key);
        }
    } else if e.key == s[0].key {
        assert(r.drop_first() =~= s.drop_first());
    } else {
        lemma_insert_size(s.drop_first(), e);
        assert(r.drop_first() =~= entries_insert(s.drop_first(), e));
        lemma_key_lt_connected(e.key, s[0].key);
    }
}

/// A key that sorts before the head of a sorted table is absent from it.
pub proof fn lemma_find_key_lt_absent(s: Seq<EntryV>, k: KeyV)
    requires
        entries_sorted(s),
        s.len() > 0,
        key_lt(k, s[0].key),
    ensures
        find_key(s, k) is None,
    decreases s.len(),
{
    lemma_key_lt_irrefl(k);
    assert(s[0].key != k);
    if s.len() > 1 {
        assert(key_lt(s[0].key, s[1].key));
        lemma_key_lt_trans(k, s[0].key, s[1].key);
        assert(s.drop_first()[0] == s[1]);
        lemma_sorted_drop_first(s);
        lemma_find_key_lt_absent(s.drop_first(), k);
    } else {
        assert(s.drop_first().len() == 0);
    }
}

/// Inserting an entry whose sequence number is fresher than everything in a
/// sorted table makes it the freshest version of its user key and leaves
/// every other user key's freshest version unchanged.
pub proof fn lemma_insert_latest(s: Seq<EntryV>, e: EntryV, u: Seq<u8>)
    requires
        entries_sorted(s),
        forall|i: int| 0 <= i < s.len() ==> (#[trigger] s[i]).key.seqno < e.key.seqno,
    ensures
        first_with_user_key(entries_insert(s, e), u) == if u == e.key.user_key {
            Some(e)
        } else {
            first_with_user_key(s, u)
        },
    decreases s.len(),
{
    let r = entries_insert(s, e);
    if s.len() == 0 {
        assert(r == seq![e]);
        assert(r[0] == e);
        assert(r.drop_first() =~= Seq::<EntryV>::empty());
        assert(first_with_user_key(r.drop_first(), u) is None);
    } else if key_lt(e.key, s[0].key) {
        assert(r == seq![e] + s);
        assert(r[0] == e);
        assert(r.drop_first() =~= s);
        if u == e.key.user_key {
            assert(first_with_user_key(r, u) == Some(e));
        } else {
            assert(first_with_user_key(r, u) == first_with_user_key(s, u));
        }
    } else if e.key == s[0].key {
        assert(s[0].key.seqno < e.key.seqno);
        assert(false);
    } else {
        // e does not sort before the head, so the head's user key is not
        // e's: a same-user-key entry would have a smaller seqno and e would
        // sort before it
        lemma_key_lt_connected(e.key, s[0].key);
        assert(key_lt(s[0].key, e.key));
        assert(s[0].key.user_key != e.key.user_key) by {
            if s[0].key.user_key == e.key.user_key {
                assert(s[0].key.seqno < e.key.seqno);
                assert(key_lt(e.key, s[0].key));
                lemma_key_lt_irrefl(s[0].key);
                lemma_key_lt_trans(e.key, s[0].key, e.key);
            }
        }
        assert(forall|i: int|
            0 <= i < s.drop_first().len() ==> (#[trigger] s.drop_first()[i]).key.seqno
                < e.key.seqno);
        lemma_sorted_drop_first(s);
        lemma_insert_latest(s.drop_first(), e, u);
        assert(r == seq![s[0]] + entries_insert(s.drop_first(), e));
        assert(r.drop_first() =~= entries_insert(s.drop_first(), e));
        assert(r[0] == s[0]);
        if s[0].key.user_key == u {
            assert(u != e.key.user_key);
            assert(first_with_user_key(r, u) == Some(s[0]));
            assert(first_with_user_key(s, u) == Some(s[0]));
        } else {
            assert(first_with_user_key(r, u) == first_with_user_key(r.drop_first(), u));
            assert(first_with_user_key(s, u) == first_with_user_key(s.drop_first(), u));
        }
    }
}

/// The sorted in-memory table.  `State` is `Active` (mutable, freezable) or
/// `Frozen` (immutable, awaiting flush).
#[verifier::reject_recursive_types(State)]
pub struct MemTable<State: MemTableState> {
    data: Vec<Entry>,
    size: usize,
    phantom: core::marker::PhantomData<State>,
}

impl<State: MemTableState> View for MemTable<State> {
    type V = Seq<EntryV>;

    closed spec fn view(&self) -> Seq<EntryV> {
        self.data@.map_values(|e: Entry| e@)
    }
}

impl<State: MemTableState> MemTable<State> {
    /// The table is sorted and its size estimate is the sum of its entries'
    /// weights.
    pub closed spec fn wf(&self) -> bool {
        entries_sorted(self@) && self.size as int == entries_size(self@)
    }

    /// A well-formed table is sorted.
    pub proof fn lemma_wf_sorted(&self)
        requires
            self.wf(),
        ensures
            entries_sorted(self@),
    {
    }

    /// The byte-size estimate of the table.
    pub fn size(&self) -> (r: usize)
        requires
            self.wf(),
        ensures
            r == entries_size(self@),
    {
        self.size
    }

    /// The number of entries in the table.
    pub fn len(&self) -> (r: usize)
        ensures
            r == self@.len(),
    {
        self.data.len()
    }

    /// The entries of the table, in sorted order.
    pub fn entries(&self) -> (r: &Vec<Entry>)
        ensures
            r@.map_values(|e: Entry| e@) == self@,
    {
        &self.data
    }

    /// The value stored under exactly the internal key `k`, if any.
    pub fn get(&self, k: &Key) -> (r: Option<Value>)
        ensures
            match (r, find_key(self@, k@)) {
                (Some(v), Some(e)) => v@ == e.value,
                (None, None) => true,
                _ => false,
            },
    {
        let mut i: usize = 0;
        while i < self.data.len()
            invariant
                i <= self@.len(),
                self@.len() == self.data@.len(),
                self@ == self.data@.map_values(|e: Entry| e@),
                forall|j: int| 0 <= j < i ==> (#[trigger] self@[j]).key != k@,
            decreases self@.len() - i,
        {
            if self.data[i].key.key_eq(k) {
                proof {
                    lemma_find_from(self@, k@, i as int);
                }
                return Some(self.data[i].value.duplicate());
            }
            i = i + 1;
        }
        proof {
            lemma_find_from(self@, k@, self@.len() as int);
        }
        None
    }

    /// The freshest version of `user_key` held by this table, if any.
    pub fn get_latest(&self, user_key: &Vec<u8>) -> (r: Option<Value>)
        ensures
            match (r, first_with_user_key(self@, user_key@)) {
                (Some(v), Some(e)) => v@ == e.value,
                (None, None) => true,
                _ => false,
            },
    {
        let mut i: usize = 0;
        while i < self.data.len()
            invariant
                i <= self@.len(),
                self@.len() == self.data@.len(),
                self@ == self.data@.map_values(|e: Entry| e@),
                forall|j: int| 0 <= j < i ==> (#[trigger] self@[j]).key.user_key != user_key@,
            decreases self@.len() - i,
        {
            if bytes_eq(self.data[i].key.user_key(), user_key) {
                proof {
                    lemma_first_from(self@, user_key@, i as int);
                }
                return Some(self.data[i].value.duplicate());
            }
            i = i + 1;
        }
        proof {
            lemma_first_from(self@, user_key@, self@.len() as int);
        }
        None
    }

    /// All versions of `user_key` held by this table, freshest first.
    pub fn iter_by_user_key(&self, user_key: &Vec<u8>) -> (r: Vec<Entry>)
        ensures
            r@.map_values(|e: Entry| e@) == entries_with_user_key(self@, user_key@),
    {
        let mut r: Vec<Entry> = Vec::new();
        let mut i: usize = 0;
        while i < self.data.len()
            invariant
                i <= self@.len(),
                self@.len() == self.data@.len(),
                self@ == self.data@.map_values(|e: Entry| e@),
                r@.map_values(|e: Entry| e@) == entries_with_user_key(
                    self@.subrange(0, i as int),
                    user_key@,
                ),
            decreases self@.len() - i,
        {
            let ghost pre = self@.subrange(0, i as int);
            if bytes_eq(self.data[i].key.user_key(), user_key) {
                let ghost rv = r@.map_values(|e: Entry| e@);
                r.push(
                    Entry {
                        key: self.data[i].key.duplicate(),
                        value: self.data[i].value.duplicate(),
                    },
                );
                proof {
                    assert(r@.map_values(|e: Entry| e@) =~= rv + seq![self@[i as int]]);
                }
            }
            i = i + 1;
            proof {
                lemma_entries_with_user_key_snoc(self@, user_key@, i as int);
            }
        }
        proof {
            assert(self@.subrange(0, self@.len() as int) =~= self@);
        }
        r
    }
}

/// Extending a prefix by one entry extends its matching entries by that
/// entry when it matches.
proof fn lemma_entries_with_user_key_snoc(s: Seq<EntryV>, u: Seq<u8>, i: int)
    requires
        1 <= i <= s.len(),
    ensures
        entries_with_user_key(s.subrange(0, i), u) == if s[i - 1].key.user_key == u {
            entries_with_user_key(s.subrange(0, i - 1), u) + seq![s[i - 1]]
        } else {
            entries_with_user_key(s.subrange(0, i - 1), u)
        },
    decreases i,
{
    let p = s.subrange(0, i);
    let q = s.subrange(0, i - 1);
    if i == 1 {
        assert(p.len() == 1 && p[0] == s[0]);
        assert(p.drop_first() =~= Seq::<EntryV>::empty());
        assert(q =~= Seq::<EntryV>::empty());
        assert(entries_with_user_key(p.drop_first(), u) == Seq::<EntryV>::empty());
        assert(entries_with_user_key(q, u) == Seq::<EntryV>::empty());
        if s[0].key.user_key == u {
            assert(entries_with_user_key(p, u) == seq![p[0]] + entries_with_user_key(
                p.drop_first(),
                u,
            ));
            assert(seq![s[0]] + Seq::<EntryV>::empty() =~= Seq::<EntryV>::empty() + seq![s[0]]);
        }
    } else {
        lemma_entries_with_user_key_snoc(s.drop_first(), u, i - 1);
        assert(p.drop_first() =~= s.drop_first().subrange(0, i - 1));
        assert(q.drop_first() =~= s.drop_first().subrange(0, i - 2));
        assert(s.drop_first()[i - 2] == s[i - 1]);
        assert(p[0] == s[0] && q[0] == s[0]);
        if s[0].key.user_key == u {
            if s[i - 1].key.user_key == u {
                assert(seq![s[0]] + (entries_with_user_key(s.drop_first().subrange(0, i - 2), u)
                    + seq![s[i - 1]]) =~= (seq![s[0]] + entries_with_user_key(
                    s.drop_first().subrange(0, i - 2),
                    u,
                )) + seq![s[i - 1]]);
            }
        }
    }
}

/// If no entry before position `i` carries key `k`, a hit at `i` is the
/// result of the whole search, and a table scanned to its end without a hit
/// holds no entry under `k`.
proof fn lemma_find_from(s: Seq<EntryV>, k: KeyV, i: int)
    requires
        0 <= i <= s.len(),
        forall|j: int| 0 <= j < i ==> (#[trigger] s[j]).key != k,
    ensures
        i < s.len() && s[i].key == k ==> find_key(s, k) == Some(s[i]),
        i == s.len() ==> find_key(s, k) is None,
    decreases s.len(),
{
    if s.len() == 0 {
    } else if i == 0 {
    } else {
        assert(forall|j: int|
            0 <= j < i - 1 ==> (#[trigger] s.drop_first()[j]).key == s[j + 1].key);
        lemma_find_from(s.drop_first(), k, i - 1);
        if i < s.len() {
            assert(s.drop_first()[i - 1] == s[i]);
        }
    }
}

/// A key carried by no entry at all is not found.
proof fn lemma_find_key_absent(s: Seq<EntryV>, k: KeyV)
    requires
        forall|j: int| 0 <= j < s.len() ==> (#[trigger] s[j]).key != k,
    ensures
        find_key(s, k) is None,
{
    lemma_find_from(s, k, s.len() as int);
}

/// If no entry before position `i` matches user key `u`, the search for `u`
/// over the whole table equals the search from `i` on.
proof fn lemma_first_from(s: Seq<EntryV>, u: Seq<u8>, i: int)
    requires
        0 <= i <= s.len(),
        forall|j: int| 0 <= j < i ==> (#[trigger] s[j]).key.user_key != u,
    ensures
        i < s.len() && s[i].key.user_key == u ==> first_with_user_key(s, u) == Some(s[i]),
        i == s.len() ==> first_with_user_key(s, u) is None,
    decreases s.len(),
{
    if s.len() == 0 {
    } else if i == 0 {
    } else {
        assert(forall|j: int|
            0 <= j < i - 1 ==> (#[trigger] s.drop_first()[j]).key.user_key == s[j
                + 1].key.user_key);
        lemma_first_from(s.drop_first(), u, i - 1);
        if i < s.len() {
            assert(s.drop_first()[i - 1] == s[i]);
        }
    }
}

impl MemTable<Active> {
    /// A fresh, empty active table.
    pub fn new() -> (r: MemTable<Active>)
        ensures
            r.wf(),
            r@ == Seq::<EntryV>::empty(),
    {
        let r = MemTable { data: Vec::new(), size: 0, phantom: core::marker::PhantomData };
        proof {
            assert(r@ =~= Seq::<EntryV>::empty());
        }
        r
    }

    /// Whether the table has reached the freeze threshold.
    pub fn should_freeze(&self) -> (r: bool)
        requires
            self.wf(),
        ensures
            r == (entries_size(self@) >= MEMTABLE_MAX_SIZE),
    {
        self.size >= MEMTABLE_MAX_SIZE
    }

    /// Moves the contents into an immutable frozen table, leaving this table
    /// empty with size zero.
    pub fn freeze(&mut self) -> (frozen: MemTable<Frozen>)
        requires
            old(self).wf(),
        ensures
            final(self).wf(),
            final(self)@ == Seq::<EntryV>::empty(),
            frozen.wf(),
            frozen@ == old(self)@,
    {
        let mut data: Vec<Entry> = Vec::new();
        core::mem::swap(&mut data, &mut self.data);
        let size = self.size;
        self.size = 0;
        proof {
            assert(self@ =~= Seq::<EntryV>::empty());
        }
        MemTable { data, size, phantom: core::marker::PhantomData }
    }

    /// Inserts `v` as the value of internal key `k`, replacing any value
    /// stored under exactly that key and keeping the size estimate in step.
    pub fn put(&mut self, k: Key, v: Vec<u8>)
        requires
            old(self).wf(),
            entries_size(old(self)@) + k@.user_key.len() + v@.len() <= usize::MAX,
        ensures
            final(self).wf(),
            final(self)@ == entries_insert(
                old(self)@,
                EntryV { key: k@, value: ValueV::Data(v@) },
            ),
    {
        let e = Entry { key: k, value: Value::Data(v) };
        self.insert_entry(e);
    }

    /// Inserts a tombstone under internal key `k`.
    pub fn delete(&mut self, k: Key)
        requires
            old(self).wf(),
            entries_size(old(self)@) + k@.user_key.len() <= usize::MAX,
        ensures
            final(self).wf(),
            final(self)@ == entries_insert(old(self)@, EntryV { key: k@, value: ValueV::Tombstone }),
    {
        let e = Entry { key: k, value: Value::Tombstone };
        self.insert_entry(e);
    }

    /// Sorted insertion with replacement and size-estimate maintenance.
    fn insert_entry(&mut self, e: Entry)
        requires
            old(self).wf(),
            entries_size(old(self)@) + entry_weight(e@) <= usize::MAX,
        ensures
            final(self).wf(),
            final(self)@ == entries_insert(old(self)@, e@),
    {
        let ghost s = self@;
        let ghost ev = e@;
        proof {
            lemma_insert_sorted(s, ev);
            lemma_insert_size(s, ev);
            lemma_entries_size_nonneg(s);
        }
        let mut i: usize = 0;
        while i < self.data.len() && self.data[i].key.lt(&e.key)
            invariant
                i <= self@.len(),
                self@.len() == self.data@.len(),
                self@ == self.data@.map_values(|en: Entry| en@),
                forall|j: int| 0 <= j < i ==> key_lt((#[trigger] self@[j]).key, e@.key),
            decreases self@.len() - i,
        {
            i = i + 1;
        }
        let ghost ii = i as int;
        proof {
            lemma_insert_at(s, ev, ii);
        }
        let weight_new = e.key.user_key().len() + e.value.payload_len();
        if i < self.data.len() && self.data[i].key.key_eq(&e.key) {
            proof {
                lemma_find_from(s, ev.key, ii);
                lemma_find_key_weight(s, ev.key);
                lemma_entries_size_nonneg(s.drop_first());
            }
            let weight_old = self.data[i].key.user_key().len() + self.data[i].value.payload_len();
            self.data.set(i, e);
            self.size = self.size - weight_old + weight_new;
            proof {
                assert(self@ =~= s.update(ii, ev));
                assert(self@ == entries_insert(s, ev));
            }
        } else {
            proof {
                if ii < s.len() {
                    assert(s[ii].key != ev.key);
                    lemma_key_lt_connected(ev.key, s[ii].key);
                    assert(key_lt(ev.key, s[ii].key));
                }
                assert forall|j: int| 0 <= j < s.len() implies (#[trigger] s[j]).key != ev.key by {
                    if j < ii {
                        lemma_key_lt_irrefl(s[j].key);
                    } else {
                        if j > ii {
                            lemma_key_lt_trans(ev.key, s[ii].key, s[j].key);
                        }
                        lemma_key_lt_irrefl(s[j].key);
                    }
                }
                lemma_find_key_absent(s, ev.key);
            }
            self.data.insert(i, e);
            self.size = self.size + weight_new;
            proof {
                assert(self@ =~= s.insert(ii, ev));
                assert(self@ == entries_insert(s, ev));
            }
        }
    }
}

/// Positional account of sorted insertion: if everything before `i` sorts
/// below `e` and position `i` (if present) does not, the insertion replaces
/// at `i` or enters at `i`.
proof fn lemma_insert_at(s: Seq<EntryV>, e: EntryV, i: int)
    requires
        entries_sorted(s),
        0 <= i <= s.len(),
        forall|j: int| 0 <= j < i ==> key_lt((#[trigger] s[j]).key, e.key),
        i < s.len() ==> !key_lt(s[i].key, e.key),
    ensures
        entries_insert(s, e) == if i < s.len() && s[i].key == e.key {
            s.update(i, e)
        } else {
            s.insert(i, e)
        },
    decreases s.len(),
{
    if s.len() == 0 {
        assert(entries_insert(s, e) =~= s.insert(0, e));
    } else if i == 0 {
        lemma_key_lt_connected(e.key, s[0].key);
        if s[0].key == e.key {
            assert(entries_insert(s, e) == seq![e] + s.drop_first());
            assert(seq![e] + s.drop_first() =~= s.update(0, e));
        } else {
            assert(key_lt(e.key, s[0].key));
            assert(entries_insert(s, e) == seq![e] + s);
            assert(seq![e] + s =~= s.insert(0, e));
        }
    } else {
        assert(key_lt(s[0].key, e.key));
        lemma_key_lt_irrefl(s[0].key);
        assert(s[0].key != e.key);
        assert(!key_lt(e.key, s[0].key)) by {
            if key_lt(e.key, s[0].key) {
                lemma_key_lt_trans(s[0].key, e.key, s[0].key);
            }
        }
        assert(forall|j: int|
            0 <= j < i - 1 ==> (#[trigger] s.drop_first()[j]).key == s[j + 1].key);
        lemma_insert_at(s.drop_first(), e, i - 1);
        if i < s.len() {
            assert(s.drop_first()[i - 1] == s[i]);
        }
        if i < s.len() && s[i].key == e.key {
            assert(seq![s[0]] + s.drop_first().update(i - 1, e) =~= s.update(i, e));
        } else {
            assert(seq![s[0]] + s.drop_first().insert(i - 1, e) =~= s.insert(i, e));
        }
    }
}

} // verus!
