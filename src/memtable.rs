//! The in-memory write buffer: records kept sorted by key, one per key, with
//! a running estimate of their size.
use crate::bytes::{
    compare_keys, copy_bytes, key_lt, lemma_key_lt_irreflexive, lemma_key_lt_total,
    lemma_key_lt_transitive,
};
use crate::entry::{copy_value, is_normal, opt_bytes, stored_value, Record};
use core::cmp::Ordering;
use vstd::prelude::*;

verus! {

/// Keys strictly ascend along `s`.
pub open spec fn sorted(s: Seq<Record>) -> bool {
    forall|i: int, j: int| 0 <= i < j < s.len() ==> key_lt(#[trigger] s[i].key, #[trigger] s[j].key)
}

/// `s` with `r` written in: it replaces the record of the same key, or goes
/// in before the first larger key.
pub open spec fn put(s: Seq<Record>, r: Record) -> Seq<Record>
    decreases s.len(),
{
    if s.len() == 0 {
        seq![r]
    } else if s[0].key == r.key {
        seq![r] + s.drop_first()
    } else if key_lt(r.key, s[0].key) {
        seq![r] + s
    } else {
        seq![s[0]] + put(s.drop_first(), r)
    }
}

/// The first record of `s` with key `k`.
pub open spec fn find(s: Seq<Record>, k: Seq<u8>) -> Option<Record>
    decreases s.len(),
{
    if s.len() == 0 {
        None
    } else if s[0].key == k {
        Some(s[0])
    } else {
        find(s.drop_first(), k)
    }
}

pub open spec fn live_record(key: Seq<u8>, value: Seq<u8>, timestamp: u128) -> Record {
    Record { key, value: Some(value), timestamp, deleted: false }
}

pub open spec fn tombstone(key: Seq<u8>, timestamp: u128) -> Record {
    Record { key, value: None, timestamp, deleted: true }
}

/// What one resident record adds to the size estimate: key, value if any,
/// sixteen bytes of timestamp and one of flag.
pub open spec fn resident_size(r: Record) -> nat {
    r.key.len() + stored_value(r).len() + 17
}

pub open spec fn total_size(s: Seq<Record>) -> nat
    decreases s.len(),
{
    if s.len() == 0 {
        0
    } else {
        resident_size(s[0]) + total_size(s.drop_first())
    }
}

/// Writing a record makes it what a lookup of its key finds, and leaves what
/// a lookup of any other key finds as it was.
pub proof fn lemma_find_put(s: Seq<Record>, r: Record, k: Seq<u8>)
    ensures
        find(put(s, r), k) == if r.key == k {
            Some(r)
        } else {
            find(s, k)
        },
    decreases s.len(),
{
    if s.len() == 0 {
        let n = seq![r];
        assert(n[0] == r);
        assert(find(n.drop_first(), k) == None::<Record>);
    } else if s[0].key == r.key {
        let n = seq![r] + s.drop_first();
        assert(n[0] == r);
        assert(n.drop_first() =~= s.drop_first());
    } else if key_lt(r.key, s[0].key) {
        let n = seq![r] + s;
        assert(n[0] == r);
        assert(n.drop_first() =~= s);
        if r.key != k {
            assert(find(n, k) == find(s, k));
        }
    } else {
        lemma_find_put(s.drop_first(), r, k);
        let n = seq![s[0]] + put(s.drop_first(), r);
        assert(n[0] == s[0]);
        assert(n.drop_first() =~= put(s.drop_first(), r));
    }
}

/// After a key is set, a lookup of it finds the live record with the value
/// and timestamp just written.
pub proof fn lemma_read_after_write(s: Seq<Record>, key: Seq<u8>, value: Seq<u8>, timestamp: u128)
    ensures
        find(put(s, live_record(key, value, timestamp)), key) == Some(
            live_record(key, value, timestamp),
        ),
{
    lemma_find_put(s, live_record(key, value, timestamp), key);
}

/// After a key is deleted, a lookup of it finds a deletion marker with no
/// value, and so it stays while only other keys are written.
pub proof fn lemma_delete_visible(
    s: Seq<Record>,
    key: Seq<u8>,
    timestamp: u128,
    later: Seq<Record>,
)
    requires
        forall|i: int| 0 <= i < later.len() ==> (#[trigger] later[i]).key != key,
    ensures
        find(put_all(put(s, tombstone(key, timestamp)), later), key) == Some(
            tombstone(key, timestamp),
        ),
        find(put(s, tombstone(key, timestamp)), key).unwrap().value is None,
    decreases later.len(),
{
    lemma_find_put(s, tombstone(key, timestamp), key);
    if later.len() > 0 {
        let front = later.drop_last();
        assert forall|i: int| 0 <= i < front.len() implies (#[trigger] front[i]).key != key by {
            assert(front[i] == later[i]);
        }
        lemma_delete_visible(s, key, timestamp, front);
        lemma_find_put(put_all(put(s, tombstone(key, timestamp)), front), later.last(), key);
    }
}

/// A later write of a deleted key hides its deletion marker: a lookup finds
/// the live record just written.
pub proof fn lemma_set_after_delete(
    s: Seq<Record>,
    key: Seq<u8>,
    deleted_at: u128,
    value: Seq<u8>,
    timestamp: u128,
)
    ensures
        find(put(put(s, tombstone(key, deleted_at)), live_record(key, value, timestamp)), key)
            == Some(live_record(key, value, timestamp)),
{
    lemma_find_put(put(s, tombstone(key, deleted_at)), live_record(key, value, timestamp), key);
}

/// `s` with each record of `rs` written in, in order.
pub open spec fn put_all(s: Seq<Record>, rs: Seq<Record>) -> Seq<Record>
    decreases rs.len(),
{
    if rs.len() == 0 {
        s
    } else {
        put(put_all(s, rs.drop_last()), rs.last())
    }
}

/// `i` is where key `k` stands in `s`, or where it would go in.
pub open spec fn is_position(s: Seq<Record>, k: Seq<u8>, i: int) -> bool {
    &&& 0 <= i <= s.len()
    &&& forall|j: int| 0 <= j < i ==> key_lt(#[trigger] s[j].key, k)
    &&& (i < s.len() && s[i].key == k) || (forall|j: int|
        i <= j < s.len() ==> key_lt(k, #[trigger] s[j].key))
}

pub proof fn lemma_put_at(s: Seq<Record>, r: Record, i: int)
    requires
        is_position(s, r.key, i),
    ensures
        put(s, r) == if i < s.len() && s[i].key == r.key {
            s.update(i, r)
        } else {
            s.insert(i, r)
        },
    decreases s.len(),
{
    if s.len() == 0 {
        assert(s.insert(0, r) =~= seq![r]);
    } else if i == 0 {
        if s[0].key == r.key {
            assert(seq![r] + s.drop_first() =~= s.update(0, r));
        } else {
            assert(key_lt(r.key, s[0].key));
            assert(seq![r] + s =~= s.insert(0, r));
        }
    } else {
        let t = s.drop_first();
        assert(key_lt(s[0].key, r.key));
        lemma_key_lt_total(s[0].key, r.key);
        assert(is_position(t, r.key, i - 1)) by {
            assert forall|j: int| 0 <= j < i - 1 implies key_lt(#[trigger] t[j].key, r.key) by {
                assert(t[j] == s[j + 1]);
            }
            if !(i < s.len() && s[i].key == r.key) {
                assert forall|j: int| i - 1 <= j < t.len() implies key_lt(
                    r.key,
                    #[trigger] t[j].key,
                ) by {
                    assert(t[j] == s[j + 1]);
                }
            }
        }
        lemma_put_at(t, r, i - 1);
        if i < s.len() && s[i].key == r.key {
            assert(seq![s[0]] + t.update(i - 1, r) =~= s.update(i, r));
        } else {
            assert(seq![s[0]] + t.insert(i - 1, r) =~= s.insert(i, r));
        }
    }
}

pub proof fn lemma_find_at(s: Seq<Record>, k: Seq<u8>, i: int)
    requires
        is_position(s, k, i),
    ensures
        find(s, k) == if i < s.len() && s[i].key == k {
            Some(s[i])
        } else {
            None::<Record>
        },
    decreases s.len(),
{
    if s.len() > 0 {
        let t = s.drop_first();
        lemma_key_lt_irreflexive(k);
        if i == 0 {
            if s[0].key != k {
                assert forall|j: int| 0 <= j < t.len() implies key_lt(k, #[trigger] t[j].key) by {
                    assert(t[j] == s[j + 1]);
                }
                lemma_find_at(t, k, 0);
            }
        } else {
            lemma_key_lt_total(s[0].key, k);
            assert(is_position(t, k, i - 1)) by {
                assert forall|j: int| 0 <= j < i - 1 implies key_lt(#[trigger] t[j].key, k) by {
                    assert(t[j] == s[j + 1]);
                }
                if !(i < s.len() && s[i].key == k) {
                    assert forall|j: int| i - 1 <= j < t.len() implies key_lt(
                        k,
                        #[trigger] t[j].key,
                    ) by {
                        assert(t[j] == s[j + 1]);
                    }
                }
            }
            lemma_find_at(t, k, i - 1);
            if i < s.len() {
                assert(s[i] == t[i - 1]);
            }
        }
    }
}

/// Every key has a position in a sorted sequence.
pub proof fn lemma_position_exists(s: Seq<Record>, k: Seq<u8>) -> (i: int)
    requires
        sorted(s),
    ensures
        is_position(s, k, i),
    decreases s.len(),
{
    if s.len() == 0 {
        0
    } else {
        lemma_key_lt_total(s[0].key, k);
        if s[0].key == k {
            0
        } else if key_lt(k, s[0].key) {
            assert forall|j: int| 0 <= j < s.len() implies key_lt(k, #[trigger] s[j].key) by {
                if j > 0 {
                    lemma_key_lt_transitive(k, s[0].key, s[j].key);
                }
            }
            0
        } else {
            let t = s.drop_first();
            assert(sorted(t)) by {
                assert forall|a: int, b: int| 0 <= a < b < t.len() implies key_lt(
                    #[trigger] t[a].key,
                    #[trigger] t[b].key,
                ) by {
                    assert(t[a] == s[a + 1] && t[b] == s[b + 1]);
                }
            }
            let p = lemma_position_exists(t, k);
            assert forall|j: int| 0 <= j < p + 1 implies key_lt(#[trigger] s[j].key, k) by {
                if j > 0 {
                    assert(s[j] == t[j - 1]);
                }
            }
            if !(p + 1 < s.len() && s[p + 1].key == k) {
                assert forall|j: int| p + 1 <= j < s.len() implies key_lt(k, #[trigger] s[j].key) by {
                    assert(s[j] == t[j - 1]);
                }
            }
            p + 1
        }
    }
}

/// Writing a record keeps the keys strictly ascending.
pub proof fn lemma_put_sorted(s: Seq<Record>, r: Record)
    requires
        sorted(s),
    ensures
        sorted(put(s, r)),
{
    let i = lemma_position_exists(s, r.key);
    lemma_put_at(s, r, i);
    let n = put(s, r);
    if i < s.len() && s[i].key == r.key {
        assert forall|a: int, b: int| 0 <= a < b < n.len() implies key_lt(
            #[trigger] n[a].key,
            #[trigger] n[b].key,
        ) by {
            assert(s[a].key == n[a].key && s[b].key == n[b].key);
        }
    } else {
        assert forall|a: int, b: int| 0 <= a < b < n.len() implies key_lt(
            #[trigger] n[a].key,
            #[trigger] n[b].key,
        ) by {
            if a < i && b == i {
            } else if a < i && b > i {
                assert(n[b] == s[b - 1]);
            } else if a == i {
                assert(n[b] == s[b - 1]);
            } else if b < i {
                assert(n[a] == s[a] && n[b] == s[b]);
            } else {
                assert(n[a] == s[a - 1] && n[b] == s[b - 1]);
            }
        }
    }
}

/// Any run of writes keeps the keys strictly ascending.
pub proof fn lemma_put_all_sorted(s: Seq<Record>, rs: Seq<Record>)
    requires
        sorted(s),
    ensures
        sorted(put_all(s, rs)),
    decreases rs.len(),
{
    if rs.len() > 0 {
        lemma_put_all_sorted(s, rs.drop_last());
        lemma_put_sorted(put_all(s, rs.drop_last()), rs.last());
    }
}

pub proof fn lemma_total_update(s: Seq<Record>, i: int, r: Record)
    requires
        0 <= i < s.len(),
    ensures
        total_size(s.update(i, r)) + resident_size(s[i]) == total_size(s) + resident_size(r),
    decreases s.len(),
{
    if i > 0 {
        lemma_total_update(s.drop_first(), i - 1, r);
        assert(s.update(i, r).drop_first() =~= s.drop_first().update(i - 1, r));
    } else {
        assert(s.update(i, r).drop_first() =~= s.drop_first());
    }
}

pub proof fn lemma_total_insert(s: Seq<Record>, i: int, r: Record)
    requires
        0 <= i <= s.len(),
    ensures
        total_size(s.insert(i, r)) == total_size(s) + resident_size(r),
    decreases s.len(),
{
    if i > 0 {
        lemma_total_insert(s.drop_first(), i - 1, r);
        assert(s.insert(i, r).drop_first() =~= s.drop_first().insert(i - 1, r));
    } else {
        assert(s.insert(i, r).drop_first() =~= s);
    }
}

/// A record as the buffer holds it.
pub struct MemTableEntry {
    pub key: Vec<u8>,
    pub value: Option<Vec<u8>>,
    pub timestamp: u128,
    pub deleted: bool,
}

impl View for MemTableEntry {
    type V = Record;

    open spec fn view(&self) -> Record {
        Record {
            key: self.key@,
            value: opt_bytes(self.value),
            timestamp: self.timestamp,
            deleted: self.deleted,
        }
    }
}

impl MemTableEntry {
    /// A copy of this entry.
    pub fn duplicate(&self) -> (r: MemTableEntry)
        ensures
            r@ == self@,
    {
        MemTableEntry {
            key: copy_bytes(self.key.as_slice()),
            value: copy_value(&self.value),
            timestamp: self.timestamp,
            deleted: self.deleted,
        }
    }
}

pub open spec fn entries_view(v: Seq<MemTableEntry>) -> Seq<Record> {
    v.map_values(|e: MemTableEntry| e@)
}

/// The write buffer: entries sorted by key, and the sum of their estimated
/// sizes.
pub struct MemTable {
    entries: Vec<MemTableEntry>,
    size: usize,
}

impl View for MemTable {
    type V = Seq<Record>;

    closed spec fn view(&self) -> Seq<Record> {
        entries_view(self.entries@)
    }
}

impl MemTable {
    pub closed spec fn wf(&self) -> bool {
        &&& sorted(self@)
        &&& forall|i: int| 0 <= i < self@.len() ==> is_normal(#[trigger] self@[i])
        &&& self.size == total_size(self@)
    }

    /// The keys of a well-formed buffer strictly ascend.
    pub proof fn lemma_sorted(&self)
        requires
            self.wf(),
        ensures
            sorted(self@),
            forall|i: int| 0 <= i < self@.len() ==> is_normal(#[trigger] self@[i]),
    {
    }

    /// An empty buffer.
    pub fn new() -> (r: MemTable)
        ensures
            r.wf(),
            r@ == Seq::<Record>::empty(),
            total_size(r@) == 0,
    {
        let r = MemTable { entries: Vec::new(), size: 0 };
        proof {
            assert(r@ =~= Seq::<Record>::empty());
        }
        r
    }

    /// The estimated size of the entries: for each, its key, its value if
    /// any, and seventeen bytes.
    pub fn size(&self) -> (r: usize)
        requires
            self.wf(),
        ensures
            r == total_size(self@),
    {
        self.size
    }

    /// The number of entries.
    pub fn len(&self) -> (r: usize)
        ensures
            r == self@.len(),
    {
        self.entries.len()
    }

    /// Binary search for `key`: `Ok` with its index, or `Err` with the index
    /// where it would go in.
    pub fn get_index(&self, key: &[u8]) -> (r: Result<usize, usize>)
        requires
            self.wf(),
        ensures
            match r {
                Ok(i) => i < self@.len() && self@[i as int].key == key@ && is_position(
                    self@,
                    key@,
                    i as int,
                ),
                Err(i) => is_position(self@, key@, i as int) && !(i < self@.len()
                    && self@[i as int].key == key@),
            },
    {
        let mut lo: usize = 0;
        let mut hi: usize = self.entries.len();
        while lo < hi
            invariant
                self.wf(),
                lo <= hi <= self@.len(),
                self@.len() == self.entries@.len(),
                forall|j: int| 0 <= j < lo ==> key_lt(#[trigger] self@[j].key, key@),
                forall|j: int| hi <= j < self@.len() ==> key_lt(key@, #[trigger] self@[j].key),
            decreases hi - lo,
        {
            let mid = lo + (hi - lo) / 2;
            let ghost m = self@[mid as int];
            match compare_keys(self.entries[mid].key.as_slice(), key) {
                Ordering::Equal => {
                    proof {
                        assert(self@[mid as int].key == key@);
                    }
                    return Ok(mid);
                },
                Ordering::Less => {
                    proof {
                        assert forall|j: int| 0 <= j < mid + 1 implies key_lt(
                            #[trigger] self@[j].key,
                            key@,
                        ) by {
                            if j < mid {
                                lemma_key_lt_transitive(self@[j].key, m.key, key@);
                            }
                        }
                    }
                    lo = mid + 1;
                },
                Ordering::Greater => {
                    proof {
                        lemma_key_lt_total(m.key, key@);
                        assert forall|j: int| mid <= j < self@.len() implies key_lt(
                            key@,
                            #[trigger] self@[j].key,
                        ) by {
                            if j > mid {
                                lemma_key_lt_transitive(key@, m.key, self@[j].key);
                            }
                        }
                    }
                    hi = mid;
                },
            }
        }
        proof {
            if lo < self@.len() {
                lemma_key_lt_total(key@, self@[lo as int].key);
            }
        }
        Err(lo)
    }

    /// The entry of `key`, a deletion marker included.
    pub fn get(&self, key: &[u8]) -> (r: Option<&MemTableEntry>)
        requires
            self.wf(),
        ensures
            match r {
                Some(e) => find(self@, key@) == Some(e@),
                None => find(self@, key@) is None,
            },
    {
        match self.get_index(key) {
            Ok(i) => {
                proof {
                    lemma_find_at(self@, key@, i as int);
                }
                Some(&self.entries[i])
            },
            Err(i) => {
                proof {
                    lemma_find_at(self@, key@, i as int);
                }
                None
            },
        }
    }

    /// Stores `entry` at the position of its key, in place of the entry of
    /// the same key if there is one; `added` is the new entry's share of the
    /// size estimate.
    fn place(&mut self, entry: MemTableEntry, added: usize)
        requires
            old(self).wf(),
            is_normal(entry@),
            added == resident_size(entry@),
            old(self).size + added <= usize::MAX,
        ensures
            final(self).wf(),
            final(self)@ == put(old(self)@, entry@),
    {
        let ghost r = entry@;
        proof {
            lemma_put_sorted(self@, r);
        }
        match self.get_index(entry.key.as_slice()) {
            Ok(idx) => {
                let old_len: usize = match &self.entries[idx].value {
                    Some(v) => v.len(),
                    None => 0,
                };
                proof {
                    lemma_put_at(self@, r, idx as int);
                    lemma_total_update(self@, idx as int, r);
                    assert(old_len == stored_value(self@[idx as int]).len());
                }
                let old_resident = entry.key.len() + old_len + 17;
                self.size = self.size + added - old_resident;
                self.entries.set(idx, entry);
                proof {
                    assert(self@ =~= old(self)@.update(idx as int, r));
                }
            },
            Err(idx) => {
                proof {
                    lemma_put_at(self@, r, idx as int);
                    lemma_total_insert(self@, idx as int, r);
                }
                self.size = self.size + added;
                self.entries.insert(idx, entry);
                proof {
                    assert(self@ =~= old(self)@.insert(idx as int, r));
                }
            },
        }
        proof {
            let n = self@;
            assert forall|i: int| 0 <= i < n.len() implies is_normal(#[trigger] n[i]) by {
                if n[i] != r {
                    assert(old(self)@.contains(n[i]) || n[i] == r);
                }
            }
        }
    }

    /// Writes `value` for `key`, replacing what the key held.
    pub fn set(&mut self, key: &[u8], value: &[u8], timestamp: u128)
        requires
            old(self).wf(),
            total_size(old(self)@) + key@.len() + value@.len() + 17 <= usize::MAX,
        ensures
            final(self).wf(),
            final(self)@ == put(old(self)@, live_record(key@, value@, timestamp)),
    {
        let entry = MemTableEntry {
            key: copy_bytes(key),
            value: Some(copy_bytes(value)),
            timestamp,
            deleted: false,
        };
        self.place(entry, key.len() + value.len() + 17);
    }

    /// Marks `key` deleted, replacing what the key held.
    pub fn delete(&mut self, key: &[u8], timestamp: u128)
        requires
            old(self).wf(),
            total_size(old(self)@) + key@.len() + 17 <= usize::MAX,
        ensures
            final(self).wf(),
            final(self)@ == put(old(self)@, tombstone(key@, timestamp)),
    {
        let entry = MemTableEntry { key: copy_bytes(key), value: None, timestamp, deleted: true };
        self.place(entry, key.len() + 17);
    }

    /// Copies of the entries, largest key first.
    pub fn get_entries_reversed(&self) -> (r: Vec<MemTableEntry>)
        ensures
            entries_view(r@) == self@.reverse(),
    {
        let mut r: Vec<MemTableEntry> = Vec::with_capacity(self.entries.len());
        let n = self.entries.len();
        let mut i: usize = n;
        while i > 0
            invariant
                i <= n == self@.len(),
                r@.len() == n - i,
                forall|j: int| 0 <= j < n - i ==> (#[trigger] r@[j])@ == self@[n - 1 - j],
            decreases i,
        {
            r.push(self.entries[i - 1].duplicate());
            i = i - 1;
        }
        proof {
            assert(entries_view(r@) =~= self@.reverse());
        }
        r
    }

    /// Hands the entries out in ascending key order.
    pub fn into_iter(self) -> (r: MemTableIterator)
        ensures
            r@ == self@.reverse(),
    {
        MemTableIterator::new(self.get_entries_reversed())
    }
}

/// Hands out the entries of a vector from its last to its first.
pub struct MemTableIterator {
    entries: Vec<MemTableEntry>,
}

impl View for MemTableIterator {
    type V = Seq<Record>;

    /// What is left; the last comes out first.
    closed spec fn view(&self) -> Seq<Record> {
        entries_view(self.entries@)
    }
}

impl MemTableIterator {
    pub fn new(entries: Vec<MemTableEntry>) -> (r: Self)
        ensures
            r@ == entries_view(entries@),
    {
        MemTableIterator { entries }
    }

    /// The next entry: the last one left.
    pub fn next(&mut self) -> (r: Option<MemTableEntry>)
        ensures
            old(self)@.len() == 0 ==> r is None && final(self)@ == old(self)@,
            old(self)@.len() > 0 ==> (r matches Some(e) && e@ == old(self)@.last()),
            old(self)@.len() > 0 ==> final(self)@ == old(self)@.drop_last(),
    {
        let r = self.entries.pop();
        proof {
            assert(self@ =~= old(self)@.take(self@.len() as int));
        }
        r
    }
}

} // verus!
