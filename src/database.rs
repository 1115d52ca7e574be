//! The store: a live buffer and its log, and the segments flushed from
//! earlier buffers, oldest first.
use crate::codec::{encode_all, encode_index_all, encode_into, encode_record};
use crate::entry::{copy_value, opt_bytes, Record};
use crate::memtable::{
    entries_view, find, live_record, put, sorted, tombstone, total_size, MemTable,
    MemTableEntry,
};
use crate::sstable::{block_layout, SSTable, SSTableEntry};
use crate::wal::WAL;
use vstd::prelude::*;

verus! {

/// Why a write was refused.
#[derive(Debug, PartialEq, Eq)]
pub enum DbError {
    /// The buffer's size estimate would no longer fit a `usize`.
    SizeLimit,
}

/// A record as the store hands it out.
pub struct DatabaseEntry {
    pub key: Vec<u8>,
    pub value: Option<Vec<u8>>,
    pub timestamp: u128,
    pub deleted: bool,
}

impl View for DatabaseEntry {
    type V = Record;

    open spec fn view(&self) -> Record {
        Record {
            key: self.key@,
            value: opt_bytes(self.value),
            timestamp: self.timestamp,
            deleted: self.deleted,
        }
    }
}

impl DatabaseEntry {
    /// A copy of a buffer entry.
    pub fn from_memtable_entry(entry: &MemTableEntry) -> (r: DatabaseEntry)
        ensures
            r@ == entry@,
    {
        DatabaseEntry {
            key: crate::bytes::copy_bytes(entry.key.as_slice()),
            value: copy_value(&entry.value),
            timestamp: entry.timestamp,
            deleted: entry.deleted,
        }
    }

    /// A copy of a segment entry.
    pub fn from_sstable_entry(entry: &SSTableEntry) -> (r: DatabaseEntry)
        ensures
            r@ == entry@,
    {
        DatabaseEntry {
            key: crate::bytes::copy_bytes(entry.key.as_slice()),
            value: copy_value(&entry.value),
            timestamp: entry.timestamp,
            deleted: entry.deleted,
        }
    }
}

/// The record of `k` in the newest segment that holds it.
pub open spec fn find_newest(segs: Seq<Seq<Record>>, k: Seq<u8>) -> Option<Record>
    decreases segs.len(),
{
    if segs.len() == 0 {
        None
    } else {
        match find(segs.last(), k) {
            Some(r) => Some(r),
            None => find_newest(segs.drop_last(), k),
        }
    }
}

/// What a read of `k` finds: the buffer's record, else the newest segment's.
pub open spec fn lookup(mem: Seq<Record>, segs: Seq<Seq<Record>>, k: Seq<u8>) -> Option<Record> {
    match find(mem, k) {
        Some(r) => Some(r),
        None => find_newest(segs, k),
    }
}

/// The store.
pub struct Database {
    memtable: MemTable,
    wal: WAL,
    sstables: Vec<SSTable>,
}

impl Database {
    /// The live buffer's records.
    pub closed spec fn memtable_view(&self) -> Seq<Record> {
        self.memtable@
    }

    /// The records of the live log.
    pub closed spec fn log(&self) -> Seq<Record> {
        self.wal.records()
    }

    /// The bytes of the live log not yet handed out.
    pub closed spec fn pending_log(&self) -> Seq<u8> {
        self.wal.pending()
    }

    /// The records of each segment, oldest segment first.
    pub closed spec fn segments(&self) -> Seq<Seq<Record>> {
        self.sstables@.map_values(|t: SSTable| t.records())
    }

    pub closed spec fn wf(&self) -> bool {
        &&& self.memtable.wf()
        &&& self.wal.wf()
        &&& forall|i: int|
            0 <= i < self.sstables@.len() ==> (#[trigger] self.sstables@[i]).wf()
                && self.sstables@[i].laid_out() && sorted(
                self.sstables@[i].records(),
            )
    }

    /// A flush took `before` to `after`: the buffer became the newest
    /// segment, and the buffer and the log start empty.
    pub open spec fn flushed(before: Database, after: Database) -> bool {
        &&& after.segments() == before.segments().push(before.memtable_view())
        &&& after.memtable_view() == Seq::<Record>::empty()
        &&& after.log() == Seq::<Record>::empty()
    }

    /// An empty store.
    pub fn new() -> (r: Database)
        ensures
            r.wf(),
            r.memtable_view() == Seq::<Record>::empty(),
            r.log() == Seq::<Record>::empty(),
            r.segments() == Seq::<Seq<Record>>::empty(),
    {
        let r = Database { memtable: MemTable::new(), wal: WAL::new(), sstables: Vec::new() };
        proof {
            assert(r.segments() =~= Seq::<Seq<Record>>::empty());
        }
        r
    }

    /// A store made of a recovered buffer and log and of segments read back;
    /// nothing where a segment's keys do not strictly ascend.
    pub fn from_parts(memtable: MemTable, wal: WAL, sstables: Vec<SSTable>) -> (r: Option<Database>)
        requires
            memtable.wf(),
            wal.wf(),
            forall|i: int|
                0 <= i < sstables@.len() ==> (#[trigger] sstables@[i]).wf() && sstables@[i].laid_out(),
        ensures
            match r {
                Some(db) => db.wf() && db.memtable_view() == memtable@ && db.log() == wal.records()
                    && db.segments() == sstables@.map_values(|t: SSTable| t.records()),
                None => exists|i: int|
                    0 <= i < sstables@.len() && !sorted(#[trigger] sstables@[i].records()),
            },
    {
        let mut i: usize = 0;
        while i < sstables.len()
            invariant
                i <= sstables@.len(),
                forall|j: int|
                    0 <= j < sstables@.len() ==> (#[trigger] sstables@[j]).wf() && sstables@[j].laid_out(),
                forall|j: int| 0 <= j < i ==> sorted(#[trigger] sstables@[j].records()),
            decreases sstables@.len() - i,
        {
            if !sstables[i].is_sorted() {
                return None;
            }
            i = i + 1;
        }
        Some(Database { memtable, wal, sstables })
    }

    /// The log bytes of a write of `value` for `key`, to be made durable
    /// before `set` applies it; refused exactly where `set` would be.
    pub fn stage_set(&self, key: &[u8], value: &[u8], timestamp: u128) -> (r: Result<Vec<u8>, DbError>)
        requires
            self.wf(),
        ensures
            r is Err <==> total_size(self.memtable_view()) + key@.len() + value@.len() + 17
                > usize::MAX,
            r matches Ok(b) ==> b@ == encode_record(live_record(key@, value@, timestamp)),
    {
        let size = self.memtable.size();
        if key.len() > usize::MAX - size || value.len() > usize::MAX - size - key.len() || 17
            > usize::MAX - size - key.len() - value.len() {
            return Err(DbError::SizeLimit);
        }
        let mut out: Vec<u8> = Vec::new();
        encode_into(&mut out, key, &Some(crate::bytes::copy_bytes(value)), timestamp, false);
        proof {
            assert(out@ =~= encode_record(live_record(key@, value@, timestamp)));
        }
        Ok(out)
    }

    /// The log bytes of a deletion of `key`, to be made durable before
    /// `delete` applies it; refused exactly where `delete` would be.
    pub fn stage_delete(&self, key: &[u8], timestamp: u128) -> (r: Result<Vec<u8>, DbError>)
        requires
            self.wf(),
        ensures
            r is Err <==> total_size(self.memtable_view()) + key@.len() + 17 > usize::MAX,
            r matches Ok(b) ==> b@ == encode_record(tombstone(key@, timestamp)),
    {
        let size = self.memtable.size();
        if key.len() > usize::MAX - size || 17 > usize::MAX - size - key.len() {
            return Err(DbError::SizeLimit);
        }
        let mut out: Vec<u8> = Vec::new();
        encode_into(&mut out, key, &None, timestamp, true);
        proof {
            assert(out@ =~= encode_record(tombstone(key@, timestamp)));
        }
        Ok(out)
    }

    /// Writes `value` for `key`, to the log and then to the buffer; refused,
    /// with nothing changed, where the buffer's size estimate would overflow.
    pub fn set(&mut self, key: &[u8], value: &[u8], timestamp: u128) -> (r: Result<(), DbError>)
        requires
            old(self).wf(),
        ensures
            final(self).wf(),
            final(self).segments() == old(self).segments(),
            r is Err <==> total_size(old(self).memtable_view()) + key@.len() + value@.len() + 17
                > usize::MAX,
            r is Err ==> *final(self) == *old(self),
            r is Ok ==> final(self).memtable_view() == put(
                old(self).memtable_view(),
                live_record(key@, value@, timestamp),
            ) && final(self).log() == old(self).log().push(live_record(key@, value@, timestamp))
                && final(self).pending_log() == old(self).pending_log() + encode_record(
                live_record(key@, value@, timestamp),
            ),
    {
        let size = self.memtable.size();
        if key.len() > usize::MAX - size || value.len() > usize::MAX - size - key.len() || 17
            > usize::MAX - size - key.len() - value.len() {
            return Err(DbError::SizeLimit);
        }
        self.wal.set(key, value, timestamp);
        self.memtable.set(key, value, timestamp);
        Ok(())
    }

    /// Deletes `key`, in the log and then in the buffer; refused, with
    /// nothing changed, where the buffer's size estimate would overflow.
    pub fn delete(&mut self, key: &[u8], timestamp: u128) -> (r: Result<(), DbError>)
        requires
            old(self).wf(),
        ensures
            final(self).wf(),
            final(self).segments() == old(self).segments(),
            r is Err <==> total_size(old(self).memtable_view()) + key@.len() + 17 > usize::MAX,
            r is Err ==> *final(self) == *old(self),
            r is Ok ==> final(self).memtable_view() == put(
                old(self).memtable_view(),
                tombstone(key@, timestamp),
            ) && final(self).log() == old(self).log().push(tombstone(key@, timestamp))
                && final(self).pending_log() == old(self).pending_log() + encode_record(
                tombstone(key@, timestamp),
            ),
    {
        let size = self.memtable.size();
        if key.len() > usize::MAX - size || 17 > usize::MAX - size - key.len() {
            return Err(DbError::SizeLimit);
        }
        self.wal.delete(key, timestamp);
        self.memtable.delete(key, timestamp);
        Ok(())
    }

    /// Hands out the log bytes written since the last call, to be made
    /// durable.
    pub fn take_log(&mut self) -> (r: Vec<u8>)
        requires
            old(self).wf(),
        ensures
            final(self).wf(),
            r@ == old(self).pending_log(),
            final(self).log() == old(self).log(),
            final(self).memtable_view() == old(self).memtable_view(),
            final(self).segments() == old(self).segments(),
    {
        self.wal.flush()
    }

    /// Reads `key`: the buffer first, then the segments from the newest.
    pub fn get(&self, key: &[u8]) -> (r: Option<DatabaseEntry>)
        requires
            self.wf(),
        ensures
            match r {
                Some(e) => lookup(self.memtable_view(), self.segments(), key@) == Some(e@),
                None => lookup(self.memtable_view(), self.segments(), key@) is None,
            },
    {
        if let Some(entry) = self.memtable.get(key) {
            return Some(DatabaseEntry::from_memtable_entry(entry));
        }
        let mut i: usize = self.sstables.len();
        let ghost segs = self.segments();
        proof {
            assert(segs.take(i as int) =~= segs);
        }
        while i > 0
            invariant
                self.wf(),
                segs == self.segments(),
                i <= self.sstables@.len(),
                find(self.memtable_view(), key@) is None,
                find_newest(segs, key@) == find_newest(segs.take(i as int), key@),
            decreases i,
        {
            let t = &self.sstables[i - 1];
            proof {
                assert(t.wf() && sorted(t.records()));
                let s = segs.take(i as int);
                assert(s.last() == t.records());
                assert(s.drop_last() =~= segs.take(i - 1));
            }
            if let Some(e) = t.get(key) {
                return Some(
                    DatabaseEntry { key: e.key, value: e.value, timestamp: e.timestamp, deleted: e.deleted },
                );
            }
            i = i - 1;
        }
        None
    }

    /// The segment that a flush writes: the buffer's records in ascending key
    /// order, indexed by the block policy. Nothing changes.
    pub fn build_segment(&self) -> (t: SSTable)
        requires
            self.wf(),
        ensures
            t.wf(),
            t.laid_out(),
            sorted(t.records()),
            t.records() == self.memtable_view(),
    {
        let mut t = SSTable::new();
        let mut entries = self.memtable.get_entries_reversed();
        let ghost mem = self.memtable@;
        let ghost n = mem.len();
        proof {
            self.memtable.lemma_sorted();
            assert(mem.take(0) =~= Seq::<Record>::empty());
            assert(entries_view(entries@).len() == entries@.len());
            assert forall|j: int| 0 <= j < entries@.len() implies (#[trigger] entries@[j])@ == mem[n
                - 1 - j] by {
                assert(entries_view(entries@)[j] == entries@[j]@);
                assert(mem.reverse()[j] == mem[n - 1 - j]);
            }
        }
        while entries.len() > 0
            invariant
                t.wf(),
                t.laid_out(),
                mem == self.memtable@,
                sorted(mem),
                forall|i: int| 0 <= i < mem.len() ==> crate::entry::is_normal(#[trigger] mem[i]),
                entries@.len() <= n == mem.len(),
                forall|j: int| 0 <= j < entries@.len() ==> (#[trigger] entries@[j])@ == mem[n - 1 - j],
                t.records() == mem.take(n - entries@.len()),
            decreases entries@.len(),
        {
            let ghost k = n - entries@.len();
            let e = entries.pop().unwrap();
            proof {
                assert(e@ == mem[k]);
            }
            match &e.value {
                Some(v) => t.set(e.key.as_slice(), v.as_slice(), e.timestamp),
                None => t.delete(e.key.as_slice(), e.timestamp),
            }
            proof {
                assert(mem.take(k + 1) =~= mem.take(k).push(mem[k]));
            }
        }
        proof {
            assert(mem.take(n as int) =~= mem);
        }
        t
    }

    /// Writes the buffer, in ascending key order, to a new segment that
    /// becomes the newest, and starts an empty buffer and an empty log.
    pub fn flush(&mut self)
        requires
            old(self).wf(),
        ensures
            final(self).wf(),
            Database::flushed(*old(self), *final(self)),
    {
        let t = self.build_segment();
        let ghost mem = self.memtable@;
        let ghost old_ts = self.sstables@;
        self.sstables.push(t);
        self.memtable = MemTable::new();
        self.wal = WAL::new();
        proof {
            assert(self.segments() =~= old(self).segments().push(mem));
            assert forall|i: int| 0 <= i < self.sstables@.len() implies (#[trigger] self.sstables@[i]).wf()
                && self.sstables@[i].laid_out() && sorted(self.sstables@[i].records()) by {
                if i < old_ts.len() {
                    assert(self.sstables@[i] == old_ts[i]);
                }
            }
        }
    }

    /// Whether the live log is empty.
    pub fn wal_is_empty(&self) -> (r: bool)
        requires
            self.wf(),
        ensures
            r == (self.log().len() == 0),
    {
        self.wal.is_empty()
    }

    /// The live buffer's size estimate.
    pub fn memtable_size(&self) -> (r: usize)
        requires
            self.wf(),
        ensures
            r == total_size(self.memtable_view()),
    {
        self.memtable.size()
    }

    /// The number of segments.
    pub fn segment_count(&self) -> (r: usize)
        ensures
            r == self.segments().len(),
    {
        self.sstables.len()
    }

    /// The data bytes and index bytes of segment `i`.
    pub fn segment_bytes(&self, i: usize) -> (r: (&[u8], &[u8]))
        requires
            self.wf(),
            i < self.segments().len(),
        ensures
            r.0@ == encode_all(self.segments()[i as int]),
            r.1@ == encode_index_all(block_layout(self.segments()[i as int]).0),
    {
        let t = &self.sstables[i];
        proof {
            assert(t.wf());
        }
        (t.data_bytes(), t.index_bytes())
    }
}

/// A flush hands every record of the buffer to the new segment: a lookup
/// in it finds what a lookup in the buffer found, the segment is sorted, and
/// the buffer and the log are left empty.
pub proof fn lemma_flush_round_trip(before: Database, after: Database, k: Seq<u8>)
    requires
        before.wf(),
        after.wf(),
        Database::flushed(before, after),
    ensures
        find(after.segments().last(), k) == find(before.memtable_view(), k),
        sorted(after.segments().last()),
        find(after.memtable_view(), k) is None,
        after.log().len() == 0,
{
    let last = (after.sstables@.len() - 1) as int;
    assert(after.segments()[last] == after.sstables@[last].records());
}

} // verus!
