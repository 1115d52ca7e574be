//! A sorted segment: a data part with every record and a sparse index with
//! one record for each block of about `BLOCK_SIZE` bytes of data.
use crate::bytes::{compare_keys, key_lt, lemma_key_lt_total, lemma_key_lt_transitive};
use crate::codec::{
    decode_at, encode_all, encode_index_all, encoded_len, lemma_decode_encoded,
    lemma_decode_index_encoded, lemma_encode_all_push, lemma_encode_all_split, lemma_encoded_len,
    lemma_parse_all_step, lemma_parse_record_shape, offset_of,
    parse_all, parse_index_all, IndexRecord,
};
use crate::data::{scan_from, Data, DataIterator};
use crate::entry::{normalized, opt_bytes, stored_value, Entry, Record};
use crate::index::Index;
use crate::memtable::{find, sorted};
use core::cmp::Ordering;
use vstd::prelude::*;

verus! {

/// The number of data bytes after which a new index record is written.
pub const BLOCK_SIZE: usize = 65536;

/// A record as a segment hands it out.
pub struct SSTableEntry {
    pub key: Vec<u8>,
    pub value: Option<Vec<u8>>,
    pub timestamp: u128,
    pub deleted: bool,
}

impl View for SSTableEntry {
    type V = Record;

    open spec fn view(&self) -> Record {
        Record {
            key: self.key@,
            value: opt_bytes(self.value),
            timestamp: self.timestamp,
            deleted: self.deleted,
        }
    }
}

impl SSTableEntry {
    /// The same record as an `Entry`.
    pub fn into_entry(self) -> (r: Entry)
        ensures
            r@ == self@,
    {
        Entry { key: self.key, value: self.value, timestamp: self.timestamp, deleted: self.deleted }
    }
}

/// The number of bytes that `entry` takes in the data part.
pub fn size(entry: &Entry) -> (r: usize)
    requires
        entry.key@.len() + stored_value(entry@).len() + 33 <= usize::MAX,
    ensures
        r == encoded_len(entry@),
{
    let boolean_size: usize = 1;
    let size_in_bytes = entry.key.len() + 8 + 16 + boolean_size;
    if entry.deleted {
        size_in_bytes
    } else {
        match &entry.value {
            Some(val) => size_in_bytes + val.len() + 8,
            None => size_in_bytes + 8,
        }
    }
}

/// Whether writing a record of `entry_size` bytes after `current` bytes of
/// the block starts a new block, and so an index record.
pub open spec fn starts_block(current: nat, entry_size: nat) -> bool {
    current == 0 || current + entry_size > BLOCK_SIZE
}

/// The index records and the block fill that writing `rs`, one after
/// another, to an empty segment leaves: a record starts a new block, and gets
/// an index record pointing at where it starts, when the block is empty or
/// would grow past `BLOCK_SIZE` with it.
pub open spec fn block_layout(rs: Seq<Record>) -> (Seq<IndexRecord>, nat)
    decreases rs.len(),
{
    if rs.len() == 0 {
        (Seq::empty(), 0)
    } else {
        let (ix, fill) = block_layout(rs.drop_last());
        let r = rs.last();
        let n = encoded_len(r);
        if starts_block(fill, n) {
            (ix.push(IndexRecord { key: r.key, offset: encode_all(rs.drop_last()).len() }), n)
        } else {
            (ix, fill + n)
        }
    }
}

/// A segment.
pub struct SSTable {
    data: Data,
    index: Index,
    current_block_size: usize,
    positions: Ghost<Seq<int>>,
}

impl SSTable {
    /// The records, in the order written.
    pub closed spec fn records(&self) -> Seq<Record> {
        self.data.records()
    }

    /// The index records, in the order written.
    pub closed spec fn index_records(&self) -> Seq<IndexRecord> {
        self.index.records()
    }

    /// The data bytes written since the last index record.
    pub closed spec fn block_fill(&self) -> nat {
        self.current_block_size as nat
    }

    /// The index and the block fill are those that writing the records in
    /// order to an empty segment leaves.
    pub open spec fn laid_out(&self) -> bool {
        (self.index_records(), self.block_fill()) == block_layout(self.records())
    }

    pub closed spec fn wf(&self) -> bool {
        &&& self.data.wf()
        &&& self.index.wf()
        &&& self.positions@.len() == self.index.records().len()
        &&& forall|i: int|
            0 <= i < self.positions@.len() ==> {
                let j = #[trigger] self.positions@[i];
                &&& 0 <= j < self.data.records().len()
                &&& self.index.records()[i].offset == offset_of(self.data.records(), j)
                &&& self.index.records()[i].key == self.data.records()[j].key
            }
    }

    /// A segment holds records in their stored form.
    pub proof fn lemma_normal(&self)
        requires
            self.wf(),
        ensures
            crate::codec::all_normal(self.records()),
    {
        self.data.lemma_wf();
    }

    /// An empty segment.
    pub fn new() -> (r: SSTable)
        ensures
            r.wf(),
            r.records() == Seq::<Record>::empty(),
            r.index_records() == Seq::<IndexRecord>::empty(),
            r.block_fill() == 0,
            r.laid_out(),
    {
        SSTable { data: Data::new(), index: Index::new(), current_block_size: 0, positions: Ghost(Seq::empty()) }
    }

    /// The segment whose data part is `data`, read up to where it ends or is
    /// cut short; its index is made anew.
    pub fn from_bytes(data: &[u8]) -> (r: SSTable)
        ensures
            r.wf(),
            r.laid_out(),
            r.records() == parse_all(data@),
    {
        let mut t = SSTable::new();
        let mut pos: usize = 0;
        proof {
            assert(data@.skip(0) =~= data@);
        }
        loop
            invariant
                t.wf(),
                t.laid_out(),
                pos <= data@.len(),
                t.records() + parse_all(data@.skip(pos as int)) == parse_all(data@),
            decreases data@.len() - pos,
        {
            proof {
                lemma_parse_all_step(data@, pos as int);
            }
            match decode_at(data, pos) {
                Some((e, next)) => {
                    proof {
                        lemma_parse_record_shape(data@.skip(pos as int));
                        assert(t.records().push(e@) + parse_all(data@.skip(next as int))
                            =~= t.records() + parse_all(data@.skip(pos as int)));
                    }
                    t.write(&e);
                    pos = next;
                },
                None => {
                    proof {
                        assert(t.records() + Seq::<Record>::empty() =~= t.records());
                    }
                    return t;
                },
            }
        }
    }

    /// The segment of data bytes `data` and index bytes `index`, where the
    /// index is the one that the records of `data` call for; nothing where it
    /// is not.
    pub fn open(data: &[u8], index: &[u8]) -> (r: Option<SSTable>)
        ensures
            match r {
                Some(t) => t.wf() && t.laid_out() && t.records() == parse_all(data@)
                    && index@ == encode_index_all(t.index_records()),
                None => index@ != encode_index_all(block_layout(parse_all(data@)).0),
            },
    {
        let t = SSTable::from_bytes(data);
        if crate::bytes::same_bytes(t.index_bytes(), index) {
            Some(t)
        } else {
            None
        }
    }

    /// Appends one record, in its stored form, and an index record for it
    /// where it starts a block.
    pub fn write(&mut self, entry: &Entry)
        requires
            old(self).wf(),
        ensures
            final(self).wf(),
            final(self).records() == old(self).records().push(normalized(entry@)),
            starts_block(old(self).block_fill(), encoded_len(entry@)) ==> final(self).index_records()
                == old(self).index_records().push(
                IndexRecord {
                    key: entry.key@,
                    offset: encode_all(old(self).records()).len(),
                },
            ) && final(self).block_fill() == encoded_len(entry@),
            !starts_block(old(self).block_fill(), encoded_len(entry@)) ==> final(self).index_records()
                == old(self).index_records() && final(self).block_fill() == old(self).block_fill()
                + encoded_len(entry@),
            old(self).laid_out() ==> final(self).laid_out(),
    {
        let ghost old_records = self.data.records();
        let offset = self.data.get_offset();
        self.data.write(entry);
        let after = self.data.get_offset();
        proof {
            lemma_encode_all_push(old_records, normalized(entry@));
            lemma_encoded_len(normalized(entry@));
            assert(encoded_len(normalized(entry@)) == encoded_len(entry@));
            assert(old_records.push(normalized(entry@)).take(old_records.len() as int)
                =~= old_records);
            assert forall|n: int| 0 <= n <= old_records.len() implies
                #[trigger] offset_of(self.data.records(), n) == offset_of(old_records, n) by {
                assert(self.data.records().take(n) =~= old_records.take(n));
            }
        }
        let entry_size = after - offset;
        let cur = self.current_block_size;
        if cur == 0 || cur > BLOCK_SIZE || entry_size > BLOCK_SIZE - cur {
            self.index.write(entry, offset);
            self.current_block_size = entry_size;
            proof {
                self.positions@ = self.positions@.push(old_records.len() as int);
            }
        } else {
            self.current_block_size = cur + entry_size;
        }
        proof {
            let rs = self.data.records();
            assert forall|i: int| 0 <= i < self.positions@.len() implies {
                let j = #[trigger] self.positions@[i];
                &&& 0 <= j < rs.len()
                &&& self.index.records()[i].offset == offset_of(rs, j)
                &&& self.index.records()[i].key == rs[j].key
            } by {
                let j = self.positions@[i];
                assert(offset_of(rs, j) == offset_of(old_records, j));
            }
        }
        proof {
            let rs = self.data.records();
            assert(rs.drop_last() =~= old_records);
            assert(rs.last() == normalized(entry@));
        }
    }

    /// Writes a live record.
    pub fn set(&mut self, key: &[u8], value: &[u8], timestamp: u128)
        requires
            old(self).wf(),
        ensures
            final(self).wf(),
            final(self).records() == old(self).records().push(
                Record { key: key@, value: Some(value@), timestamp, deleted: false },
            ),
            old(self).laid_out() ==> final(self).laid_out(),
    {
        let entry = Entry {
            key: crate::bytes::copy_bytes(key),
            value: Some(crate::bytes::copy_bytes(value)),
            timestamp,
            deleted: false,
        };
        self.write(&entry);
    }

    /// Writes a deletion marker.
    pub fn delete(&mut self, key: &[u8], timestamp: u128)
        requires
            old(self).wf(),
        ensures
            final(self).wf(),
            final(self).records() == old(self).records().push(
                Record { key: key@, value: None, timestamp, deleted: true },
            ),
            old(self).laid_out() ==> final(self).laid_out(),
    {
        let entry = Entry { key: crate::bytes::copy_bytes(key), value: None, timestamp, deleted: true };
        self.write(&entry);
    }

    /// The bytes of the data part.
    pub fn data_bytes(&self) -> (r: &[u8])
        requires
            self.wf(),
        ensures
            r@ == encode_all(self.records()),
    {
        self.data.as_bytes()
    }

    /// The bytes of the index part.
    pub fn index_bytes(&self) -> (r: &[u8])
        requires
            self.wf(),
        ensures
            r@ == encode_index_all(self.index_records()),
    {
        self.index.as_bytes()
    }

    /// Looks `key` up: the index gives the last block that can hold it, and
    /// the data is read from there. Where the records were written in
    /// ascending key order, this finds the record of `key` if there is one.
    pub fn get(&self, key: &[u8]) -> (r: Option<Entry>)
        requires
            self.wf(),
        ensures
            sorted(self.records()) ==> match r {
                Some(e) => find(self.records(), key@) == Some(e@),
                None => find(self.records(), key@) is None,
            },
            r matches Some(e) ==> e.key@ == key@,
    {
        let ghost rs = self.records();
        let ghost ix = self.index_records();
        let ibytes = self.index.as_bytes();
        let mut offset: usize = 0;
        let ghost mut start: int = 0;
        let mut ipos: usize = 0;
        let ghost mut i: int = 0;
        proof {
            self.index.lemma_wf();
            self.data.lemma_wf();
            lemma_decode_index_encoded(ix);
            assert(ibytes@.skip(0) =~= ibytes@);
            assert(rs.take(0) =~= Seq::<Record>::empty());
        }
        loop
            invariant
                self.wf(),
                rs == self.records(),
                ix == self.index_records(),
                ibytes@ == encode_index_all(ix),
                ipos <= ibytes@.len(),
                0 <= i <= ix.len(),
                parse_index_all(ibytes@.skip(ipos as int)) == ix.skip(i),
                0 <= start <= rs.len(),
                offset == offset_of(rs, start),
                sorted(rs) ==> forall|p: int|
                    0 <= p < rs.len() && #[trigger] rs[p].key == key@ ==> start <= p,
            decreases ibytes@.len() - ipos,
        {
            match Index::read(ibytes, ipos) {
                None => {
                    break;
                },
                Some((e, next)) => {
                    proof {
                        assert(ix.skip(i).len() > 0);
                        assert(ix.skip(i)[0] == e@);
                        assert(ix[i] == e@);
                        assert(ix.skip(i).drop_first() =~= ix.skip(i + 1));
                        assert((seq![e@] + parse_index_all(ibytes@.skip(next as int))).drop_first()
                            =~= parse_index_all(ibytes@.skip(next as int)));
                    }
                    let c = compare_keys(key, e.key.as_slice());
                    match c {
                        Ordering::Less => {
                            break;
                        },
                        _ => {
                            proof {
                                let j = self.positions@[i];
                                assert(0 <= j < rs.len());
                                if sorted(rs) {
                                    assert forall|p: int|
                                        0 <= p < rs.len() && #[trigger] rs[p].key == key@ implies j
                                        <= p by {
                                        if p < j {
                                            assert(key_lt(rs[p].key, rs[j].key));
                                            lemma_key_lt_total(key@, e.key@);
                                        }
                                    }
                                }
                                start = j;
                            }
                            offset = e.offset;
                            ipos = next;
                            proof {
                                i = i + 1;
                            }
                            if let Ordering::Equal = c {
                                break;
                            }
                        },
                    }
                },
            }
        }
        proof {
            lemma_encode_all_split(rs, start);
        }
        let r = scan_from(self.data.as_bytes(), offset, key, Ghost(rs), Ghost(start));
        proof {
            if sorted(rs) {
                assert forall|q: int| 0 <= q < start implies (#[trigger] rs[q]).key != key@ by {}
                lemma_find_skip(rs, start, key@);
            }
            lemma_find_key(rs.skip(start), key@);
        }
        r
    }

    /// Whether the keys of the records strictly ascend, as lookups need.
    pub fn is_sorted(&self) -> (r: bool)
        requires
            self.wf(),
        ensures
            r == sorted(self.records()),
    {
        let ghost rs = self.records();
        let bytes = self.data.as_bytes();
        proof {
            self.data.lemma_wf();
            lemma_decode_encoded(rs);
            assert(bytes@.skip(0) =~= bytes@);
        }
        let mut pos: usize = 0;
        let ghost mut k: int = 0;
        let mut prev: Option<Entry> = None;
        loop
            invariant
                rs == self.records(),
                pos <= bytes@.len(),
                0 <= k <= rs.len(),
                parse_all(bytes@.skip(pos as int)) == rs.skip(k),
                sorted(rs.take(k)),
                k == 0 <==> prev is None,
                prev matches Some(p) ==> p@.key == rs[k - 1].key,
            decreases bytes@.len() - pos,
        {
            proof {
                lemma_parse_all_step(bytes@, pos as int);
            }
            match decode_at(bytes, pos) {
                None => {
                    proof {
                        assert(rs.skip(k).len() == 0);
                        assert(rs.take(k) =~= rs);
                    }
                    return true;
                },
                Some((e, next)) => {
                    proof {
                        assert(rs.skip(k).len() > 0);
                        assert(rs.skip(k)[0] == e@);
                        assert(rs.skip(k).drop_first() =~= rs.skip(k + 1));
                        assert(rs[k] == e@);
                    }
                    if let Some(p) = &prev {
                        match compare_keys(p.key.as_slice(), e.key.as_slice()) {
                            Ordering::Less => {},
                            _ => {
                                proof {
                                    lemma_key_lt_total(rs[k - 1].key, rs[k].key);
                                    assert(!key_lt(rs[k - 1].key, rs[k].key));
                                }
                                return false;
                            },
                        }
                    }
                    proof {
                        let t = rs.take(k + 1);
                        assert forall|a: int, b: int| 0 <= a < b < t.len() implies key_lt(
                            #[trigger] t[a].key,
                            #[trigger] t[b].key,
                        ) by {
                            assert(t[a] == rs[a] && t[b] == rs[b]);
                            if b == k && a < k - 1 {
                                assert(rs.take(k)[a] == rs[a] && rs.take(k)[k - 1] == rs[k - 1]);
                                lemma_key_lt_transitive(rs[a].key, rs[k - 1].key, rs[k].key);
                            } else if b < k {
                                assert(rs.take(k)[a] == rs[a] && rs.take(k)[b] == rs[b]);
                            }
                        }
                    }
                    prev = Some(e);
                    pos = next;
                    proof {
                        k = k + 1;
                    }
                },
            }
        }
    }

    /// Hands the records out in the order written.
    pub fn into_iter(self) -> (r: SSTableIterator)
        requires
            self.wf(),
        ensures
            r.wf(),
            r.rest() == self.records(),
    {
        proof {
            self.data.lemma_wf();
            lemma_decode_encoded(self.data.records());
        }
        let bytes = crate::bytes::copy_bytes(self.data.as_bytes());
        SSTableIterator { inner: DataIterator::new(bytes) }
    }
}

/// The keys before `j` are not `k`: a lookup from `j` on finds what one from
/// the start finds.
pub proof fn lemma_find_skip(rs: Seq<Record>, j: int, k: Seq<u8>)
    requires
        0 <= j <= rs.len(),
        forall|q: int| 0 <= q < j ==> (#[trigger] rs[q]).key != k,
    ensures
        find(rs, k) == find(rs.skip(j), k),
    decreases j,
{
    if j == 0 {
        assert(rs.skip(0) =~= rs);
    } else {
        let t = rs.drop_first();
        assert forall|q: int| 0 <= q < j - 1 implies (#[trigger] t[q]).key != k by {
            assert(t[q] == rs[q + 1]);
        }
        lemma_find_skip(t, j - 1, k);
        assert(t.skip(j - 1) =~= rs.skip(j));
    }
}

/// A record that a lookup finds has the key looked up.
pub proof fn lemma_find_key(rs: Seq<Record>, k: Seq<u8>)
    ensures
        find(rs, k) matches Some(r) ==> r.key == k,
    decreases rs.len(),
{
    if rs.len() > 0 {
        lemma_find_key(rs.drop_first(), k);
    }
}

/// Hands out the records of a segment in the order written.
pub struct SSTableIterator {
    inner: DataIterator,
}

impl SSTableIterator {
    /// What is left.
    pub closed spec fn rest(&self) -> Seq<Record> {
        self.inner.rest()
    }

    pub closed spec fn wf(&self) -> bool {
        self.inner.wf()
    }

    /// Reads the records of the data bytes `bytes`.
    pub fn new(bytes: Vec<u8>) -> (r: SSTableIterator)
        ensures
            r.wf(),
            r.rest() == parse_all(bytes@),
    {
        SSTableIterator { inner: DataIterator::new(bytes) }
    }

    /// The next record, or nothing at the end.
    pub fn next(&mut self) -> (r: Option<SSTableEntry>)
        requires
            old(self).wf(),
        ensures
            final(self).wf(),
            match r {
                Some(e) => old(self).rest().len() > 0 && e@ == old(self).rest()[0]
                    && final(self).rest() == old(self).rest().drop_first(),
                None => old(self).rest().len() == 0 && final(self).rest() == old(self).rest(),
            },
    {
        match self.inner.next() {
            Some(e) => Some(
                SSTableEntry { key: e.key, value: e.value, timestamp: e.timestamp, deleted: e.deleted },
            ),
            None => None,
        }
    }
}

} // verus!
