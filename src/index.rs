//! The sparse index of a segment: keys of some records and where those
//! records start in the data part.
use crate::bytes::{copy_bytes, same_bytes};
use crate::codec::{
    decode_index_at, encode_index_all, encode_index_into, index_encodable,
    lemma_encode_index_all_push, lemma_parse_index_all_step, lemma_radix_values,
    parse_index_all, parse_index_record, IndexRecord,
};
use crate::entry::Entry;
use vstd::prelude::*;

verus! {

/// One index record as it is read back.
pub struct IndexEntry {
    pub key: Vec<u8>,
    pub offset: usize,
}

impl View for IndexEntry {
    type V = IndexRecord;

    open spec fn view(&self) -> IndexRecord {
        IndexRecord { key: self.key@, offset: self.offset as nat }
    }
}

/// The offset of the first index record with key `k`.
pub open spec fn find_offset(ix: Seq<IndexRecord>, k: Seq<u8>) -> Option<nat>
    decreases ix.len(),
{
    if ix.len() == 0 {
        None
    } else if ix[0].key == k {
        Some(ix[0].offset)
    } else {
        find_offset(ix.drop_first(), k)
    }
}

/// The index records and their bytes.
pub struct Index {
    bytes: Vec<u8>,
    records: Ghost<Seq<IndexRecord>>,
}

/// Reads index records one after another from bytes.
pub struct IndexIterator {
    bytes: Vec<u8>,
    pos: usize,
}

impl IndexIterator {
    /// What is left to read.
    pub closed spec fn rest(&self) -> Seq<IndexRecord> {
        parse_index_all(self.bytes@.skip(self.pos as int))
    }

    pub closed spec fn wf(&self) -> bool {
        self.pos <= self.bytes@.len()
    }

    /// Reads `bytes` from the start.
    pub fn new(bytes: Vec<u8>) -> (r: IndexIterator)
        ensures
            r.wf(),
            r.rest() == parse_index_all(bytes@),
    {
        let r = IndexIterator { bytes, pos: 0 };
        proof {
            assert(r.bytes@.skip(0) =~= r.bytes@);
        }
        r
    }

    /// The next index record, or nothing at the end.
    pub fn next(&mut self) -> (r: Option<IndexEntry>)
        requires
            old(self).wf(),
        ensures
            final(self).wf(),
            match r {
                Some(e) => old(self).rest().len() > 0 && e@ == old(self).rest()[0]
                    && final(self).rest() == old(self).rest().drop_first(),
                None => old(self).rest().len() == 0 && final(self).rest() == old(self).rest(),
            },
    {
        match Index::read(self.bytes.as_slice(), self.pos) {
            Some((e, next)) => {
                self.pos = next;
                proof {
                    assert((seq![e@] + self.rest()).drop_first() =~= self.rest());
                }
                Some(e)
            },
            None => None,
        }
    }
}

impl Index {
    /// The index records held, in the order written.
    pub closed spec fn records(&self) -> Seq<IndexRecord> {
        self.records@
    }

    pub closed spec fn wf(&self) -> bool {
        &&& self.bytes@ == encode_index_all(self.records@)
        &&& forall|i: int|
            0 <= i < self.records@.len() ==> index_encodable(#[trigger] self.records@[i])
    }

    /// The records of a well-formed index fit their fields.
    pub proof fn lemma_wf(&self)
        requires
            self.wf(),
        ensures
            forall|i: int|
                0 <= i < self.records().len() ==> index_encodable(#[trigger] self.records()[i]),
    {
    }

    /// No index records.
    pub fn new() -> (r: Index)
        ensures
            r.wf(),
            r.records() == Seq::<IndexRecord>::empty(),
    {
        Index { bytes: Vec::new(), records: Ghost(Seq::empty()) }
    }

    /// Appends a record that points at `offset` for the key of `entry`.
    pub fn write(&mut self, entry: &Entry, offset: usize)
        requires
            old(self).wf(),
        ensures
            final(self).wf(),
            final(self).records() == old(self).records().push(
                IndexRecord { key: entry.key@, offset: offset as nat },
            ),
    {
        encode_index_into(&mut self.bytes, entry.key.as_slice(), offset);
        proof {
            let ir = IndexRecord { key: entry.key@, offset: offset as nat };
            lemma_encode_index_all_push(self.records@, ir);
            let old_records = self.records@;
            self.records@ = self.records@.push(ir);
            lemma_radix_values();
            assert(entry.key@.len() == entry.key.len());
            assert(index_encodable(ir));
            assert forall|i: int| 0 <= i < self.records@.len() implies index_encodable(
                #[trigger] self.records@[i],
            ) by {
                if i < old_records.len() {
                    assert(self.records@[i] == old_records[i]);
                }
            }
        }
    }

    /// Reads the index record at `pos` and where the next one starts.
    pub fn read(bytes: &[u8], pos: usize) -> (r: Option<(IndexEntry, usize)>)
        requires
            pos <= bytes@.len(),
        ensures
            match r {
                Some((e, next)) => pos < next <= bytes@.len() && parse_index_record(
                    bytes@.skip(pos as int),
                ) == Some((e@, (next - pos) as nat)) && next - pos == 16 + e.key@.len()
                    && parse_index_all(bytes@.skip(pos as int)) == seq![e@] + parse_index_all(
                    bytes@.skip(next as int),
                ),
                None => parse_index_record(bytes@.skip(pos as int)) is None && parse_index_all(
                    bytes@.skip(pos as int),
                ) == Seq::<IndexRecord>::empty(),
            },
    {
        proof {
            lemma_parse_index_all_step(bytes@, pos as int);
        }
        match decode_index_at(bytes, pos) {
            Some((key, offset, next)) => Some((IndexEntry { key, offset }, next)),
            None => None,
        }
    }

    /// The bytes of the index records.
    pub fn as_bytes(&self) -> (r: &[u8])
        requires
            self.wf(),
        ensures
            r@ == encode_index_all(self.records()),
    {
        self.bytes.as_slice()
    }

    /// The offset of the first index record with `key`.
    pub fn get(&self, key: &[u8]) -> (r: Option<usize>)
        requires
            self.wf(),
        ensures
            match r {
                Some(o) => find_offset(self.records(), key@) == Some(o as nat),
                None => find_offset(self.records(), key@) is None,
            },
    {
        let mut it = IndexIterator::new(copy_bytes(self.bytes.as_slice()));
        proof {
            crate::codec::lemma_decode_index_encoded(self.records@);
        }
        loop
            invariant
                it.wf(),
                find_offset(self.records(), key@) == find_offset(it.rest(), key@),
            decreases it.rest().len(),
        {
            match it.next() {
                Some(e) => {
                    if same_bytes(e.key.as_slice(), key) {
                        return Some(e.offset);
                    }
                },
                None => {
                    return None;
                },
            }
        }
    }
}

} // verus!
