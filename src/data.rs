//! The data part of a segment: its records, encoded one after another.
use crate::bytes::same_bytes;
use crate::codec::{
    all_encodable, all_normal, decode_at, encode_all, encode_into, encode_record, lemma_encode_all_push, lemma_encoded_len, lemma_exec_encodable,
    lemma_parse_all_step, lemma_parse_from_offset, lemma_parse_record_shape, parse_all,
    };
use crate::entry::{normalized, Entry, Record};
use crate::memtable::find;
use vstd::prelude::*;

verus! {

/// The records of a segment and their bytes.
pub struct Data {
    bytes: Vec<u8>,
    records: Ghost<Seq<Record>>,
}

/// Reads records one after another from bytes, until the bytes end or are
/// cut short.
pub struct DataIterator {
    bytes: Vec<u8>,
    pos: usize,
}

impl DataIterator {
    /// What is left to read.
    pub closed spec fn rest(&self) -> Seq<Record> {
        parse_all(self.bytes@.skip(self.pos as int))
    }

    pub closed spec fn wf(&self) -> bool {
        self.pos <= self.bytes@.len()
    }

    /// Reads `bytes` from the start.
    pub fn new(bytes: Vec<u8>) -> (r: DataIterator)
        ensures
            r.wf(),
            r.rest() == parse_all(bytes@),
    {
        let r = DataIterator { bytes, pos: 0 };
        proof {
            assert(r.bytes@.skip(0) =~= r.bytes@);
        }
        r
    }

    /// The next record, or nothing at the end.
    pub fn next(&mut self) -> (r: Option<Entry>)
        requires
            old(self).wf(),
        ensures
            final(self).wf(),
            r matches Some(e) ==> normalized(e@) == e@,
            match r {
                Some(e) => old(self).rest().len() > 0 && e@ == old(self).rest()[0]
                    && final(self).rest() == old(self).rest().drop_first(),
                None => old(self).rest().len() == 0 && final(self).rest() == old(self).rest(),
            },
    {
        proof {
            lemma_parse_all_step(self.bytes@, self.pos as int);
        }
        match decode_at(self.bytes.as_slice(), self.pos) {
            Some((e, next)) => {
                self.pos = next;
                proof {
                    lemma_parse_record_shape(old(self).bytes@.skip(old(self).pos as int));
                    assert((seq![e@] + self.rest()).drop_first() =~= self.rest());
                }
                Some(e)
            },
            None => None,
        }
    }
}

impl Data {
    /// The records held, in the order written.
    pub closed spec fn records(&self) -> Seq<Record> {
        self.records@
    }

    pub closed spec fn wf(&self) -> bool {
        &&& self.bytes@ == encode_all(self.records@)
        &&& all_encodable(self.records@)
        &&& all_normal(self.records@)
    }

    /// The records of a well-formed data part are stored forms whose lengths
    /// fit their fields.
    pub proof fn lemma_wf(&self)
        requires
            self.wf(),
        ensures
            all_encodable(self.records()),
            all_normal(self.records()),
    {
    }

    /// No records.
    pub fn new() -> (r: Data)
        ensures
            r.wf(),
            r.records() == Seq::<Record>::empty(),
    {
        Data { bytes: Vec::new(), records: Ghost(Seq::empty()) }
    }

    /// The records that `bytes` holds up to where they end or are cut short.
    pub fn from_bytes(bytes: &[u8]) -> (r: Data)
        ensures
            r.wf(),
            r.records() == parse_all(bytes@),
    {
        let mut d = Data::new();
        let mut pos: usize = 0;
        proof {
            assert(bytes@.skip(0) =~= bytes@);
        }
        loop
            invariant
                d.wf(),
                pos <= bytes@.len(),
                d.records() + parse_all(bytes@.skip(pos as int)) == parse_all(bytes@),
            decreases bytes@.len() - pos,
        {
            proof {
                lemma_parse_all_step(bytes@, pos as int);
            }
            match decode_at(bytes, pos) {
                Some((e, next)) => {
                    proof {
                        lemma_parse_record_shape(bytes@.skip(pos as int));
                        assert(d.records().push(e@) + parse_all(bytes@.skip(next as int))
                            =~= d.records() + parse_all(bytes@.skip(pos as int)));
                    }
                    d.write(&e);
                    pos = next;
                },
                None => {
                    proof {
                        assert(d.records() + Seq::<Record>::empty() =~= d.records());
                    }
                    return d;
                },
            }
        }
    }

    /// Appends one record, in its stored form.
    pub fn write(&mut self, entry: &Entry)
        requires
            old(self).wf(),
        ensures
            final(self).wf(),
            final(self).records() == old(self).records().push(normalized(entry@)),
    {
        encode_into(&mut self.bytes, entry.key.as_slice(), &entry.value, entry.timestamp, entry.deleted);
        let ghost r = entry@;
        proof {
            assert(encode_record(r) == encode_record(normalized(r)));
            lemma_encode_all_push(self.records@, normalized(r));
            self.records@ = self.records@.push(normalized(r));
            let _ = self.bytes.len();
            lemma_encoded_len(r);
            lemma_exec_encodable(normalized(r));
            assert forall|i: int| 0 <= i < self.records@.len() implies
                #[trigger] normalized(self.records@[i]) == self.records@[i] by {}
        }
    }

    /// Where the next record will start: the length of the bytes.
    pub fn get_offset(&self) -> (r: usize)
        requires
            self.wf(),
        ensures
            r == encode_all(self.records()).len(),
    {
        self.bytes.len()
    }

    /// The bytes of the records.
    pub fn as_bytes(&self) -> (r: &[u8])
        requires
            self.wf(),
        ensures
            r@ == encode_all(self.records()),
    {
        self.bytes.as_slice()
    }

    /// The first record with `key`, read from the start.
    pub fn get(&self, key: &[u8]) -> (r: Option<Entry>)
        requires
            self.wf(),
        ensures
            match r {
                Some(e) => find(self.records(), key@) == Some(e@),
                None => find(self.records(), key@) is None,
            },
    {
        proof {
            assert(self.records@.take(0) =~= Seq::<Record>::empty());
            assert(self.records@.skip(0) =~= self.records@);
        }
        scan_from(self.bytes.as_slice(), 0, key, Ghost(self.records@), Ghost(0))
    }
}

/// Reads records from the start of record `j` until one with `key`.
pub fn scan_from(s: &[u8], pos: usize, key: &[u8], rs: Ghost<Seq<Record>>, j: Ghost<int>) -> (r:
    Option<Entry>)
    requires
        s@ == encode_all(rs@),
        all_encodable(rs@),
        all_normal(rs@),
        0 <= j@ <= rs@.len(),
        pos == crate::codec::offset_of(rs@, j@),
    ensures
        match r {
            Some(e) => find(rs@.skip(j@), key@) == Some(e@),
            None => find(rs@.skip(j@), key@) is None,
        },
{
    proof {
        lemma_parse_from_offset(rs@, j@);
    }
    let mut p: usize = pos;
    let ghost mut k: int = j@;
    loop
        invariant
            p <= s@.len(),
            0 <= j@ <= k <= rs@.len(),
            parse_all(s@.skip(p as int)) == rs@.skip(k),
            find(rs@.skip(j@), key@) == find(rs@.skip(k), key@),
        decreases s@.len() - p,
    {
        proof {
            lemma_parse_all_step(s@, p as int);
        }
        match decode_at(s, p) {
            Some((e, next)) => {
                proof {
                    let rest = parse_all(s@.skip(next as int));
                    assert((seq![e@] + rest).len() > 0);
                    assert(k < rs@.len());
                    assert(rs@.skip(k)[0] == e@);
                    assert((seq![e@] + rest).drop_first() =~= rest);
                    assert(rs@.skip(k).drop_first() =~= rs@.skip(k + 1));
                }
                if same_bytes(e.key.as_slice(), key) {
                    return Some(e);
                }
                p = next;
                proof {
                    k = k + 1;
                }
            },
            None => {
                return None;
            },
        }
    }
}

} // verus!
