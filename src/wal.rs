//! The write-ahead log: every write, encoded as a data record, kept until
//! it is handed out to be made durable; and recovery from logs.
use crate::codec::{
    all_encodable, all_normal, encode_all, encode_into, encode_record, encoded_len, lemma_encode_all_push,
    lemma_encoded_len, lemma_exec_encodable, parse_all,
};
use crate::data::DataIterator;
use crate::entry::{normalized, Record};
use crate::memtable::{
    lemma_position_exists, lemma_put_at, lemma_total_insert, lemma_total_update,
    live_record, put, put_all, resident_size, sorted, tombstone, total_size, MemTable,
};
use vstd::prelude::*;

verus! {

/// The records of the logs, one log after another, each read up to where it
/// ends or is cut short.
pub open spec fn replayed(logs: Seq<Seq<u8>>) -> Seq<Record>
    decreases logs.len(),
{
    if logs.len() == 0 {
        Seq::empty()
    } else {
        replayed(logs.drop_last()) + parse_all(logs.last())
    }
}

pub open spec fn logs_view(logs: Seq<Vec<u8>>) -> Seq<Seq<u8>> {
    logs.map_values(|l: Vec<u8>| l@)
}

/// A log.
pub struct WAL {
    buffer: Vec<u8>,
    written: Ghost<Seq<u8>>,
    records: Ghost<Seq<Record>>,
    empty: bool,
}

impl WAL {
    /// The records logged, in order.
    pub closed spec fn records(&self) -> Seq<Record> {
        self.records@
    }

    /// The bytes already handed out.
    pub closed spec fn written(&self) -> Seq<u8> {
        self.written@
    }

    /// The bytes not yet handed out.
    pub closed spec fn pending(&self) -> Seq<u8> {
        self.buffer@
    }

    pub closed spec fn wf(&self) -> bool {
        &&& self.written@ + self.buffer@ == encode_all(self.records@)
        &&& all_encodable(self.records@)
        &&& all_normal(self.records@)
        &&& self.empty == (self.records@.len() == 0)
    }

    /// An empty log.
    pub fn new() -> (r: WAL)
        ensures
            r.wf(),
            r.records() == Seq::<Record>::empty(),
            r.written() == Seq::<u8>::empty(),
            r.pending() == Seq::<u8>::empty(),
    {
        let r = WAL { buffer: Vec::new(), written: Ghost(Seq::empty()), records: Ghost(Seq::empty()), empty: true };
        proof {
            assert(r.written@ + r.buffer@ =~= Seq::<u8>::empty());
        }
        r
    }

    /// Whether nothing was logged.
    pub fn is_empty(&self) -> (r: bool)
        requires
            self.wf(),
        ensures
            r == (self.records().len() == 0),
    {
        self.empty
    }

    fn append(&mut self, key: &[u8], value: &Option<Vec<u8>>, timestamp: u128, deleted: bool)
        requires
            old(self).wf(),
            value is Some <==> !deleted,
        ensures
            final(self).wf(),
            final(self).records() == old(self).records().push(
                Record { key: key@, value: crate::entry::opt_bytes(*value), timestamp, deleted },
            ),
            final(self).written() == old(self).written(),
            final(self).pending().len() == old(self).pending().len() + encoded_len(
                Record { key: key@, value: crate::entry::opt_bytes(*value), timestamp, deleted },
            ),
            final(self).pending() == old(self).pending() + encode_record(
                Record { key: key@, value: crate::entry::opt_bytes(*value), timestamp, deleted },
            ),
    {
        let ghost r = Record { key: key@, value: crate::entry::opt_bytes(*value), timestamp, deleted };
        encode_into(&mut self.buffer, key, value, timestamp, deleted);
        self.empty = false;
        proof {
            assert(normalized(r) == r);
            lemma_encode_all_push(self.records@, r);
            let old_records = self.records@;
            self.records@ = self.records@.push(r);
            lemma_encoded_len(r);
            assert(key@.len() == key.len());
            if let Some(v) = value {
                assert(v@.len() == v.len());
            }
            lemma_exec_encodable(r);
            assert forall|i: int| 0 <= i < self.records@.len() implies encodable_normal(
                #[trigger] self.records@[i],
            ) by {
                if i < old_records.len() {
                    assert(self.records@[i] == old_records[i]);
                }
            }
            assert(self.written@ + self.buffer@ =~= encode_all(self.records@));
        }
    }

    /// Logs a write of `value` for `key`.
    pub fn set(&mut self, key: &[u8], value: &[u8], timestamp: u128)
        requires
            old(self).wf(),
        ensures
            final(self).wf(),
            final(self).records() == old(self).records().push(live_record(key@, value@, timestamp)),
            final(self).written() == old(self).written(),
            final(self).pending() == old(self).pending() + encode_record(
                live_record(key@, value@, timestamp),
            ),
            final(self).pending().len() == old(self).pending().len() + encoded_len(
                live_record(key@, value@, timestamp),
            ),
    {
        let v = Some(crate::bytes::copy_bytes(value));
        self.append(key, &v, timestamp, false);
    }

    /// Logs a deletion of `key`.
    pub fn delete(&mut self, key: &[u8], timestamp: u128)
        requires
            old(self).wf(),
        ensures
            final(self).wf(),
            final(self).records() == old(self).records().push(tombstone(key@, timestamp)),
            final(self).written() == old(self).written(),
            final(self).pending() == old(self).pending() + encode_record(tombstone(key@, timestamp)),
            final(self).pending().len() == old(self).pending().len() + encoded_len(
                tombstone(key@, timestamp),
            ),
    {
        self.append(key, &None, timestamp, true);
    }

    /// Hands out the bytes logged since the last call, to be made durable.
    pub fn flush(&mut self) -> (r: Vec<u8>)
        requires
            old(self).wf(),
        ensures
            final(self).wf(),
            r@ == old(self).pending(),
            final(self).records() == old(self).records(),
            final(self).written() == old(self).written() + r@,
            final(self).pending() == Seq::<u8>::empty(),
    {
        let r = self.buffer.split_off(0);
        proof {
            assert(r@ =~= old(self).buffer@);
            self.written@ = self.written@ + r@;
            assert(self.written@ + self.buffer@ =~= self.written@);
        }
        r
    }

    /// Rebuilds a buffer and a log from the logs left behind, taken in
    /// order: every record of each, up to where it ends or is cut short, is
    /// applied to a fresh buffer and written to a fresh log.
    pub fn replay(logs: &Vec<Vec<u8>>) -> (r: (WAL, MemTable))
        ensures
            r.0.wf(),
            r.1.wf(),
            r.0.records() == replayed(logs_view(logs@)),
            r.0.written() == Seq::<u8>::empty(),
            r.1@ == put_all(Seq::empty(), replayed(logs_view(logs@))),
    {
        let mut wal = WAL::new();
        let mut mem = MemTable::new();
        let mut i: usize = 0;
        proof {
            assert(logs_view(logs@).take(0) =~= Seq::<Seq<u8>>::empty());
        }
        while i < logs.len()
            invariant
                i <= logs@.len(),
                wal.wf(),
                mem.wf(),
                wal.written() == Seq::<u8>::empty(),
                wal.records() == replayed(logs_view(logs@).take(i as int)),
                mem@ == put_all(Seq::empty(), wal.records()),
                total_size(mem@) <= wal.pending().len(),
            decreases logs@.len() - i,
        {
            let log = &logs[i];
            let mut it = DataIterator::new(crate::bytes::copy_bytes(log.as_slice()));
            let ghost start = wal.records();
            loop
                invariant
                    it.wf(),
                    wal.wf(),
                    mem.wf(),
                    wal.written() == Seq::<u8>::empty(),
                    wal.records() + it.rest() == start + parse_all(log@),
                    mem@ == put_all(Seq::empty(), wal.records()),
                    total_size(mem@) <= wal.pending().len(),
                ensures
                    wal.wf(),
                    mem.wf(),
                    wal.written() == Seq::<u8>::empty(),
                    wal.records() == start + parse_all(log@),
                    mem@ == put_all(Seq::empty(), wal.records()),
                    total_size(mem@) <= wal.pending().len(),
                decreases it.rest().len(),
            {
                let ghost rest = it.rest();
                match it.next() {
                    None => {
                        proof {
                            assert(wal.records() + Seq::<Record>::empty() =~= wal.records());
                        }
                        break;
                    },
                    Some(e) => {
                        proof {
                            mem.lemma_sorted();
                            assert(wal.records().push(e@) + it.rest() =~= wal.records() + rest);
                        }
                        let ghost before_mem = mem@;
                        let ghost before_rs = wal.records();
                        if e.deleted {
                            wal.delete(e.key.as_slice(), e.timestamp);
                            proof {
                                assert(tombstone(e.key@, e.timestamp) == e@);
                                lemma_total_put_bound(before_mem, e@);
                                lemma_encoded_len(e@);
                                assert(wal.pending().len() == wal.buffer.len());
                            }
                            mem.delete(e.key.as_slice(), e.timestamp);
                        } else {
                            let value = match &e.value {
                                Some(v) => v.as_slice(),
                                None => &[],
                            };
                            proof {
                                assert(e.value is Some);
                            }
                            wal.set(e.key.as_slice(), value, e.timestamp);
                            proof {
                                assert(live_record(e.key@, value@, e.timestamp) == e@);
                                lemma_total_put_bound(before_mem, e@);
                                lemma_encoded_len(e@);
                                assert(wal.pending().len() == wal.buffer.len());
                            }
                            mem.set(e.key.as_slice(), value, e.timestamp);
                        }
                        proof {
                            let rs = wal.records();
                            assert(rs.drop_last() =~= before_rs);
                            assert(rs.last() == e@);
                        }
                    },
                }
            }
            proof {
                let lv = logs_view(logs@);
                assert(lv.take(i + 1).drop_last() =~= lv.take(i as int));
                assert(lv.take(i + 1).last() == log@);
            }
            i = i + 1;
        }
        proof {
            assert(logs_view(logs@).take(i as int) =~= logs_view(logs@));
        }
        (wal, mem)
    }
}

pub open spec fn encodable_normal(r: Record) -> bool {
    crate::codec::encodable(r) && normalized(r) == r
}

/// Writing a record grows the size estimate by at most the record's own
/// share, which is below the length of its bytes.
proof fn lemma_total_put_bound(s: Seq<Record>, r: Record)
    requires
        sorted(s),
        normalized(r) == r,
    ensures
        total_size(put(s, r)) <= total_size(s) + resident_size(r),
        resident_size(r) <= encoded_len(r),
{
    let i = lemma_position_exists(s, r.key);
    lemma_put_at(s, r, i);
    if i < s.len() && s[i].key == r.key {
        lemma_total_update(s, i, r);
    } else {
        lemma_total_insert(s, i, r);
    }
}

/// Recovering from the bytes of a log gives back the records logged, so the
/// buffer rebuilt from them is the one that applying those writes directly
/// gives.
pub proof fn lemma_recovery_replays(ops: Seq<Record>)
    requires
        all_encodable(ops),
        all_normal(ops),
    ensures
        replayed(seq![encode_all(ops)]) == ops,
        put_all(Seq::empty(), replayed(seq![encode_all(ops)])) == put_all(Seq::empty(), ops),
{
    let logs = seq![encode_all(ops)];
    assert(logs.len() == 1);
    assert(logs.drop_last() =~= Seq::<Seq<u8>>::empty());
    assert(replayed(logs.drop_last()) == Seq::<Record>::empty());
    assert(logs.last() == encode_all(ops));
    crate::codec::lemma_decode_encoded(ops);
    assert(replayed(logs) == Seq::<Record>::empty() + parse_all(encode_all(ops)));
    assert(Seq::<Record>::empty() + ops =~= ops);
}

/// Everything a log took in, read back from the bytes it handed out and
/// the bytes it still holds, rebuilds the buffer that those writes built.
pub proof fn lemma_log_recovers(w: WAL)
    requires
        w.wf(),
    ensures
        put_all(Seq::empty(), replayed(seq![w.written() + w.pending()])) == put_all(
            Seq::empty(),
            w.records(),
        ),
{
    w.lemma_wf();
    lemma_recovery_replays(w.records());
}

impl WAL {
    /// The bytes of a well-formed log, handed out or not, are its records
    /// encoded one after another.
    pub proof fn lemma_wf(&self)
        requires
            self.wf(),
        ensures
            self.written() + self.pending() == encode_all(self.records()),
            all_encodable(self.records()),
            all_normal(self.records()),
    {
    }
}

} // verus!
