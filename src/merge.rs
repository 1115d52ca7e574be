//! Compaction: two segments merged into one, where the newer record of a key
//! wins and a winning deletion marker takes the key out.
use crate::bytes::{compare_keys, key_lt, lemma_key_lt_irreflexive, lemma_key_lt_total, lemma_key_lt_transitive};
use crate::codec::all_normal;
use crate::entry::{normalized, Record};
use crate::memtable::{find, sorted};
use crate::sstable::{SSTable, SSTableEntry};
use core::cmp::Ordering;
use vstd::prelude::*;

verus! {

/// Why a merge was abandoned.
#[derive(Debug, PartialEq, Eq)]
pub enum MergeError {
    /// Both segments hold the key with the same timestamp: which write is
    /// newer cannot be told.
    EqualTimestamps,
}

/// The records that merging `a` and `b` writes, walking both from the front;
/// nothing where the walk meets one key with one timestamp in both.
pub open spec fn merged(a: Seq<Record>, b: Seq<Record>) -> Option<Seq<Record>>
    decreases a.len() + b.len(),
{
    if a.len() == 0 {
        Some(b)
    } else if b.len() == 0 {
        Some(a)
    } else if key_lt(a[0].key, b[0].key) {
        prepend(seq![a[0]], merged(a.drop_first(), b))
    } else if key_lt(b[0].key, a[0].key) {
        prepend(seq![b[0]], merged(a, b.drop_first()))
    } else if a[0].timestamp == b[0].timestamp {
        None
    } else {
        let w = if a[0].timestamp > b[0].timestamp {
            a[0]
        } else {
            b[0]
        };
        prepend(
            if w.deleted {
                Seq::empty()
            } else {
                seq![w]
            },
            merged(a.drop_first(), b.drop_first()),
        )
    }
}

pub open spec fn prepend(done: Seq<Record>, rest: Option<Seq<Record>>) -> Option<Seq<Record>> {
    match rest {
        Some(t) => Some(done + t),
        None => None,
    }
}

/// What a lookup in the merged segment finds, given what lookups in the two
/// inputs find: the record with the greater timestamp, unless it is a
/// deletion marker.
pub open spec fn resolve(x: Option<Record>, y: Option<Record>) -> Option<Record> {
    match (x, y) {
        (None, y) => y,
        (x, None) => x,
        (Some(p), Some(q)) => {
            let w = if p.timestamp > q.timestamp {
                p
            } else {
                q
            };
            if w.deleted {
                None
            } else {
                Some(w)
            }
        },
    }
}

/// No key is in both with the same timestamp.
pub open spec fn no_tie(a: Seq<Record>, b: Seq<Record>) -> bool {
    forall|i: int, j: int|
        0 <= i < a.len() && 0 <= j < b.len() && #[trigger] a[i].key == #[trigger] b[j].key
            ==> a[i].timestamp != b[j].timestamp
}

/// No key is in both.
pub open spec fn disjoint(a: Seq<Record>, b: Seq<Record>) -> bool {
    forall|i: int, j: int| 0 <= i < a.len() && 0 <= j < b.len() ==> #[trigger] a[i].key != #[trigger] b[j].key
}

/// Every key of `s` is above `k`.
pub open spec fn all_above(s: Seq<Record>, k: Seq<u8>) -> bool {
    forall|i: int| 0 <= i < s.len() ==> key_lt(k, #[trigger] s[i].key)
}

pub proof fn lemma_find_absent(s: Seq<Record>, k: Seq<u8>)
    requires
        forall|i: int| 0 <= i < s.len() ==> (#[trigger] s[i]).key != k,
    ensures
        find(s, k) is None,
    decreases s.len(),
{
    if s.len() > 0 {
        let t = s.drop_first();
        assert forall|i: int| 0 <= i < t.len() implies (#[trigger] t[i]).key != k by {
            assert(t[i] == s[i + 1]);
        }
        lemma_find_absent(t, k);
    }
}

/// A key that a lookup does not find is held by no record.
pub proof fn lemma_find_none(s: Seq<Record>, k: Seq<u8>)
    requires
        find(s, k) is None,
    ensures
        forall|i: int| 0 <= i < s.len() ==> (#[trigger] s[i]).key != k,
    decreases s.len(),
{
    if s.len() > 0 {
        let t = s.drop_first();
        lemma_find_none(t, k);
        assert forall|i: int| 0 <= i < s.len() implies (#[trigger] s[i]).key != k by {
            if i > 0 {
                assert(s[i] == t[i - 1]);
            }
        }
    }
}

proof fn lemma_above_absent(s: Seq<Record>, k: Seq<u8>)
    requires
        all_above(s, k),
    ensures
        find(s, k) is None,
{
    lemma_key_lt_irreflexive(k);
    assert forall|i: int| 0 <= i < s.len() implies (#[trigger] s[i]).key != k by {
        assert(key_lt(k, s[i].key));
    }
    lemma_find_absent(s, k);
}

proof fn lemma_sorted_tail(s: Seq<Record>)
    requires
        sorted(s),
        s.len() > 0,
    ensures
        sorted(s.drop_first()),
        all_above(s.drop_first(), s[0].key),
{
    let t = s.drop_first();
    assert forall|a: int, b: int| 0 <= a < b < t.len() implies key_lt(
        #[trigger] t[a].key,
        #[trigger] t[b].key,
    ) by {
        assert(t[a] == s[a + 1] && t[b] == s[b + 1]);
    }
    assert forall|i: int| 0 <= i < t.len() implies key_lt(s[0].key, #[trigger] t[i].key) by {
        assert(t[i] == s[i + 1]);
    }
}

proof fn lemma_above_lower(s: Seq<Record>, k: Seq<u8>, lower: Seq<u8>)
    requires
        sorted(s),
        s.len() > 0,
        key_lt(lower, s[0].key),
    ensures
        all_above(s, lower),
{
    assert forall|i: int| 0 <= i < s.len() implies key_lt(lower, #[trigger] s[i].key) by {
        if i > 0 {
            lemma_key_lt_transitive(lower, s[0].key, s[i].key);
        }
    }
}

proof fn lemma_above_tail(s: Seq<Record>, k: Seq<u8>)
    requires
        all_above(s, k),
        s.len() > 0,
    ensures
        all_above(s.drop_first(), k),
{
    assert forall|i: int| 0 <= i < s.drop_first().len() implies key_lt(
        k,
        #[trigger] s.drop_first()[i].key,
    ) by {
        assert(s.drop_first()[i] == s[i + 1]);
    }
}

proof fn lemma_sorted_cons(r: Record, m: Seq<Record>)
    requires
        sorted(m),
        all_above(m, r.key),
    ensures
        sorted(seq![r] + m),
{
    let n = seq![r] + m;
    assert forall|a: int, b: int| 0 <= a < b < n.len() implies key_lt(
        #[trigger] n[a].key,
        #[trigger] n[b].key,
    ) by {
        assert(n[b] == m[b - 1]);
        if a > 0 {
            assert(n[a] == m[a - 1]);
        }
    }
}

proof fn lemma_no_tie_tails(a: Seq<Record>, b: Seq<Record>, da: bool, db: bool)
    requires
        no_tie(a, b),
        da ==> a.len() > 0,
        db ==> b.len() > 0,
    ensures
        no_tie(if da { a.drop_first() } else { a }, if db { b.drop_first() } else { b }),
{
    let a2 = if da { a.drop_first() } else { a };
    let b2 = if db { b.drop_first() } else { b };
    let oa: int = if da { 1 } else { 0 };
    let ob: int = if db { 1 } else { 0 };
    assert forall|i: int, j: int|
        0 <= i < a2.len() && 0 <= j < b2.len() && #[trigger] a2[i].key == #[trigger] b2[j].key
            implies a2[i].timestamp != b2[j].timestamp by {
        assert(a2[i] == a[i + oa]);
        assert(b2[j] == b[j + ob]);
    }
}

/// Merging two sorted segments that share no key with one timestamp writes
/// a sorted segment, and a lookup in it finds for every key the newer of
/// the inputs' records, or nothing where that one is a deletion marker.
pub proof fn lemma_merge_resolves(a: Seq<Record>, b: Seq<Record>)
    requires
        sorted(a),
        sorted(b),
        no_tie(a, b),
    ensures
        merged(a, b) is Some,
        sorted(merged(a, b).unwrap()),
        forall|k: Seq<u8>| #[trigger] find(merged(a, b).unwrap(), k) == resolve(find(a, k), find(b, k)),
        forall|k: Seq<u8>| all_above(a, k) && all_above(b, k) ==> #[trigger] all_above(merged(a, b).unwrap(), k),
    decreases a.len() + b.len(),
{
    if a.len() == 0 {
        assert forall|k: Seq<u8>| #[trigger] find(merged(a, b).unwrap(), k) == resolve(find(a, k), find(b, k)) by {}
    } else if b.len() == 0 {
        assert forall|k: Seq<u8>| #[trigger] find(merged(a, b).unwrap(), k) == resolve(find(a, k), find(b, k)) by {}
    } else {
        let a0 = a[0];
        let b0 = b[0];
        let ta = a.drop_first();
        let tb = b.drop_first();
        lemma_sorted_tail(a);
        lemma_sorted_tail(b);
        lemma_key_lt_total(a0.key, b0.key);
        if key_lt(a0.key, b0.key) {
            lemma_no_tie_tails(a, b, true, false);
            lemma_merge_resolves(ta, b);
            let mt = merged(ta, b).unwrap();
            let m = seq![a0] + mt;
            assert(merged(a, b) == Some(m));
            lemma_above_lower(b, a0.key, a0.key);
            lemma_sorted_cons(a0, mt);
            lemma_above_absent(b, a0.key);
            assert(m[0] == a0);
            assert(m.drop_first() =~= mt);
            assert forall|k: Seq<u8>| #[trigger] find(m, k) == resolve(find(a, k), find(b, k)) by {
                if k != a0.key {
                    assert(find(m, k) == find(mt, k));
                }
            }
            assert forall|k: Seq<u8>| all_above(a, k) && all_above(b, k) implies #[trigger] all_above(m, k) by {
                lemma_above_tail(a, k);
                assert(all_above(mt, k));
                assert(key_lt(k, a[0].key));
                assert forall|i: int| 0 <= i < m.len() implies key_lt(k, #[trigger] m[i].key) by {
                    if i > 0 {
                        assert(m[i] == mt[i - 1]);
                    }
                }
            }
        } else if key_lt(b0.key, a0.key) {
            lemma_no_tie_tails(a, b, false, true);
            lemma_merge_resolves(a, tb);
            let mt = merged(a, tb).unwrap();
            let m = seq![b0] + mt;
            assert(merged(a, b) == Some(m));
            lemma_above_lower(a, b0.key, b0.key);
            lemma_sorted_cons(b0, mt);
            lemma_above_absent(a, b0.key);
            assert(m[0] == b0);
            assert(m.drop_first() =~= mt);
            assert forall|k: Seq<u8>| #[trigger] find(m, k) == resolve(find(a, k), find(b, k)) by {
                if k != b0.key {
                    assert(find(m, k) == find(mt, k));
                }
            }
            assert forall|k: Seq<u8>| all_above(a, k) && all_above(b, k) implies #[trigger] all_above(m, k) by {
                lemma_above_tail(b, k);
                assert(all_above(mt, k));
                assert(key_lt(k, b[0].key));
                assert forall|i: int| 0 <= i < m.len() implies key_lt(k, #[trigger] m[i].key) by {
                    if i > 0 {
                        assert(m[i] == mt[i - 1]);
                    }
                }
            }
        } else {
            assert(a0.key == b0.key);
            assert(a0.timestamp != b0.timestamp);
            lemma_no_tie_tails(a, b, true, true);
            lemma_merge_resolves(ta, tb);
            let mt = merged(ta, tb).unwrap();
            let w = if a0.timestamp > b0.timestamp { a0 } else { b0 };
            let m = if w.deleted { mt } else { seq![w] + mt };
            assert(merged(a, b) =~= Some(m));
            assert(all_above(mt, a0.key));
            lemma_above_absent(mt, a0.key);
            if !w.deleted {
                lemma_sorted_cons(w, mt);
                assert(m[0] == w);
                assert(m.drop_first() =~= mt);
            }
            assert forall|k: Seq<u8>| #[trigger] find(m, k) == resolve(find(a, k), find(b, k)) by {
                if k != a0.key && !w.deleted {
                    assert(find(m, k) == find(mt, k));
                }
            }
            assert forall|k: Seq<u8>| all_above(a, k) && all_above(b, k) implies #[trigger] all_above(m, k) by {
                lemma_above_tail(a, k);
                lemma_above_tail(b, k);
                assert(all_above(mt, k));
                assert(key_lt(k, a[0].key));
                if !w.deleted {
                    assert forall|i: int| 0 <= i < m.len() implies key_lt(k, #[trigger] m[i].key) by {
                        if i > 0 {
                            assert(m[i] == mt[i - 1]);
                        }
                    }
                }
            }
        }
    }
}

/// Merging two sorted segments with no key in common writes every record of
/// both, sorted: a lookup finds what the input that holds the key holds.
pub proof fn lemma_merge_disjoint(a: Seq<Record>, b: Seq<Record>)
    requires
        sorted(a),
        sorted(b),
        disjoint(a, b),
    ensures
        merged(a, b) is Some,
        sorted(merged(a, b).unwrap()),
        merged(a, b).unwrap().len() == a.len() + b.len(),
        forall|k: Seq<u8>| #[trigger] find(merged(a, b).unwrap(), k) == if find(a, k) is Some {
            find(a, k)
        } else {
            find(b, k)
        },
{
    assert(no_tie(a, b));
    lemma_merge_resolves(a, b);
    lemma_merge_disjoint_len(a, b);
    assert forall|k: Seq<u8>| #[trigger] find(merged(a, b).unwrap(), k) == if find(a, k) is Some {
        find(a, k)
    } else {
        find(b, k)
    } by {
        if find(a, k) is Some && find(b, k) is Some {
            lemma_find_some_index(a, k);
            lemma_find_some_index(b, k);
        }
    }
}

proof fn lemma_find_some_index(s: Seq<Record>, k: Seq<u8>)
    requires
        find(s, k) is Some,
    ensures
        exists|i: int| 0 <= i < s.len() && (#[trigger] s[i]).key == k,
    decreases s.len(),
{
    if s[0].key != k {
        lemma_find_some_index(s.drop_first(), k);
        let i = choose|i: int| 0 <= i < s.drop_first().len() && (#[trigger] s.drop_first()[i]).key == k;
        assert(s[i + 1] == s.drop_first()[i]);
    } else {
        assert(s[0].key == k);
    }
}

proof fn lemma_merge_disjoint_len(a: Seq<Record>, b: Seq<Record>)
    requires
        disjoint(a, b),
    ensures
        merged(a, b) matches Some(m) ==> m.len() == a.len() + b.len(),
    decreases a.len() + b.len(),
{
    if a.len() > 0 && b.len() > 0 {
        let ta = a.drop_first();
        let tb = b.drop_first();
        assert(a[0].key != b[0].key);
        lemma_key_lt_total(a[0].key, b[0].key);
        if key_lt(a[0].key, b[0].key) {
            assert(disjoint(ta, b)) by {
                assert forall|i: int, j: int| 0 <= i < ta.len() && 0 <= j < b.len() implies #[trigger] ta[i].key != #[trigger] b[j].key by {
                    assert(ta[i] == a[i + 1]);
                }
            }
            lemma_merge_disjoint_len(ta, b);
        } else {
            assert(disjoint(a, tb)) by {
                assert forall|i: int, j: int| 0 <= i < a.len() && 0 <= j < tb.len() implies #[trigger] a[i].key != #[trigger] tb[j].key by {
                    assert(tb[j] == b[j + 1]);
                }
            }
            lemma_merge_disjoint_len(a, tb);
        }
    }
}

pub open spec fn pending(head: Option<SSTableEntry>, rest: Seq<Record>) -> Seq<Record> {
    match head {
        Some(e) => seq![e@] + rest,
        None => rest,
    }
}

impl SSTable {
    /// Merges this segment with `other` into a new segment: the smaller key
    /// goes first; of one key in both, the record with the greater timestamp
    /// is kept, and none where it is a deletion marker. One key with one
    /// timestamp in both abandons the merge.
    pub fn merge(self, other: SSTable) -> (r: Result<SSTable, MergeError>)
        requires
            self.wf(),
            other.wf(),
        ensures
            match r {
                Ok(t) => t.wf() && t.laid_out() && merged(self.records(), other.records()) == Some(
                    t.records(),
                ),
                Err(_) => merged(self.records(), other.records()) is None,
            },
    {
        let ghost a = self.records();
        let ghost b = other.records();
        proof {
            self.lemma_normal();
            other.lemma_normal();
        }
        let mut out = SSTable::new();
        let mut ia = self.into_iter();
        let mut ib = other.into_iter();
        let mut na = ia.next();
        let mut nb = ib.next();
        proof {
            assert(pending(na, ia.rest()) =~= a);
            assert(pending(nb, ib.rest()) =~= b);
            assert(Seq::<Record>::empty() + a =~= a);
        }
        loop
            invariant
                a == self.records(),
                b == other.records(),
                out.wf(),
                out.laid_out(),
                ia.wf(),
                ib.wf(),
                na is None ==> ia.rest().len() == 0,
                nb is None ==> ib.rest().len() == 0,
                all_normal(pending(na, ia.rest())),
                all_normal(pending(nb, ib.rest())),
                merged(a, b) == prepend(
                    out.records(),
                    merged(pending(na, ia.rest()), pending(nb, ib.rest())),
                ),
            decreases pending(na, ia.rest()).len() + pending(nb, ib.rest()).len(),
        {
            let ghost pa = pending(na, ia.rest());
            let ghost pb = pending(nb, ib.rest());
            let ghost before = out.records();
            match na {
                None => match nb {
                    None => {
                        proof {
                            assert(pa.len() == 0 && pb.len() == 0);
                            assert(merged(pa, pb) == Some(pb));
                            assert(before + pb =~= before);
                        }
                        return Ok(out);
                    },
                    Some(eb) => {
                        let e = eb.into_entry();
                        out.write(&e);
                        proof {
                            assert(normalized(pb[0]) == pb[0]);
                            assert(pb.drop_first() =~= ib.rest());
                        }
                        na = None;
                        nb = ib.next();
                        proof {
                            assert(pending(nb, ib.rest()) =~= pb.drop_first());
                            assert(merged(pa, pb) == Some(pb));
                            assert(before + pb =~= out.records() + pb.drop_first());
                            lemma_normal_tail(pb);
                        }
                    },
                },
                Some(ea) => match nb {
                    None => {
                        let e = ea.into_entry();
                        out.write(&e);
                        proof {
                            assert(normalized(pa[0]) == pa[0]);
                        }
                        na = ia.next();
                        proof {
                            assert(pending(na, ia.rest()) =~= pa.drop_first());
                            assert(merged(pa, pb) == Some(pa));
                            assert(before + pa =~= out.records() + pa.drop_first());
                            lemma_normal_tail(pa);
                        }
                    },
                    Some(eb) => {
                        let c = compare_keys(ea.key.as_slice(), eb.key.as_slice());
                        proof {
                            assert(pa[0] == ea@ && pb[0] == eb@);
                            lemma_key_lt_total(ea.key@, eb.key@);
                            lemma_key_lt_irreflexive(ea.key@);
                            assert(pa.drop_first() =~= ia.rest());
                            assert(pb.drop_first() =~= ib.rest());
                        }
                        match c {
                            Ordering::Less => {
                                let e = ea.into_entry();
                                out.write(&e);
                                proof {
                                    assert(normalized(pa[0]) == pa[0]);
                                }
                                na = ia.next();
                                nb = Some(eb);
                                proof {
                                    assert(pending(na, ia.rest()) =~= pa.drop_first());
                                    lemma_normal_tail(pa);
                                    assert(pending(nb, ib.rest()) == pb);
                                    assert(merged(pa, pb) == prepend(
                                        seq![pa[0]],
                                        merged(pa.drop_first(), pb),
                                    ));
                                    assert(before.push(pa[0]) =~= before + seq![pa[0]]);
                                    if let Some(t) = merged(pa.drop_first(), pb) {
                                        assert(before + (seq![pa[0]] + t) =~= before.push(pa[0]) + t);
                                    }
                                }
                            },
                            Ordering::Greater => {
                                let e = eb.into_entry();
                                out.write(&e);
                                proof {
                                    assert(normalized(pb[0]) == pb[0]);
                                }
                                na = Some(ea);
                                nb = ib.next();
                                proof {
                                    assert(pending(nb, ib.rest()) =~= pb.drop_first());
                                    lemma_normal_tail(pb);
                                    assert(pending(na, ia.rest()) == pa);
                                    assert(merged(pa, pb) == prepend(
                                        seq![pb[0]],
                                        merged(pa, pb.drop_first()),
                                    ));
                                    assert(before.push(pb[0]) =~= before + seq![pb[0]]);
                                    if let Some(t) = merged(pa, pb.drop_first()) {
                                        assert(before + (seq![pb[0]] + t) =~= before.push(pb[0]) + t);
                                    }
                                }
                            },
                            Ordering::Equal => {
                                if ea.timestamp == eb.timestamp {
                                    proof {
                                        assert(merged(pa, pb) is None);
                                    }
                                    return Err(MergeError::EqualTimestamps);
                                }
                                let ghost w = if ea.timestamp > eb.timestamp { pa[0] } else { pb[0] };
                                if ea.timestamp > eb.timestamp {
                                    if !ea.deleted {
                                        let e = ea.into_entry();
                                        out.write(&e);
                                    }
                                } else {
                                    if !eb.deleted {
                                        let e = eb.into_entry();
                                        out.write(&e);
                                    }
                                }
                                na = ia.next();
                                nb = ib.next();
                                proof {
                                    assert(normalized(w) == w);
                                    assert(pending(na, ia.rest()) =~= pa.drop_first());
                                    assert(pending(nb, ib.rest()) =~= pb.drop_first());
                                    lemma_normal_tail(pa);
                                    lemma_normal_tail(pb);
                                    let d = if w.deleted { Seq::<Record>::empty() } else { seq![w] };
                                    assert(merged(pa, pb) == prepend(
                                        d,
                                        merged(pa.drop_first(), pb.drop_first()),
                                    ));
                                    assert(out.records() =~= before + d);
                                    if let Some(t) = merged(pa.drop_first(), pb.drop_first()) {
                                        assert(before + (d + t) =~= (before + d) + t);
                                    }
                                }
                            },
                        }
                    },
                },
            }
        }
    }
}

proof fn lemma_normal_tail(s: Seq<Record>)
    requires
        all_normal(s),
        s.len() > 0,
    ensures
        all_normal(s.drop_first()),
{
    assert forall|i: int| 0 <= i < s.drop_first().len() implies normalized(
        #[trigger] s.drop_first()[i],
    ) == s.drop_first()[i] by {
        assert(s.drop_first()[i] == s[i + 1]);
    }
}

} // verus!
