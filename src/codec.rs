//! The byte layout of records and index records: fixed-width little-endian
//! integers, lengths before contents, a timestamp at the end.
use crate::bytes::{append_bytes, copy_range};
use crate::entry::{normalized, opt_bytes, stored_value, Entry, Record};
use vstd::prelude::*;

verus! {

/// `256` to the power `k`: one more than the largest number held in `k` bytes.
pub open spec fn radix(k: nat) -> nat
    decreases k,
{
    if k == 0 {
        1
    } else {
        256 * radix((k - 1) as nat)
    }
}

/// The `k` low bytes of `n`, least significant first.
pub open spec fn le_bytes(n: nat, k: nat) -> Seq<u8>
    decreases k,
{
    if k == 0 {
        Seq::empty()
    } else {
        seq![(n % 256) as u8] + le_bytes(n / 256, (k - 1) as nat)
    }
}

/// The number that little-endian bytes `s` stand for.
pub open spec fn le_value(s: Seq<u8>) -> nat
    decreases s.len(),
{
    if s.len() == 0 {
        0
    } else {
        s[0] as nat + 256 * le_value(s.drop_first())
    }
}

pub proof fn lemma_radix_values()
    ensures
        radix(8) == 0x1_0000_0000_0000_0000,
        radix(16) == 0x1_0000_0000_0000_0000_0000_0000_0000_0000,
{
    reveal_with_fuel(radix, 17);
}

pub proof fn lemma_radix_monotone(j: nat, k: nat)
    requires
        j <= k,
    ensures
        radix(j) <= radix(k),
        radix(j) > 0,
    decreases k,
{
    if k > 0 {
        if j < k {
            lemma_radix_monotone(j, (k - 1) as nat);
        } else {
            lemma_radix_monotone((j - 1) as nat, (k - 1) as nat);
        }
    }
}

pub proof fn lemma_le_bytes_len(n: nat, k: nat)
    ensures
        le_bytes(n, k).len() == k,
    decreases k,
{
    if k > 0 {
        lemma_le_bytes_len(n / 256, (k - 1) as nat);
    }
}

pub proof fn lemma_le_value_bound(s: Seq<u8>)
    ensures
        le_value(s) < radix(s.len()),
    decreases s.len(),
{
    if s.len() > 0 {
        lemma_le_value_bound(s.drop_first());
        let a = s[0] as nat;
        let b = le_value(s.drop_first());
        let p = radix((s.len() - 1) as nat);
        assert(a + 256 * b < 256 * p) by (nonlinear_arith)
            requires
                a < 256,
                b < p,
        ;
    }
}

/// Reading back the bytes of a number that fits gives the number.
pub proof fn lemma_le_round_trip(n: nat, k: nat)
    requires
        n < radix(k),
    ensures
        le_value(le_bytes(n, k)) == n,
        le_bytes(n, k).len() == k,
    decreases k,
{
    lemma_le_bytes_len(n, k);
    if k > 0 {
        let p = radix((k - 1) as nat);
        assert(n / 256 < p) by (nonlinear_arith)
            requires
                n < 256 * p,
        ;
        lemma_le_round_trip(n / 256, (k - 1) as nat);
        let s = le_bytes(n, k);
        assert(s.drop_first() =~= le_bytes(n / 256, (k - 1) as nat));
        assert(n == n % 256 + 256 * (n / 256)) by (nonlinear_arith);
    }
}

/// Appends the `width` low bytes of `n`, least significant first.
pub fn put_le(out: &mut Vec<u8>, n: u128, width: usize)
    requires
        n < radix(width as nat),
    ensures
        final(out)@ == old(out)@ + le_bytes(n as nat, width as nat),
{
    let mut x: u128 = n;
    let mut i: usize = 0;
    proof {
        assert(old(out)@ + le_bytes(n as nat, width as nat) =~= out@ + le_bytes(x as nat, (width
            - i) as nat));
    }
    while i < width
        invariant
            i <= width,
            old(out)@ + le_bytes(n as nat, width as nat) == out@ + le_bytes(
                x as nat,
                (width - i) as nat,
            ),
        decreases width - i,
    {
        let ghost before = out@;
        out.push((x % 256) as u8);
        proof {
            let m = (width - i) as nat;
            assert(le_bytes(x as nat, m) == seq![(x as nat % 256) as u8] + le_bytes(
                x as nat / 256,
                (m - 1) as nat,
            ));
            assert(out@ + le_bytes(x as nat / 256, (m - 1) as nat) =~= before + le_bytes(
                x as nat,
                m,
            ));
        }
        x = x / 256;
        i = i + 1;
    }
    proof {
        assert(out@ + le_bytes(x as nat, 0) =~= out@);
    }
}

/// The number held little-endian in `s[pos..pos + width]`.
pub fn get_le(s: &[u8], pos: usize, width: usize) -> (r: u128)
    requires
        width <= 16,
        pos + width <= s@.len(),
    ensures
        r as nat == le_value(s@.subrange(pos as int, pos + width)),
{
    let n: usize = s.len();
    let mut acc: u128 = 0;
    let mut i: usize = width;
    proof {
        lemma_radix_values();
        lemma_radix_monotone(width as nat, 16);
        assert(s@.subrange(pos + width, pos + width).len() == 0);
    }
    while i > 0
        invariant
            i <= width <= 16,
            pos + width <= s@.len(),
            s@.len() == n,
            acc as nat == le_value(s@.subrange(pos + i, pos + width)),
            (acc as nat) < radix((width - i) as nat),
            radix(width as nat) <= radix(16),
            radix(16) == 0x1_0000_0000_0000_0000_0000_0000_0000_0000,
        decreases i,
    {
        let b = s[pos + i - 1];
        proof {
            let t = s@.subrange(pos + i - 1, pos + width);
            assert(t.drop_first() =~= s@.subrange(pos + i, pos + width));
            assert(t[0] == b);
            let p = radix((width - i) as nat);
            lemma_radix_monotone((width - i + 1) as nat, width as nat);
            assert(radix((width - i + 1) as nat) == 256 * p);
            assert(b as nat + 256 * (acc as nat) < 256 * p) by (nonlinear_arith)
                requires
                    b < 256,
                    acc < p,
            ;
        }
        acc = acc * 256 + b as u128;
        i = i - 1;
    }
    acc
}


/// The bytes of one stored record:
/// `[key length: 8][tombstone: 1]{live: [value length: 8]}[key]{live: [value]}[timestamp: 16]`.
pub open spec fn encode_record(r: Record) -> Seq<u8> {
    if r.deleted {
        le_bytes(r.key.len(), 8) + seq![1u8] + r.key + le_bytes(r.timestamp as nat, 16)
    } else {
        le_bytes(r.key.len(), 8) + seq![0u8] + le_bytes(stored_value(r).len(), 8) + r.key
            + stored_value(r) + le_bytes(r.timestamp as nat, 16)
    }
}

/// The lengths of `r` fit the eight bytes that hold them.
pub open spec fn encodable(r: Record) -> bool {
    r.key.len() < radix(8) && stored_value(r).len() < radix(8)
}

/// The record at the start of `s` and the number of bytes it takes, or
/// nothing where `s` ends before a whole record.
pub open spec fn parse_record(s: Seq<u8>) -> Option<(Record, nat)> {
    if s.len() < 9 {
        None
    } else {
        let klen = le_value(s.subrange(0, 8)) as int;
        if s[8] != 0 {
            let end = 9 + klen + 16;
            if s.len() < end {
                None
            } else {
                Some(
                    (
                        Record {
                            key: s.subrange(9, 9 + klen),
                            value: None,
                            timestamp: le_value(s.subrange(9 + klen, end)) as u128,
                            deleted: true,
                        },
                        end as nat,
                    ),
                )
            }
        } else if s.len() < 17 {
            None
        } else {
            let vlen = le_value(s.subrange(9, 17)) as int;
            let end = 17 + klen + vlen + 16;
            if s.len() < end {
                None
            } else {
                Some(
                    (
                        Record {
                            key: s.subrange(17, 17 + klen),
                            value: Some(s.subrange(17 + klen, 17 + klen + vlen)),
                            timestamp: le_value(s.subrange(17 + klen + vlen, end)) as u128,
                            deleted: false,
                        },
                        end as nat,
                    ),
                )
            }
        }
    }
}

/// The number of bytes that the record `r` takes.
pub open spec fn encoded_len(r: Record) -> nat {
    if r.deleted {
        r.key.len() + 25
    } else {
        r.key.len() + stored_value(r).len() + 33
    }
}

pub proof fn lemma_encoded_len(r: Record)
    ensures
        encode_record(r).len() == encoded_len(r),
{
    lemma_le_bytes_len(r.key.len(), 8);
    lemma_le_bytes_len(r.timestamp as nat, 16);
    lemma_le_bytes_len(stored_value(r).len(), 8);
}

/// A record reads back, in its stored form, from its own bytes, whatever
/// follows them.
pub proof fn lemma_record_round_trip(r: Record, rest: Seq<u8>)
    requires
        encodable(r),
    ensures
        parse_record(encode_record(r) + rest) == Some((normalized(r), encoded_len(r))),
{
    lemma_encoded_len(r);
    lemma_radix_values();
    let k = r.key.len() as int;
    let v = stored_value(r);
    let vl = v.len() as int;
    let s = encode_record(r) + rest;
    lemma_le_round_trip(r.key.len(), 8);
    lemma_le_round_trip(r.timestamp as nat, 16);
    assert(s.subrange(0, 8) =~= le_bytes(r.key.len(), 8));
    if r.deleted {
        assert(s.subrange(9, 9 + k) =~= r.key);
        assert(s.subrange(9 + k, 9 + k + 16) =~= le_bytes(r.timestamp as nat, 16));
    } else {
        lemma_le_round_trip(v.len(), 8);
        assert(s.subrange(9, 17) =~= le_bytes(v.len(), 8));
        assert(s.subrange(17, 17 + k) =~= r.key);
        assert(s.subrange(17 + k, 17 + k + vl) =~= v);
        assert(s.subrange(17 + k + vl, 17 + k + vl + 16) =~= le_bytes(
            r.timestamp as nat,
            16,
        ));
    }
}

/// What a parsed record is: stored form, and as long as its own bytes.
pub proof fn lemma_parse_record_shape(s: Seq<u8>)
    requires
        parse_record(s) is Some,
    ensures
        ({
            let (r, n) = parse_record(s).unwrap();
            &&& normalized(r) == r
            &&& n == encoded_len(r)
            &&& 25 <= n <= s.len()
            &&& encodable(r)
        }),
{
    lemma_le_value_bound(s.subrange(0, 8));
    if s[8] == 0 {
        lemma_le_value_bound(s.subrange(9, 17));
    }
}

/// The bytes of records one after another.
pub open spec fn encode_all(rs: Seq<Record>) -> Seq<u8>
    decreases rs.len(),
{
    if rs.len() == 0 {
        Seq::empty()
    } else {
        encode_record(rs[0]) + encode_all(rs.drop_first())
    }
}

/// The records read from the start of `s` until one is cut short: a torn
/// tail ends the sequence.
pub open spec fn parse_all(s: Seq<u8>) -> Seq<Record>
    decreases s.len(),
{
    match parse_record(s) {
        Some((r, n)) => if 0 < n <= s.len() {
            seq![r] + parse_all(s.skip(n as int))
        } else {
            Seq::empty()
        },
        None => Seq::empty(),
    }
}

pub open spec fn all_encodable(rs: Seq<Record>) -> bool {
    forall|i: int| 0 <= i < rs.len() ==> encodable(#[trigger] rs[i])
}

pub open spec fn all_normal(rs: Seq<Record>) -> bool {
    forall|i: int| 0 <= i < rs.len() ==> normalized(#[trigger] rs[i]) == rs[i]
}

pub proof fn lemma_encode_all_push(rs: Seq<Record>, r: Record)
    ensures
        encode_all(rs.push(r)) == encode_all(rs) + encode_record(r),
    decreases rs.len(),
{
    if rs.len() == 0 {
        assert(rs.push(r).drop_first() =~= Seq::<Record>::empty());
        assert(encode_all(rs.push(r)) =~= encode_record(r) + encode_all(Seq::<Record>::empty()));
        assert(encode_all(rs) + encode_record(r) =~= encode_record(r));
    } else {
        lemma_encode_all_push(rs.drop_first(), r);
        assert(rs.push(r).drop_first() =~= rs.drop_first().push(r));
        assert(encode_all(rs.push(r)) =~= encode_all(rs) + encode_record(r));
    }
}

/// Records in stored form read back from their bytes, followed by whatever
/// the rest holds.
pub proof fn lemma_parse_all_encode_all(rs: Seq<Record>, t: Seq<u8>)
    requires
        all_encodable(rs),
        all_normal(rs),
    ensures
        parse_all(encode_all(rs) + t) == rs + parse_all(t),
    decreases rs.len(),
{
    if rs.len() == 0 {
        assert(encode_all(rs) + t =~= t);
        assert(rs + parse_all(t) =~= parse_all(t));
    } else {
        let r = rs[0];
        let tail = rs.drop_first();
        assert(all_encodable(tail) && all_normal(tail)) by {
            assert forall|i: int| 0 <= i < tail.len() implies encodable(#[trigger] tail[i])
                && normalized(tail[i]) == tail[i] by {
                assert(tail[i] == rs[i + 1]);
            }
        }
        lemma_parse_all_encode_all(tail, t);
        let rest = encode_all(tail) + t;
        assert(encodable(rs[0]) && normalized(rs[0]) == rs[0]);
        lemma_parse_all_cons(r, rest);
        assert(encode_all(rs) + t =~= encode_record(r) + rest);
        assert(seq![r] + (tail + parse_all(t)) =~= rs + parse_all(t));
    }
}

/// One record's bytes in front of `rest` read as that record, in stored
/// form, in front of what `rest` reads as.
proof fn lemma_parse_all_cons(r: Record, rest: Seq<u8>)
    requires
        encodable(r),
    ensures
        parse_all(encode_record(r) + rest) == seq![normalized(r)] + parse_all(rest),
{
    let s = encode_record(r) + rest;
    lemma_record_round_trip(r, rest);
    lemma_encoded_len(r);
    assert(s.skip(encoded_len(r) as int) =~= rest);
}

/// Records in stored form read back from their bytes as they are.
pub proof fn lemma_decode_encoded(rs: Seq<Record>)
    requires
        all_encodable(rs),
        all_normal(rs),
    ensures
        parse_all(encode_all(rs)) == rs,
{
    lemma_parse_all_encode_all(rs, Seq::empty());
    assert(encode_all(rs) + Seq::empty() =~= encode_all(rs));
    assert(rs + Seq::<Record>::empty() =~= rs);
}

pub open spec fn record_of(key: Seq<u8>, value: Option<Vec<u8>>, timestamp: u128, deleted: bool) -> Record {
    Record { key, value: opt_bytes(value), timestamp, deleted }
}

pub proof fn lemma_exec_encodable(r: Record)
    requires
        r.key.len() <= usize::MAX,
        stored_value(r).len() <= usize::MAX,
    ensures
        encodable(r),
{
    lemma_radix_values();
}

/// Appends the bytes of one record.
pub fn encode_into(
    out: &mut Vec<u8>,
    key: &[u8],
    value: &Option<Vec<u8>>,
    timestamp: u128,
    deleted: bool,
)
    ensures
        final(out)@ == old(out)@ + encode_record(record_of(key@, *value, timestamp, deleted)),
{
    let ghost r = record_of(key@, *value, timestamp, deleted);
    proof {
        lemma_radix_values();
    }
    put_le(out, key.len() as u128, 8);
    if deleted {
        out.push(1u8);
        append_bytes(out, key);
    } else {
        out.push(0u8);
        match value {
            Some(v) => {
                put_le(out, v.len() as u128, 8);
                append_bytes(out, key);
                append_bytes(out, v.as_slice());
            },
            None => {
                put_le(out, 0, 8);
                append_bytes(out, key);
                proof {
                    assert(out@ =~= out@ + stored_value(r));
                }
            },
        }
    }
    put_le(out, timestamp, 16);
    proof {
        assert(out@ =~= old(out)@ + encode_record(r));
    }
}

/// Reads the record that starts at `pos`; nothing where the bytes end
/// before a whole record.
pub fn decode_at(s: &[u8], pos: usize) -> (r: Option<(Entry, usize)>)
    requires
        pos <= s@.len(),
    ensures
        match r {
            Some((e, next)) => pos < next <= s@.len() && parse_record(s@.skip(pos as int)) == Some(
                (e@, (next - pos) as nat),
            ),
            None => parse_record(s@.skip(pos as int)) is None,
        },
{
    let ghost t = s@.skip(pos as int);
    let n: usize = s.len();
    let avail: usize = n - pos;
    if avail < 9 {
        return None;
    }
    let klen_raw: u128 = get_le(s, pos, 8);
    proof {
        assert(t.subrange(0, 8) =~= s@.subrange(pos as int, pos + 8));
    }
    if s[pos + 8] != 0 {
        if avail < 25 {
            return None;
        }
        if klen_raw > (avail - 25) as u128 {
            return None;
        }
        let klen = klen_raw as usize;
        let key = copy_range(s, pos + 9, pos + 9 + klen);
        let timestamp = get_le(s, pos + 9 + klen, 16);
        proof {
            assert(t.subrange(9, 9 + klen) =~= s@.subrange(pos + 9, pos + 9 + klen));
            assert(t.subrange(9 + klen, 25 + klen) =~= s@.subrange(
                pos + 9 + klen,
                pos + 9 + klen + 16,
            ));
        }
        let e = Entry { key, value: None, timestamp, deleted: true };
        Some((e, pos + 25 + klen))
    } else {
        if avail < 33 {
            return None;
        }
        let vlen_raw: u128 = get_le(s, pos + 9, 8);
        proof {
            assert(t.subrange(9, 17) =~= s@.subrange(pos + 9, pos + 9 + 8));
        }
        if klen_raw > (avail - 33) as u128 {
            return None;
        }
        let klen = klen_raw as usize;
        if vlen_raw > (avail - 33 - klen) as u128 {
            return None;
        }
        let vlen = vlen_raw as usize;
        let key = copy_range(s, pos + 17, pos + 17 + klen);
        let value = copy_range(s, pos + 17 + klen, pos + 17 + klen + vlen);
        let timestamp = get_le(s, pos + 17 + klen + vlen, 16);
        proof {
            assert(t.subrange(17, 17 + klen) =~= s@.subrange(pos + 17, pos + 17 + klen));
            assert(t.subrange(17 + klen, 17 + klen + vlen) =~= s@.subrange(
                pos + 17 + klen,
                pos + 17 + klen + vlen,
            ));
            assert(t.subrange(17 + klen + vlen, 33 + klen + vlen) =~= s@.subrange(
                pos + 17 + klen + vlen,
                pos + 17 + klen + vlen + 16,
            ));
        }
        let e = Entry { key, value: Some(value), timestamp, deleted: false };
        Some((e, pos + 33 + klen + vlen))
    }
}

/// Reading from `pos`: a whole record there is followed by the records after
/// it; no whole record there ends the reading.
pub proof fn lemma_parse_all_step(s: Seq<u8>, pos: int)
    requires
        0 <= pos <= s.len(),
    ensures
        match parse_record(s.skip(pos)) {
            Some((r, n)) => pos + n <= s.len() && parse_all(s.skip(pos)) == seq![r] + parse_all(
                s.skip(pos + n),
            ),
            None => parse_all(s.skip(pos)) == Seq::<Record>::empty(),
        },
{
    if parse_record(s.skip(pos)) is Some {
        lemma_parse_record_shape(s.skip(pos));
        let n = parse_record(s.skip(pos)).unwrap().1;
        assert(s.skip(pos).skip(n as int) =~= s.skip(pos + n));
    }
}

/// Where the record at index `j` of `rs` starts in their bytes.
pub open spec fn offset_of(rs: Seq<Record>, j: int) -> nat {
    encode_all(rs.take(j)).len()
}

pub proof fn lemma_encode_all_split(rs: Seq<Record>, j: int)
    requires
        0 <= j <= rs.len(),
    ensures
        encode_all(rs) == encode_all(rs.take(j)) + encode_all(rs.skip(j)),
    decreases j,
{
    if j == 0 {
        assert(rs.skip(0) =~= rs);
        assert(encode_all(rs.take(0)) =~= Seq::<u8>::empty());
        assert(encode_all(rs) =~= Seq::<u8>::empty() + encode_all(rs));
    } else {
        lemma_encode_all_split(rs.drop_first(), j - 1);
        assert(rs.drop_first().take(j - 1) =~= rs.take(j).drop_first());
        assert(rs.drop_first().skip(j - 1) =~= rs.skip(j));
        assert(rs.take(j)[0] == rs[0]);
        assert(encode_all(rs) =~= encode_all(rs.take(j)) + encode_all(rs.skip(j)));
    }
}

pub proof fn lemma_all_encodable_skip(rs: Seq<Record>, j: int)
    requires
        all_encodable(rs),
        all_normal(rs),
        0 <= j <= rs.len(),
    ensures
        all_encodable(rs.skip(j)),
        all_normal(rs.skip(j)),
{
    assert forall|i: int| 0 <= i < rs.skip(j).len() implies encodable(#[trigger] rs.skip(j)[i])
        && normalized(rs.skip(j)[i]) == rs.skip(j)[i] by {
        assert(rs.skip(j)[i] == rs[i + j]);
    }
}

/// Reading from the start of record `j` gives the records from `j` on.
pub proof fn lemma_parse_from_offset(rs: Seq<Record>, j: int)
    requires
        all_encodable(rs),
        all_normal(rs),
        0 <= j <= rs.len(),
    ensures
        parse_all(encode_all(rs).skip(offset_of(rs, j) as int)) == rs.skip(j),
        offset_of(rs, j) <= encode_all(rs).len(),
{
    lemma_encode_all_split(rs, j);
    assert(encode_all(rs).skip(offset_of(rs, j) as int) =~= encode_all(rs.skip(j)));
    lemma_all_encodable_skip(rs, j);
    lemma_decode_encoded(rs.skip(j));
}

/// One record of the sparse index: a key and where its record starts.
pub ghost struct IndexRecord {
    pub key: Seq<u8>,
    pub offset: nat,
}

/// `[key length: 8][key][offset: 8]`.
pub open spec fn encode_index_record(ir: IndexRecord) -> Seq<u8> {
    le_bytes(ir.key.len(), 8) + ir.key + le_bytes(ir.offset, 8)
}

pub open spec fn index_encodable(ir: IndexRecord) -> bool {
    ir.key.len() < radix(8) && ir.offset <= usize::MAX
}

/// The index record at the start of `s` and its length; nothing where `s`
/// ends early or the offset exceeds what a `usize` holds.
pub open spec fn parse_index_record(s: Seq<u8>) -> Option<(IndexRecord, nat)> {
    if s.len() < 8 {
        None
    } else {
        let klen = le_value(s.subrange(0, 8)) as int;
        if s.len() < 16 + klen {
            None
        } else {
            let off = le_value(s.subrange(8 + klen, 16 + klen));
            if off > usize::MAX {
                None
            } else {
                Some((IndexRecord { key: s.subrange(8, 8 + klen), offset: off }, (16 + klen) as nat))
            }
        }
    }
}

pub open spec fn encode_index_all(ix: Seq<IndexRecord>) -> Seq<u8>
    decreases ix.len(),
{
    if ix.len() == 0 {
        Seq::empty()
    } else {
        encode_index_record(ix[0]) + encode_index_all(ix.drop_first())
    }
}

pub open spec fn parse_index_all(s: Seq<u8>) -> Seq<IndexRecord>
    decreases s.len(),
{
    match parse_index_record(s) {
        Some((r, n)) => if 0 < n <= s.len() {
            seq![r] + parse_index_all(s.skip(n as int))
        } else {
            Seq::empty()
        },
        None => Seq::empty(),
    }
}

pub proof fn lemma_index_record_round_trip(ir: IndexRecord, rest: Seq<u8>)
    requires
        index_encodable(ir),
    ensures
        parse_index_record(encode_index_record(ir) + rest) == Some(
            (ir, (16 + ir.key.len()) as nat),
        ),
{
    lemma_radix_values();
    let k = ir.key.len() as int;
    let s = encode_index_record(ir) + rest;
    lemma_le_round_trip(ir.key.len(), 8);
    lemma_le_round_trip(ir.offset, 8);
    assert(s.subrange(0, 8) =~= le_bytes(ir.key.len(), 8));
    assert(s.subrange(8, 8 + k) =~= ir.key);
    assert(s.subrange(8 + k, 16 + k) =~= le_bytes(ir.offset, 8));
}

pub proof fn lemma_encode_index_all_push(ix: Seq<IndexRecord>, ir: IndexRecord)
    ensures
        encode_index_all(ix.push(ir)) == encode_index_all(ix) + encode_index_record(ir),
    decreases ix.len(),
{
    if ix.len() == 0 {
        assert(ix.push(ir).drop_first() =~= Seq::<IndexRecord>::empty());
        assert(encode_index_all(ix.push(ir)) =~= encode_index_record(ir) + encode_index_all(
            Seq::<IndexRecord>::empty(),
        ));
        assert(encode_index_all(ix) + encode_index_record(ir) =~= encode_index_record(ir));
    } else {
        lemma_encode_index_all_push(ix.drop_first(), ir);
        assert(ix.push(ir).drop_first() =~= ix.drop_first().push(ir));
        assert(encode_index_all(ix.push(ir)) =~= encode_index_all(ix) + encode_index_record(ir));
    }
}

/// Index records read back from their bytes as they are.
pub proof fn lemma_decode_index_encoded(ix: Seq<IndexRecord>)
    requires
        forall|i: int| 0 <= i < ix.len() ==> index_encodable(#[trigger] ix[i]),
    ensures
        parse_index_all(encode_index_all(ix)) == ix,
    decreases ix.len(),
{
    if ix.len() > 0 {
        let t = ix.drop_first();
        assert forall|i: int| 0 <= i < t.len() implies index_encodable(#[trigger] t[i]) by {
            assert(t[i] == ix[i + 1]);
        }
        lemma_decode_index_encoded(t);
        assert(index_encodable(ix[0]));
        lemma_index_record_round_trip(ix[0], encode_index_all(t));
        lemma_le_bytes_len(ix[0].key.len(), 8);
        lemma_le_bytes_len(ix[0].offset, 8);
        let s = encode_index_all(ix);
        assert(s.skip(16 + ix[0].key.len() as int) =~= encode_index_all(t));
        assert(parse_index_all(s) =~= seq![ix[0]] + t);
        assert(seq![ix[0]] + t =~= ix);
    }
}

pub proof fn lemma_parse_index_all_step(s: Seq<u8>, pos: int)
    requires
        0 <= pos <= s.len(),
    ensures
        match parse_index_record(s.skip(pos)) {
            Some((r, n)) => pos + n <= s.len() && parse_index_all(s.skip(pos)) == seq![r]
                + parse_index_all(s.skip(pos + n)),
            None => parse_index_all(s.skip(pos)) == Seq::<IndexRecord>::empty(),
        },
{
    if parse_index_record(s.skip(pos)) is Some {
        let n = parse_index_record(s.skip(pos)).unwrap().1;
        assert(s.skip(pos).skip(n as int) =~= s.skip(pos + n));
    }
}

/// Appends the bytes of one index record.
pub fn encode_index_into(out: &mut Vec<u8>, key: &[u8], offset: usize)
    ensures
        final(out)@ == old(out)@ + encode_index_record(
            IndexRecord { key: key@, offset: offset as nat },
        ),
{
    proof {
        lemma_radix_values();
    }
    put_le(out, key.len() as u128, 8);
    append_bytes(out, key);
    put_le(out, offset as u128, 8);
}

/// Reads the index record that starts at `pos`, as key and offset.
pub fn decode_index_at(s: &[u8], pos: usize) -> (r: Option<(Vec<u8>, usize, usize)>)
    requires
        pos <= s@.len(),
    ensures
        match r {
            Some((key, offset, next)) => pos < next <= s@.len() && parse_index_record(
                s@.skip(pos as int),
            ) == Some((IndexRecord { key: key@, offset: offset as nat }, (next - pos) as nat)),
            None => parse_index_record(s@.skip(pos as int)) is None,
        },
{
    let ghost t = s@.skip(pos as int);
    let n: usize = s.len();
    let avail: usize = n - pos;
    if avail < 16 {
        return None;
    }
    let klen_raw: u128 = get_le(s, pos, 8);
    proof {
        assert(t.subrange(0, 8) =~= s@.subrange(pos as int, pos + 8));
    }
    if klen_raw > (avail - 16) as u128 {
        return None;
    }
    let klen = klen_raw as usize;
    let off_raw: u128 = get_le(s, pos + 8 + klen, 8);
    proof {
        assert(t.subrange(8 + klen, 16 + klen) =~= s@.subrange(pos + 8 + klen, pos + 8 + klen + 8));
        assert(t.subrange(8, 8 + klen) =~= s@.subrange(pos + 8, pos + 8 + klen));
    }
    if off_raw > usize::MAX as u128 {
        return None;
    }
    let key = copy_range(s, pos + 8, pos + 8 + klen);
    Some((key, off_raw as usize, pos + 16 + klen))
}

} // verus!
