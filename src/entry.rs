//! The record that every part of the store holds.
use vstd::prelude::*;

verus! {

/// What a stored record means: its key, its value when it is live, its
/// logical write time and whether it marks a deletion.
pub ghost struct Record {
    pub key: Seq<u8>,
    pub value: Option<Seq<u8>>,
    pub timestamp: u128,
    pub deleted: bool,
}

pub open spec fn opt_bytes(v: Option<Vec<u8>>) -> Option<Seq<u8>> {
    match v {
        Some(b) => Some(b@),
        None => None,
    }
}

/// The value bytes that are stored for `r`: none for a deletion marker.
pub open spec fn stored_value(r: Record) -> Seq<u8> {
    match r.value {
        Some(v) => if r.deleted { Seq::empty() } else { v },
        None => Seq::empty(),
    }
}

/// The form in which a record is stored: a deletion marker carries no value,
/// a live record always carries one.
pub open spec fn normalized(r: Record) -> Record {
    Record {
        key: r.key,
        value: if r.deleted { None } else { Some(stored_value(r)) },
        timestamp: r.timestamp,
        deleted: r.deleted,
    }
}

pub open spec fn is_normal(r: Record) -> bool {
    r.deleted <==> r.value is None
}

/// A record: key, value when live, logical timestamp, deletion flag.
pub struct Entry {
    pub key: Vec<u8>,
    pub value: Option<Vec<u8>>,
    pub timestamp: u128,
    pub deleted: bool,
}

impl View for Entry {
    type V = Record;

    open spec fn view(&self) -> Record {
        Record {
            key: self.key@,
            value: opt_bytes(self.value),
            timestamp: self.timestamp,
            deleted: self.deleted,
        }
    }
}

/// An owned copy of an optional value.
pub fn copy_value(v: &Option<Vec<u8>>) -> (r: Option<Vec<u8>>)
    ensures
        opt_bytes(r) == opt_bytes(*v),
{
    match v {
        Some(b) => Some(crate::bytes::copy_bytes(b.as_slice())),
        None => None,
    }
}

impl Entry {
    /// A copy of this entry.
    pub fn duplicate(&self) -> (r: Entry)
        ensures
            r@ == self@,
    {
        Entry {
            key: crate::bytes::copy_bytes(self.key.as_slice()),
            value: copy_value(&self.value),
            timestamp: self.timestamp,
            deleted: self.deleted,
        }
    }
}

} // verus!
