use lsm_engine::entry::Entry;
use lsm_engine::index::IndexIterator;
use lsm_engine::sstable::{size, SSTable, BLOCK_SIZE};

fn create_entry() -> Entry {
    Entry {
        key: vec![1, 2, 3],
        value: Some(vec![9]),
        timestamp: 1,
        deleted: false,
    }
}

fn index_offsets(t: &SSTable) -> Vec<(Vec<u8>, usize)> {
    let mut it = IndexIterator::new(t.index_bytes().to_vec());
    let mut out = Vec::new();
    while let Some(e) = it.next() {
        out.push((e.key, e.offset));
    }
    out
}

#[test]
fn test_get_entry_from_sstable() {
    let mut sstable = SSTable::new();
    let entry = create_entry();
    sstable.write(&entry);
    let return_value = sstable.get(entry.key.as_slice());
    assert!(return_value.is_some());
    assert_eq!(return_value.unwrap().key, entry.key);
}

#[test]
fn size_counts_encoded_bytes() {
    assert_eq!(size(&create_entry()), 8 + 1 + 8 + 3 + 1 + 16);
    let tomb = Entry { key: vec![1, 2, 3], value: None, timestamp: 1, deleted: true };
    assert_eq!(size(&tomb), 8 + 1 + 3 + 16);
}

#[test]
fn first_write_is_indexed_and_small_writes_share_a_block() {
    let mut t = SSTable::new();
    for i in 0..5u8 {
        t.set(&[i], &[i], i as u128);
    }
    assert_eq!(index_offsets(&t), vec![(vec![0], 0)]);
}

#[test]
fn a_block_that_would_overflow_starts_a_new_index_record() {
    let mut t = SSTable::new();
    let big = vec![7u8; 30000];
    for i in 0..5u8 {
        t.set(&[i], &big, i as u128);
    }
    let rec = 8 + 1 + 8 + 1 + 30000 + 16;
    assert!(2 * rec <= BLOCK_SIZE && 3 * rec > BLOCK_SIZE);
    assert_eq!(
        index_offsets(&t),
        vec![(vec![0], 0), (vec![2], 2 * rec), (vec![4], 4 * rec)]
    );
    for i in 0..5u8 {
        let e = t.get(&[i]).unwrap();
        assert_eq!(e.timestamp, i as u128);
        assert_eq!(e.value.unwrap().len(), 30000);
    }
    assert!(t.get(&[5]).is_none());
    assert!(t.get(&[1, 0]).is_none());
}

#[test]
fn an_entry_larger_than_a_block_gets_a_block_of_its_own() {
    let mut t = SSTable::new();
    t.set(&[1], &vec![0u8; BLOCK_SIZE + 10], 1);
    t.set(&[2], &[2], 2);
    let offsets = index_offsets(&t);
    assert_eq!(offsets.len(), 2);
    assert_eq!(offsets[1].0, vec![2]);
    assert_eq!(t.get(&[2]).unwrap().value, Some(vec![2]));
}

#[test]
fn lookups_before_the_first_key_and_of_tombstones() {
    let mut t = SSTable::new();
    t.set(&[5], &[1], 1);
    t.delete(&[6], 2);
    assert!(t.get(&[4]).is_none());
    let e = t.get(&[6]).unwrap();
    assert!(e.deleted);
    assert_eq!(e.value, None);
}

#[test]
fn reopened_segment_keeps_its_records() {
    let mut t = SSTable::new();
    for i in 0..4u8 {
        t.set(&[i], &[i + 1], i as u128);
    }
    let r = SSTable::from_bytes(t.data_bytes());
    assert_eq!(r.data_bytes(), t.data_bytes());
    assert_eq!(r.index_bytes(), t.index_bytes());
    assert_eq!(r.get(&[3]).unwrap().value, Some(vec![4]));
    let mut it = r.into_iter();
    let mut n = 0;
    while let Some(e) = it.next() {
        assert_eq!(e.key, vec![n]);
        n += 1;
    }
    assert_eq!(n, 4);
}

#[test]
fn open_accepts_the_matching_index_and_refuses_another() {
    let mut t = SSTable::new();
    for i in 0..3u8 {
        t.set(&[i], &[i], i as u128);
    }
    let opened = SSTable::open(t.data_bytes(), t.index_bytes()).unwrap();
    assert_eq!(opened.get(&[2]).unwrap().value, Some(vec![2]));
    let mut wrong = t.index_bytes().to_vec();
    wrong[8] ^= 1;
    assert!(SSTable::open(t.data_bytes(), &wrong).is_none());
    assert!(SSTable::open(t.data_bytes(), &[]).is_none());
}
