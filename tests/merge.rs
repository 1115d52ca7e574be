use lsm_engine::entry::Entry;
use lsm_engine::merge::MergeError;
use lsm_engine::sstable::SSTable;

fn create_sstable_entry(key: Vec<u8>, timestamp: u128, deleted: bool) -> Entry {
    Entry {
        key,
        value: Some(vec![9]),
        timestamp,
        deleted,
    }
}

fn count(t: SSTable) -> usize {
    let mut it = t.into_iter();
    let mut n = 0;
    while it.next().is_some() {
        n += 1;
    }
    n
}

#[test]
fn test_deleted_records_no_longer_in_sstable() {
    let entry = create_sstable_entry(vec![1], 0, false);
    let mut sstable_a = SSTable::new();
    sstable_a.write(&entry);
    let mut sstable_b = SSTable::new();
    let entry = create_sstable_entry(vec![1], 1, true);
    sstable_b.write(&entry);
    let merged = sstable_a.merge(sstable_b).ok().unwrap();
    assert_eq!(count(merged), 0);
}

#[test]
fn test_records_are_merged_in_order() {
    let mut sstable_a = SSTable::new();
    for i in (1..10).step_by(2) {
        let entry = create_sstable_entry(vec![i], i.into(), false);
        sstable_a.write(&entry);
    }
    let mut sstable_b = SSTable::new();
    for i in (0..9).step_by(2) {
        let entry = create_sstable_entry(vec![i], i.into(), false);
        sstable_b.write(&entry);
    }
    let merged = sstable_a.merge(sstable_b).ok().unwrap();
    let mut it = merged.into_iter();
    let mut i = 0usize;
    while let Some(entry) = it.next() {
        assert_eq!(i, usize::try_from(entry.timestamp).unwrap());
        i += 1;
    }
    assert_eq!(i, 10);
}

#[test]
fn newer_live_record_wins_either_side() {
    let mut a = SSTable::new();
    a.set(&[1], &[10], 5);
    a.set(&[2], &[20], 1);
    let mut b = SSTable::new();
    b.set(&[1], &[11], 3);
    b.set(&[2], &[21], 4);
    let m = a.merge(b).unwrap();
    assert_eq!(m.get(&[1]).unwrap().value, Some(vec![10]));
    assert_eq!(m.get(&[2]).unwrap().value, Some(vec![21]));
    assert_eq!(count(m), 2);
}

#[test]
fn newer_tombstone_removes_key_older_tombstone_does_not() {
    let mut a = SSTable::new();
    a.delete(&[1], 9);
    a.delete(&[2], 1);
    let mut b = SSTable::new();
    b.set(&[1], &[1], 2);
    b.set(&[2], &[2], 3);
    let m = a.merge(b).unwrap();
    assert!(m.get(&[1]).is_none());
    assert_eq!(m.get(&[2]).unwrap().value, Some(vec![2]));
}

#[test]
fn tombstone_of_a_key_in_one_segment_only_is_kept() {
    let mut a = SSTable::new();
    a.delete(&[3], 1);
    let b = SSTable::new();
    let m = a.merge(b).unwrap();
    let e = m.get(&[3]).unwrap();
    assert!(e.deleted);
}

#[test]
fn equal_timestamps_abandon_the_merge() {
    let mut a = SSTable::new();
    a.set(&[1], &[1], 7);
    let mut b = SSTable::new();
    b.set(&[1], &[2], 7);
    assert_eq!(a.merge(b).err(), Some(MergeError::EqualTimestamps));
}

#[test]
fn disjoint_segments_merge_into_sorted_union() {
    let mut a = SSTable::new();
    a.set(&[1], &[1], 1);
    a.set(&[1, 5], &[2], 2);
    let mut b = SSTable::new();
    b.set(&[0], &[3], 3);
    b.set(&[1, 0], &[4], 4);
    b.set(&[2], &[5], 5);
    let m = a.merge(b).unwrap();
    let mut it = m.into_iter();
    let mut keys = Vec::new();
    while let Some(e) = it.next() {
        keys.push(e.key);
    }
    assert_eq!(keys, vec![vec![0], vec![1], vec![1, 0], vec![1, 5], vec![2]]);
}
