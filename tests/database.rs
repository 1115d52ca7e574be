use lsm_engine::data::DataIterator;
use lsm_engine::database::Database;
use lsm_engine::memtable::MemTableEntry;
use lsm_engine::sstable::SSTable;

fn create_database() -> Database {
    Database::new()
}

fn create_memtable_entry() -> MemTableEntry {
    MemTableEntry {
        key: vec![1, 2, 3],
        value: Some(vec![9]),
        timestamp: 1,
        deleted: false,
    }
}

fn write_entry_to_sstable(sstable: &mut SSTable, entry: &MemTableEntry) {
    sstable.set(
        entry.key.as_slice(),
        entry.value.as_ref().unwrap().as_slice(),
        entry.timestamp,
    );
}

fn write_entry_to_db(db: &mut Database, entry: &MemTableEntry) {
    db.set(
        entry.key.as_slice(),
        entry.value.as_ref().unwrap().as_slice(),
        entry.timestamp,
    )
    .ok();
}

#[test]
fn test_read_after_write() {
    let mut db = create_database();
    let entry = create_memtable_entry();
    write_entry_to_db(&mut db, &entry);
    let db_entry = db.get(&entry.key.as_slice()).unwrap();
    assert_eq!(&entry.value.unwrap(), db_entry.value.as_ref().unwrap());
}

#[test]
fn test_sstable_path_is_added_on_flush() {
    let mut db = create_database();
    let entry = create_memtable_entry();
    write_entry_to_db(&mut db, &entry);
    db.flush();
    assert_eq!(db.segment_count(), 1);
}

#[test]
fn test_memtable_is_empty_after_flush() {
    let mut db = create_database();
    let entry = create_memtable_entry();
    write_entry_to_db(&mut db, &entry);
    db.flush();
    assert_eq!(db.memtable_size(), 0);
}

#[test]
fn test_wal_is_empty_after_flush() {
    let mut db = create_database();
    let entry = create_memtable_entry();
    write_entry_to_db(&mut db, &entry);
    db.flush();
    assert!(db.wal_is_empty());
    let mut it = DataIterator::new(db.take_log());
    let mut n = 0;
    while it.next().is_some() {
        n += 1;
    }
    assert_eq!(n, 0);
}

#[test]
fn test_items_from_database_and_sstable_are_identical() {
    let mut db = create_database();
    let mut sstable = SSTable::new();
    let entry = create_memtable_entry();
    write_entry_to_db(&mut db, &entry);
    write_entry_to_sstable(&mut sstable, &entry);
    db.flush();
    let item = sstable.get(entry.key.as_slice());
    assert_eq!(entry.value.unwrap(), item.unwrap().value.unwrap());
    let (data, index) = db.segment_bytes(0);
    assert_eq!(data, sstable.data_bytes());
    assert_eq!(index, sstable.index_bytes());
}

#[test]
fn test_scan_sstable_for_entries_when_not_found_in_memtable() {
    let mut db = create_database();
    let entry = create_memtable_entry();
    write_entry_to_db(&mut db, &entry);
    db.flush();
    assert!(db.get(&entry.key.as_slice()).is_some());
}

#[test]
fn test_scanning_sstables_for_non_existent_entry_returns_none() {
    let mut db = create_database();
    let entry = create_memtable_entry();
    write_entry_to_db(&mut db, &entry);
    db.flush();
    let key = vec![0, 0, 0, 0];
    assert_ne!(key.as_slice(), entry.key.as_slice());
    assert!(db.get(key.as_slice()).is_none());
}

#[test]
fn set_flush_get_returns_value() {
    let mut db = Database::new();
    db.set(&[1, 2, 3], &[9], 1).unwrap();
    db.flush();
    let e = db.get(&[1, 2, 3]).unwrap();
    assert_eq!(e.value, Some(vec![9]));
    assert_eq!(e.timestamp, 1);
}

#[test]
fn newest_segment_wins_and_buffer_wins_over_segments() {
    let mut db = Database::new();
    db.set(&[1], &[1], 1).unwrap();
    db.set(&[2], &[2], 2).unwrap();
    db.flush();
    db.set(&[1], &[3], 3).unwrap();
    db.flush();
    assert_eq!(db.get(&[1]).unwrap().value, Some(vec![3]));
    assert_eq!(db.get(&[2]).unwrap().value, Some(vec![2]));
    db.delete(&[2], 4).unwrap();
    let e = db.get(&[2]).unwrap();
    assert!(e.deleted);
    assert_eq!(e.value, None);
}

#[test]
fn log_holds_each_write_once() {
    let mut db = Database::new();
    db.set(&[1], &[1], 1).unwrap();
    db.delete(&[1], 2).unwrap();
    let bytes = db.take_log();
    let mut it = DataIterator::new(bytes);
    assert_eq!(it.next().unwrap().timestamp, 1);
    assert!(it.next().unwrap().deleted);
    assert!(it.next().is_none());
    assert!(db.take_log().is_empty());
}

#[test]
fn staged_record_is_what_the_log_takes_in() {
    let mut db = Database::new();
    let staged = db.stage_set(&[1, 2], &[3], 4).unwrap();
    db.set(&[1, 2], &[3], 4).unwrap();
    assert_eq!(db.take_log(), staged);
    let staged = db.stage_delete(&[1, 2], 5).unwrap();
    assert_eq!(staged.len(), 8 + 1 + 2 + 16);
    db.delete(&[1, 2], 5).unwrap();
    assert_eq!(db.take_log(), staged);
}

#[test]
fn built_segment_is_the_one_flush_keeps() {
    let mut db = Database::new();
    db.set(&[2], &[2], 1).unwrap();
    db.set(&[1], &[1], 2).unwrap();
    let built = db.build_segment();
    assert_eq!(db.segment_count(), 0);
    db.flush();
    let (data, index) = db.segment_bytes(0);
    assert_eq!(data, built.data_bytes());
    assert_eq!(index, built.index_bytes());
}
