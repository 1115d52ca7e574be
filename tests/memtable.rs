use lsm_engine::memtable::{MemTable, MemTableEntry};

fn prepare_memtable() -> MemTable {
    let mut table = MemTable::new();
    for i in 0..10u8 {
        table.set(&[i], &[i], 12);
    }
    table
}

fn keys_ascending(table: &MemTable) -> Vec<Vec<u8>> {
    let mut keys: Vec<Vec<u8>> = table.get_entries_reversed().into_iter().map(|e| e.key).collect();
    keys.reverse();
    keys
}

#[test]
fn memtable_create_memtable() {
    let table: MemTable = MemTable::new();
    assert_eq!(table.len(), 0);
    assert_eq!(table.size(), 0);
}

#[test]
fn memtable_do_search() {
    let table = prepare_memtable();
    let res = table.get_index(&vec![2][..]);
    assert!(res.is_ok());
    assert_eq!(res, Ok(2));
    assert_eq!(table.len(), 10);
}

#[test]
fn do_iter() {
    let table = prepare_memtable();
    let mut it = table.into_iter();
    let mut seen = 0;
    while let Some(entry) = it.next() {
        assert_eq!(entry.timestamp, 12);
        assert_eq!(entry.key, vec![seen]);
        seen += 1;
    }
    assert_eq!(seen, 10);
}

#[test]
fn create_memtable() {
    let table: MemTable = MemTable::new();
    assert!(table.get(&[0]).is_none());
}

#[test]
fn do_search() {
    let table = prepare_memtable();
    let res = table.get_index(&vec![2][..]);
    assert!(res.is_ok());
    assert!(table.get_index(&vec![12][..]).is_err());
}

#[test]
fn search_reports_insertion_point() {
    let mut table = MemTable::new();
    table.set(&[1], &[1], 1);
    table.set(&[5], &[5], 2);
    assert_eq!(table.get_index(&[0]), Err(0));
    assert_eq!(table.get_index(&[3]), Err(1));
    assert_eq!(table.get_index(&[9]), Err(2));
    assert_eq!(table.get_index(&[1, 0]), Err(1));
}

#[test]
fn read_after_write_returns_value() {
    let mut table = MemTable::new();
    table.set(&[1, 2, 3], &[9], 1);
    let e = table.get(&[1, 2, 3]).unwrap();
    assert_eq!(e.value, Some(vec![9]));
    assert_eq!(e.timestamp, 1);
    assert!(!e.deleted);
    assert!(table.get(&[1, 2]).is_none());
}

#[test]
fn overwrite_replaces_record() {
    let mut table = MemTable::new();
    table.set(&[4], &[1], 1);
    table.set(&[4], &[2, 2], 2);
    assert_eq!(table.len(), 1);
    let e = table.get(&[4]).unwrap();
    assert_eq!(e.value, Some(vec![2, 2]));
    assert_eq!(e.timestamp, 2);
}

#[test]
fn delete_leaves_tombstone_until_set_again() {
    let mut table = MemTable::new();
    table.set(&[7], &[1, 1], 1);
    table.delete(&[7], 2);
    table.set(&[8], &[3], 3);
    let e: &MemTableEntry = table.get(&[7]).unwrap();
    assert!(e.deleted);
    assert_eq!(e.value, None);
    assert_eq!(e.timestamp, 2);
    table.set(&[7], &[5], 4);
    let e = table.get(&[7]).unwrap();
    assert!(!e.deleted);
    assert_eq!(e.value, Some(vec![5]));
}

#[test]
fn delete_of_absent_key_inserts_tombstone() {
    let mut table = MemTable::new();
    table.delete(&[3, 3], 5);
    let e = table.get(&[3, 3]).unwrap();
    assert!(e.deleted);
    assert_eq!(table.size(), 2 + 17);
}

#[test]
fn keys_stay_sorted_whatever_the_order_of_writes() {
    let mut table = MemTable::new();
    let keys: Vec<Vec<u8>> = vec![
        vec![5],
        vec![1, 2],
        vec![1],
        vec![9, 9, 9],
        vec![],
        vec![1, 2],
        vec![0, 255],
        vec![5, 0],
    ];
    for (t, k) in keys.iter().enumerate() {
        if t % 3 == 2 {
            table.delete(k, t as u128);
        } else {
            table.set(k, &[t as u8], t as u128);
        }
    }
    let got = keys_ascending(&table);
    let mut expected = keys.clone();
    expected.sort();
    expected.dedup();
    assert_eq!(got, expected);
}

#[test]
fn size_estimate_follows_resident_records() {
    let mut table = MemTable::new();
    table.set(&[1, 2, 3], &[9], 1);
    assert_eq!(table.size(), 3 + 1 + 17);
    table.set(&[1, 2, 3], &[9, 9], 2);
    assert_eq!(table.size(), 3 + 2 + 17);
    table.delete(&[1, 2, 3], 3);
    assert_eq!(table.size(), 3 + 17);
    table.set(&[1, 2, 3], &[7, 7, 7], 4);
    assert_eq!(table.size(), 3 + 3 + 17);
    table.set(&[4], &[], 5);
    assert_eq!(table.size(), 3 + 3 + 17 + 1 + 17);
}

#[test]
fn entries_reversed_is_descending() {
    let table = prepare_memtable();
    let rev = table.get_entries_reversed();
    assert_eq!(rev.len(), 10);
    assert_eq!(rev[0].key, vec![9]);
    assert_eq!(rev[9].key, vec![0]);
}
