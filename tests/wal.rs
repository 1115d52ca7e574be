use lsm_engine::data::DataIterator;
use lsm_engine::wal::WAL;

#[test]
fn test_write_to_wal() {
    let mut wal = WAL::new();
    wal.set(&[1, 2, 3], &[9], 1);
    assert!(!wal.is_empty());
    let bytes = wal.flush();
    let mut it = DataIterator::new(bytes);
    let e = it.next().unwrap();
    assert_eq!(e.key, vec![1, 2, 3]);
    assert_eq!(e.value, Some(vec![9]));
    assert!(it.next().is_none());
}

#[test]
fn flush_hands_out_each_byte_once() {
    let mut wal = WAL::new();
    wal.set(&[1], &[1], 1);
    let first = wal.flush();
    assert_eq!(first.len(), 8 + 1 + 8 + 1 + 1 + 16);
    assert!(wal.flush().is_empty());
    wal.delete(&[1], 2);
    assert_eq!(wal.flush().len(), 8 + 1 + 1 + 16);
}

#[test]
fn replay_rebuilds_the_buffer_of_the_logged_writes() {
    let mut wal = WAL::new();
    wal.set(&[2], &[20], 1);
    wal.set(&[1], &[10], 2);
    wal.delete(&[2], 3);
    wal.set(&[3], &[30], 4);
    wal.set(&[1], &[11], 5);
    let log = wal.flush();
    let (mut fresh, mem) = WAL::replay(&vec![log.clone()]);
    assert_eq!(mem.len(), 3);
    assert_eq!(mem.get(&[1]).unwrap().value, Some(vec![11]));
    assert!(mem.get(&[2]).unwrap().deleted);
    assert_eq!(mem.get(&[3]).unwrap().timestamp, 4);
    assert_eq!(fresh.flush(), log);
}

#[test]
fn replay_takes_logs_in_order_and_stops_at_a_torn_tail() {
    let mut a = WAL::new();
    a.set(&[1], &[1], 1);
    a.set(&[2], &[2], 2);
    let mut first = a.flush();
    let mut b = WAL::new();
    b.set(&[1], &[9], 3);
    let second = b.flush();
    first.extend(vec![4, 0, 0, 0, 0]);
    let (_, mem) = WAL::replay(&vec![first, second]);
    assert_eq!(mem.len(), 2);
    assert_eq!(mem.get(&[1]).unwrap().value, Some(vec![9]));
    assert_eq!(mem.get(&[2]).unwrap().value, Some(vec![2]));
}

#[test]
fn replay_of_nothing_is_empty() {
    let (wal, mem) = WAL::replay(&Vec::new());
    assert!(wal.is_empty());
    assert_eq!(mem.len(), 0);
}
