use lsm_engine::data::{Data, DataIterator};
use lsm_engine::entry::Entry;

fn create_entry() -> Entry {
    Entry {
        key: vec![1, 2, 3],
        value: Some(vec![9]),
        timestamp: 1,
        deleted: false,
    }
}

#[test]
fn test_get_entry_from_data() {
    let mut data = Data::new();
    let entry = create_entry();
    data.write(&entry);
    let return_value = data.get(&entry.key.as_slice());
    assert!(return_value.is_some());
}

#[test]
fn test_size_of_entry() {
    let mut data = Data::new();
    let entry = create_entry();
    data.write(&entry);
    let offset = data.get_offset();
    let entry_size = std::mem::size_of::<usize>() * 2 + 16 + 1 + 3 + 1;
    assert_ne!(offset, 0);
    assert_eq!(offset, entry_size);
}

#[test]
fn live_record_bytes_are_exact() {
    let mut data = Data::new();
    data.write(&Entry { key: vec![0xAA, 0xBB], value: Some(vec![7]), timestamp: 0x0102, deleted: false });
    let mut expected = vec![2, 0, 0, 0, 0, 0, 0, 0, 0, 1, 0, 0, 0, 0, 0, 0, 0, 0xAA, 0xBB, 7];
    let mut ts = vec![0u8; 16];
    ts[0] = 0x02;
    ts[1] = 0x01;
    expected.extend(ts);
    assert_eq!(data.as_bytes(), &expected[..]);
}

#[test]
fn tombstone_bytes_carry_no_value() {
    let mut data = Data::new();
    data.write(&Entry { key: vec![5], value: Some(vec![9]), timestamp: u128::MAX, deleted: true });
    let mut expected = vec![1, 0, 0, 0, 0, 0, 0, 0, 1, 5];
    expected.extend(vec![0xFFu8; 16]);
    assert_eq!(data.as_bytes(), &expected[..]);
    let e = data.get(&[5]).unwrap();
    assert!(e.deleted);
    assert_eq!(e.value, None);
    assert_eq!(e.timestamp, u128::MAX);
}

#[test]
fn iterator_reads_back_in_order_and_stops_at_torn_tail() {
    let mut data = Data::new();
    for i in 0..3u8 {
        data.write(&Entry { key: vec![i], value: Some(vec![i, i]), timestamp: i as u128, deleted: false });
    }
    let mut bytes = data.as_bytes().to_vec();
    bytes.extend(vec![1, 0, 0]);
    let mut it = DataIterator::new(bytes.clone());
    for i in 0..3u8 {
        let e = it.next().unwrap();
        assert_eq!(e.key, vec![i]);
        assert_eq!(e.value, Some(vec![i, i]));
        assert_eq!(e.timestamp, i as u128);
    }
    assert!(it.next().is_none());
    let reopened = Data::from_bytes(&bytes);
    assert_eq!(reopened.get_offset(), data.get_offset());
    assert!(reopened.get(&[2]).is_some());
}

#[test]
fn get_misses_absent_key() {
    let mut data = Data::new();
    data.write(&create_entry());
    assert!(data.get(&[1, 2]).is_none());
}
