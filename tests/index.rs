use lsm_engine::entry::Entry;
use lsm_engine::index::{Index, IndexIterator};

fn create_entry() -> Entry {
    Entry {
        key: vec![1, 2, 3],
        value: Some(vec![9]),
        timestamp: 1,
        deleted: false,
    }
}

#[test]
fn test_get_offset_from_index() {
    let mut index = Index::new();
    let entry = create_entry();
    index.write(&entry, 0);
    let result_offset = index.get(&entry.key.as_slice());
    assert!(result_offset.is_some());
    assert_eq!(result_offset, Some(0));
}

#[test]
fn index_record_bytes_are_exact() {
    let mut index = Index::new();
    index.write(&create_entry(), 300);
    let expected = vec![3, 0, 0, 0, 0, 0, 0, 0, 1, 2, 3, 44, 1, 0, 0, 0, 0, 0, 0];
    assert_eq!(index.as_bytes(), &expected[..]);
    let (e, next) = Index::read(index.as_bytes(), 0).unwrap();
    assert_eq!(e.key, vec![1, 2, 3]);
    assert_eq!(e.offset, 300);
    assert_eq!(next, expected.len());
}

#[test]
fn index_iterator_reads_all_records() {
    let mut index = Index::new();
    for i in 0..4u8 {
        index.write(&Entry { key: vec![i], value: None, timestamp: 0, deleted: true }, 100 * i as usize);
    }
    let mut it = IndexIterator::new(index.as_bytes().to_vec());
    for i in 0..4u8 {
        let e = it.next().unwrap();
        assert_eq!(e.key, vec![i]);
        assert_eq!(e.offset, 100 * i as usize);
    }
    assert!(it.next().is_none());
    assert_eq!(index.get(&[3]), Some(300));
    assert_eq!(index.get(&[4]), None);
}

#[test]
fn read_resumes_after_the_record_and_refuses_a_cut_short_one() {
    let mut index = Index::new();
    index.write(&create_entry(), 7);
    index.write(&Entry { key: vec![4, 4], value: None, timestamp: 0, deleted: true }, 90);
    let bytes = index.as_bytes().to_vec();
    let (first, next) = Index::read(&bytes, 0).unwrap();
    assert_eq!(first.key, vec![1, 2, 3]);
    assert_eq!(next, 16 + 3);
    let (second, end) = Index::read(&bytes, next).unwrap();
    assert_eq!(second.key, vec![4, 4]);
    assert_eq!(second.offset, 90);
    assert_eq!(end, bytes.len());
    assert!(Index::read(&bytes[..bytes.len() - 1], next).is_none());
    assert!(Index::read(&bytes, end).is_none());
}
