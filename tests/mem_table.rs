use mini_lsm::mem_table::{FlushError, KeyBound, MemTable};
use mini_lsm::table_builder::SsTableBuilder;

fn filled() -> MemTable {
    let mut memtable = MemTable::create(0);
    memtable.for_testing_put_slice(b"key1", b"value1");
    memtable.for_testing_put_slice(b"key2", b"value2");
    memtable.for_testing_put_slice(b"key3", b"value3");
    memtable
}

#[test]
fn test_scan_concurrent_insert() {
    let mut memtable = filled();
    let mut iter = memtable.for_testing_scan_slice(KeyBound::Unbounded, KeyBound::Unbounded);
    assert_eq!(iter.key(), b"key1");
    assert_eq!(iter.value(), b"value1");
    assert!(iter.is_valid());
    iter.next(&memtable);
    assert_eq!(iter.key(), b"key2");
    assert_eq!(iter.value(), b"value2");
    assert!(iter.is_valid());
    iter.next(&memtable);
    assert_eq!(iter.key(), b"key3");
    assert_eq!(iter.value(), b"value3");
    assert!(iter.is_valid());
    iter.next(&memtable);
    assert!(!iter.is_valid());
    memtable.for_testing_put_slice(b"key4", b"value4");
    iter.next(&memtable);
    assert!(iter.is_valid());
    assert_eq!(iter.key(), b"key4");
    assert_eq!(iter.value(), b"value4");
    iter.next(&memtable);
    assert!(!iter.is_valid());
}

#[test]
fn test_scan_range() {
    let memtable = filled();
    {
        let mut iter = memtable.for_testing_scan_range_slice(..);
        assert_eq!(iter.key(), b"key1");
        assert_eq!(iter.value(), b"value1");
        assert!(iter.is_valid());
        iter.next(&memtable);
        assert_eq!(iter.key(), b"key2");
        assert_eq!(iter.value(), b"value2");
        assert!(iter.is_valid());
        iter.next(&memtable);
        assert_eq!(iter.key(), b"key3");
        assert_eq!(iter.value(), b"value3");
        assert!(iter.is_valid());
        iter.next(&memtable);
        assert!(!iter.is_valid());
    }
    {
        let mut iter = memtable.for_testing_scan_range_slice(b"key1"..b"key2");
        assert_eq!(iter.key(), b"key1");
        assert_eq!(iter.value(), b"value1");
        assert!(iter.is_valid());
        iter.next(&memtable);
        assert!(!iter.is_valid());
    }
    {
        let mut iter = memtable.for_testing_scan_range_slice(b"key1"..=b"key2");
        assert_eq!(iter.key(), b"key1");
        assert_eq!(iter.value(), b"value1");
        assert!(iter.is_valid());
        iter.next(&memtable);
        assert_eq!(iter.key(), b"key2");
        assert_eq!(iter.value(), b"value2");
        assert!(iter.is_valid());
        iter.next(&memtable);
        assert!(!iter.is_valid());
    }
}

#[test]
fn scan_with_key_bounds() {
    let memtable = filled();
    {
        let mut iter = memtable.for_testing_scan_slice(KeyBound::Unbounded, KeyBound::Unbounded);
        assert_eq!(iter.key(), b"key1");
        assert_eq!(iter.value(), b"value1");
        assert!(iter.is_valid());
        iter.next(&memtable);
        assert_eq!(iter.key(), b"key2");
        assert_eq!(iter.value(), b"value2");
        assert!(iter.is_valid());
        iter.next(&memtable);
        assert_eq!(iter.key(), b"key3");
        assert_eq!(iter.value(), b"value3");
        assert!(iter.is_valid());
        iter.next(&memtable);
        assert!(!iter.is_valid());
    }
    {
        let mut iter = memtable.for_testing_scan_slice(
            KeyBound::Included(b"key1".to_vec()),
            KeyBound::Excluded(b"key2".to_vec()),
        );
        assert_eq!(iter.key(), b"key1");
        assert_eq!(iter.value(), b"value1");
        assert!(iter.is_valid());
        iter.next(&memtable);
        assert!(!iter.is_valid());
    }
    {
        let mut iter = memtable.for_testing_scan_slice(
            KeyBound::Included(b"key1".to_vec()),
            KeyBound::Included(b"key2".to_vec()),
        );
        assert_eq!(iter.key(), b"key1");
        assert_eq!(iter.value(), b"value1");
        assert!(iter.is_valid());
        iter.next(&memtable);
        assert_eq!(iter.key(), b"key2");
        assert_eq!(iter.value(), b"value2");
        assert!(iter.is_valid());
        iter.next(&memtable);
        assert!(!iter.is_valid());
    }
}

#[test]
fn scan_excluded_lower_bound() {
    let memtable = filled();
    let mut iter = memtable.scan(KeyBound::Excluded(b"key1".to_vec()), KeyBound::Unbounded);
    assert_eq!(iter.key(), b"key2");
    iter.next(&memtable);
    assert_eq!(iter.key(), b"key3");
    iter.next(&memtable);
    assert!(!iter.is_valid());
}

#[test]
fn scan_empty_range_is_invalid() {
    let memtable = filled();
    let iter = memtable.scan(KeyBound::Included(b"key4".to_vec()), KeyBound::Unbounded);
    assert!(!iter.is_valid());
    let empty = MemTable::create(1);
    assert!(!empty.scan(KeyBound::Unbounded, KeyBound::Unbounded).is_valid());
}

#[test]
fn scan_emits_ascending_keys() {
    let mut memtable = MemTable::create(0);
    for k in [b"m".as_slice(), b"a", b"zz", b"ab", b"z", b"b"] {
        memtable.put(k, b"v");
    }
    let mut iter = memtable.scan(KeyBound::Unbounded, KeyBound::Unbounded);
    let mut keys: Vec<Vec<u8>> = Vec::new();
    while iter.is_valid() {
        keys.push(iter.key().to_vec());
        iter.next(&memtable);
    }
    let expected: Vec<Vec<u8>> =
        vec![b"a".to_vec(), b"ab".to_vec(), b"b".to_vec(), b"m".to_vec(), b"z".to_vec(), b"zz".to_vec()];
    assert_eq!(keys, expected);
}

#[test]
fn last_writer_wins() {
    let mut memtable = MemTable::create(0);
    memtable.put(b"k", b"v1");
    memtable.put(b"k", b"v2");
    assert_eq!(memtable.get(b"k"), Some(b"v2".to_vec()));
    assert_eq!(memtable.for_testing_get_slice(b"other"), None);
}

#[test]
fn empty_value_is_stored() {
    let mut memtable = MemTable::create(0);
    memtable.put(b"k", b"");
    assert_eq!(memtable.get(b"k"), Some(Vec::new()));
}

#[test]
fn approximate_size_counts_every_put() {
    let mut memtable = MemTable::create(7);
    assert_eq!(memtable.id(), 7);
    assert!(memtable.is_empty());
    assert_eq!(memtable.approximate_size(), 0);
    memtable.put(b"key1", b"value1");
    assert_eq!(memtable.approximate_size(), 10);
    memtable.put(b"key1", b"v");
    assert_eq!(memtable.approximate_size(), 15);
    assert!(!memtable.is_empty());
}

#[test]
fn flush_feeds_builder_in_key_order() {
    let mut memtable = MemTable::create(0);
    memtable.put(b"b", b"2");
    memtable.put(b"a", b"1");
    memtable.put(b"c", b"3");
    memtable.put(b"a", b"10");
    let mut builder = SsTableBuilder::new(4096);
    assert!(builder.is_empty());
    assert!(memtable.flush(&mut builder).is_ok());
    assert!(!builder.is_empty());
    let table = builder.build::<()>(1, None);
    assert_eq!(table.first_key, b"a".to_vec());
    assert_eq!(table.last_key, b"c".to_vec());
    // one block: entries a=10, b=2, c=3, compressed against "a"
    let data: Vec<u8> = vec![
        0, 0, 1, 0, b'a', 2, 0, b'1', b'0', //
        0, 0, 1, 0, b'b', 1, 0, b'2', //
        0, 0, 1, 0, b'c', 1, 0, b'3',
    ];
    assert_eq!(&table.file[..data.len()], &data[..]);
}

#[test]
fn flush_rejects_oversized_entry() {
    let mut memtable = MemTable::create(0);
    memtable.put(&vec![b'k'; 70000], b"v");
    let mut builder = SsTableBuilder::new(4096);
    assert!(matches!(memtable.flush(&mut builder), Err(FlushError::EntryTooLarge)));
    assert!(builder.is_empty());
}
