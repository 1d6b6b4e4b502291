use record_index::dynamic_hash::DynamicHashTable;
use record_index::StoreError;

fn value_of(byte: u8) -> Vec<u8> {
    vec![byte; 96]
}

#[test]
fn new_table_is_empty_and_sentinel_filled() {
    let table = DynamicHashTable::new(3, String::from("index_a"));
    assert_eq!(table.get_size(), 0);
    assert_eq!(table.get_capacity(), 3);
    assert_eq!(table.file_image().len(), 300);
    // every slot holds the sentinel key 0xffffffff and the filler value
    let image = table.file_image();
    for p in 0..3usize {
        assert_eq!(&image[p * 100..p * 100 + 4], &[0xFF, 0xFF, 0xFF, 0xFF]);
        assert!(image[p * 100 + 4..p * 100 + 100].iter().all(|&b| b == 120));
    }
}

// Round trip: an inserted key reads back with its value.
#[test]
fn insert_then_read_key_returns_value() {
    let mut table = DynamicHashTable::new(4, String::from("index_b"));
    let v = value_of(b'q');
    table.insert(9, &v).expect("insert into empty page succeeds");
    assert_eq!(table.get_size(), 1);
    let item = table.read_key(9).expect("inserted key should be found");
    assert_eq!(item.key(), 9);
    assert_eq!(item.value(), &v);
}

// Post-removal miss: a removed key is no longer found.
#[test]
fn remove_key_then_read_key_misses() {
    let mut table = DynamicHashTable::new(4, String::from("index_c"));
    table.insert(9, &value_of(b'q')).unwrap();
    table.remove_key(9).expect("present key should be removable");
    assert_eq!(table.get_size(), 0);
    assert_eq!(table.read_key(9).unwrap_err(), StoreError::KeyNotFound);
    assert_eq!(table.remove_key(9).unwrap_err(), StoreError::KeyNotFound);
    // the freed slot (page 9 % 4 == 1) holds the sentinel key and the
    // filler value again, as the on-disk format demands
    let image = table.file_image();
    assert_eq!(&image[100..104], &[0xFF, 0xFF, 0xFF, 0xFF]);
    assert!(image[104..200].iter().all(|&b| b == 120));
}

// A stored key blocks its own page at every capacity, so a duplicate
// insert fails fast with GrowthFailure and changes nothing.
#[test]
fn duplicate_insert_fails_without_growing() {
    let mut table = DynamicHashTable::new(4, String::from("index_j"));
    table.insert(9, &value_of(b'q')).unwrap();
    let before = table.file_image().clone();
    assert_eq!(
        table.insert(9, &value_of(b'r')).unwrap_err(),
        StoreError::GrowthFailure
    );
    assert_eq!(table.get_capacity(), 4);
    assert_eq!(table.get_size(), 1);
    assert_eq!(table.file_image(), &before);
    assert_eq!(table.read_key(9).unwrap().value(), &value_of(b'q'));
}

#[test]
fn read_key_of_absent_key_fails() {
    let table = DynamicHashTable::new(5, String::from("index_d"));
    assert_eq!(table.read_key(2).unwrap_err(), StoreError::KeyNotFound);
}

// Keys 10..13 into a table of capacity 3 with one slot per page force
// at least one growth, and every key stays readable.
#[test]
fn page_overflow_grows_and_preserves_all_keys() {
    let mut table = DynamicHashTable::new(3, String::from("index_e"));
    let values: Vec<Vec<u8>> = vec![
        value_of(b'a'),
        value_of(b'b'),
        value_of(b'c'),
        value_of(b'd'),
    ];
    table.insert(10, &values[0]).unwrap();
    table.insert(11, &values[1]).unwrap();
    table.insert(12, &values[2]).unwrap();
    // 13 % 3 == 10 % 3: the page is full, so the table rehashes
    table.insert(13, &values[3]).unwrap();
    assert!(table.get_capacity() > 3);
    assert_eq!(table.get_size(), 4);
    for (i, key) in (10u32..14).enumerate() {
        let item = table.read_key(key).expect("grown table keeps every key");
        assert_eq!(item.key(), key);
        assert_eq!(item.value(), &values[i]);
    }
    // the file image keeps pace with the capacity
    assert_eq!(table.file_image().len(), table.get_capacity() * 100);
}

// Capacity monotonicity: growth and removals never shrink the table.
#[test]
fn capacity_never_decreases() {
    let mut table = DynamicHashTable::new(3, String::from("index_f"));
    let mut last = table.get_capacity();
    for key in [10u32, 11, 12, 13, 14, 15, 16] {
        table.insert(key, &value_of(b'x')).unwrap();
        assert!(table.get_capacity() >= last);
        last = table.get_capacity();
    }
    for key in [10u32, 11, 12, 13] {
        table.remove_key(key).unwrap();
        assert_eq!(table.get_capacity(), last);
    }
}

// Sentinel exclusion: the reserved key is never treated as stored, even
// though empty slots carry it on disk.
#[test]
fn sentinel_key_is_never_found() {
    let mut table = DynamicHashTable::new(3, String::from("index_g"));
    assert_eq!(table.read_key(0xFFFF_FFFF).unwrap_err(), StoreError::KeyNotFound);
    assert_eq!(table.remove_key(0xFFFF_FFFF).unwrap_err(), StoreError::KeyNotFound);
    table.insert(3, &value_of(b'z')).unwrap();
    assert_eq!(table.read_key(0xFFFF_FFFF).unwrap_err(), StoreError::KeyNotFound);
    assert_eq!(table.get_size(), 1);
}

#[test]
fn read_all_table_lists_every_slot() {
    let mut table = DynamicHashTable::new(3, String::from("index_h"));
    table.insert(4, &value_of(b'k')).unwrap();
    let slots = table.read_all_table();
    assert_eq!(slots.len(), table.get_capacity());
    let occupied: Vec<u32> = slots
        .iter()
        .map(|it| it.key())
        .filter(|&k| k != 0xFFFF_FFFF)
        .collect();
    assert_eq!(occupied, vec![4]);
    assert_eq!(slots[1].key(), 4);
    assert_eq!(slots[1].value(), &value_of(b'k'));
}

#[test]
fn hash_is_key_modulo_capacity() {
    let table = DynamicHashTable::new(3, String::from("index_i"));
    assert_eq!(table.hash(10), 1);
    assert_eq!(table.hash(12), 0);
    assert_eq!(table.hash(2), 2);
}
