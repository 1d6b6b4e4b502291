use record_index::memory_hash::MemoryHashTable;
use record_index::StoreError;

fn value_of(byte: u8) -> Vec<u8> {
    vec![byte; 96]
}

// One entry in, read back, removed, missed afterwards; a snapshot
// taken before the removal restores the remaining entries exactly.
#[test]
fn insert_get_remove_then_snapshot_round_trip() {
    let mut table = MemoryHashTable::new(3);
    let v = value_of(b'v');
    table.insert(40, v.clone());
    assert_eq!(table.get(40).expect("inserted key should be found"), &v);
    // keep company for the snapshot below
    table.insert(41, value_of(b'w'));
    table.insert(42, value_of(b'u'));
    table.remove(40).expect("present key should be removable");
    assert_eq!(table.get(40).unwrap_err(), StoreError::KeyNotFound);
    assert_eq!(table.remove(40).unwrap_err(), StoreError::KeyNotFound);
    let blob = table.snapshot_bytes();
    let restored = MemoryHashTable::restore(&blob).expect("own snapshot should decode");
    assert_eq!(restored.get_size(), table.get_size());
    assert_eq!(restored.get_capacity(), table.get_capacity());
    assert_eq!(restored.get(41).unwrap(), &value_of(b'w'));
    assert_eq!(restored.get(42).unwrap(), &value_of(b'u'));
    assert_eq!(restored.get(40).unwrap_err(), StoreError::KeyNotFound);
}

// Round trip: every inserted key reads back with its value until it is
// removed.
#[test]
fn get_returns_each_inserted_value() {
    let mut table = MemoryHashTable::new(4);
    for key in 0u32..8 {
        table.insert(key, value_of(b'a' + key as u8));
    }
    for key in 0u32..8 {
        assert_eq!(table.get(key).unwrap(), &value_of(b'a' + key as u8));
    }
    assert_eq!(table.get_size(), 8);
}

// Growth preserves membership: crossing the load-factor threshold
// doubles the capacity and keeps every entry readable.
#[test]
fn growth_preserves_membership() {
    let mut table = MemoryHashTable::new(4);
    let mut last = table.get_capacity();
    assert_eq!(last, 4);
    for key in 0u32..20 {
        table.insert(key, value_of(b'0' + (key % 10) as u8));
        // capacity monotonicity along the way
        assert!(table.get_capacity() >= last);
        last = table.get_capacity();
    }
    // 20 entries over threshold 3/4 forced growth beyond 4 buckets
    assert!(table.get_capacity() > 4);
    for key in 0u32..20 {
        assert_eq!(table.get(key).unwrap(), &value_of(b'0' + (key % 10) as u8));
    }
}

#[test]
fn explicit_grow_keeps_entries_and_doubles_capacity() {
    let mut table = MemoryHashTable::new(3);
    table.insert(1, value_of(b'x'));
    table.insert(2, value_of(b'y'));
    table.grow();
    assert_eq!(table.get_capacity(), 6);
    assert_eq!(table.get_size(), 2);
    assert_eq!(table.get(1).unwrap(), &value_of(b'x'));
    assert_eq!(table.get(2).unwrap(), &value_of(b'y'));
}

// The documented multiset quirk: a duplicate insert appends a second
// entry; a lookup sees the older one, and one removal uncovers the
// younger one.
#[test]
fn duplicate_keys_stack_oldest_first() {
    let mut table = MemoryHashTable::new(5);
    table.insert(7, value_of(b'1'));
    table.insert(7, value_of(b'2'));
    assert_eq!(table.get_size(), 2);
    assert_eq!(table.get(7).unwrap(), &value_of(b'1'));
    table.remove(7).unwrap();
    assert_eq!(table.get(7).unwrap(), &value_of(b'2'));
    table.remove(7).unwrap();
    assert_eq!(table.get(7).unwrap_err(), StoreError::KeyNotFound);
    assert_eq!(table.get_size(), 0);
}

#[test]
fn hash_stays_in_range() {
    let table = MemoryHashTable::new(7);
    for key in [0u32, 1, 41, 0xFFFF_FFFF] {
        assert!(table.hash(key) < 7);
    }
}

#[test]
fn restore_rejects_malformed_blobs() {
    // shorter than the header
    let short = vec![1u8, 2, 3];
    assert_eq!(
        MemoryHashTable::restore(&short).unwrap_err(),
        StoreError::DecodeFailure
    );
    // zero capacity
    let zero_cap = vec![0u8, 0, 0, 0, 0, 0, 0, 0];
    assert_eq!(
        MemoryHashTable::restore(&zero_cap).unwrap_err(),
        StoreError::DecodeFailure
    );
    // length that does not match the entry count
    let mut bad_len = vec![0u8, 0, 0, 2, 0, 0, 0, 1];
    bad_len.extend(std::iter::repeat(0u8).take(50));
    assert_eq!(
        MemoryHashTable::restore(&bad_len).unwrap_err(),
        StoreError::DecodeFailure
    );
}

#[test]
fn snapshot_of_empty_table_restores_empty() {
    let table = MemoryHashTable::new(2);
    let blob = table.snapshot_bytes();
    assert_eq!(blob.len(), 8);
    let restored = MemoryHashTable::restore(&blob).unwrap();
    assert_eq!(restored.get_size(), 0);
    assert_eq!(restored.get_capacity(), 2);
    assert_eq!(restored.get(0).unwrap_err(), StoreError::KeyNotFound);
}
