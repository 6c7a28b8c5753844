//! Sorted-map tests: the split layout, binary search and
//! last-write-wins lookups.

use regionstore::io::Io;
use regionstore::map::{EntryCount, EntryRef, LsmMap, MapError, RecordIndex, RecordOffset};
use regionstore::mem_io::MemIo;
use regionstore::CollectionId;

fn fresh_io(data_size: usize, region_count: usize) -> Io {
    let mem_io = MemIo::new(data_size, 8, region_count).expect("Failed to create MemIo");
    Io::init(mem_io, data_size, region_count).expect("Failed to initialize Io")
}

#[test]
fn test_map_insert_then_get() {
    let mut io = fresh_io(2048, 4);
    let buffer = vec![0u8; 2048];
    let mut map = LsmMap::init(&mut io, CollectionId(1), buffer).expect("Failed to create map");

    map.insert(&mut io, 31337, 42).expect("insert failed");
    map.insert(&mut io, 31415, 17).expect("insert failed");

    assert_eq!(map.get(31337).expect("get failed"), Some(42));
    assert_eq!(map.get(31415).expect("get failed"), Some(17));
}

#[test]
fn test_map_last_write_wins() {
    let mut io = fresh_io(2048, 4);
    let buffer = vec![0u8; 2048];
    let mut map = LsmMap::init(&mut io, CollectionId(1), buffer).expect("Failed to create map");

    map.insert(&mut io, 5, 1).expect("insert failed");
    map.insert(&mut io, 9, 7).expect("insert failed");
    map.insert(&mut io, 5, 2).expect("insert failed");

    assert_eq!(map.get(5).expect("get failed"), Some(2));
    assert_eq!(map.get(9).expect("get failed"), Some(7));
}

#[test]
fn test_map_get_absent() {
    let mut io = fresh_io(2048, 4);
    let buffer = vec![0u8; 2048];
    let mut map = LsmMap::init(&mut io, CollectionId(1), buffer).expect("Failed to create map");

    assert_eq!(map.get(1).expect("get failed"), None);
    map.insert(&mut io, 2, 20).expect("insert failed");
    assert_eq!(map.get(1).expect("get failed"), None);
    assert_eq!(map.get(3).expect("get failed"), None);
}

#[test]
fn test_map_many_keys_sorted_lookup() {
    // Inserts in arbitrary order; every key still resolves to the
    // value of its last insert.
    let mut io = fresh_io(4096, 4);
    let buffer = vec![0u8; 4096];
    let mut map = LsmMap::init(&mut io, CollectionId(1), buffer).expect("Failed to create map");

    let keys = [50u64, 10, 90, 30, 70, 20, 80, 40, 60, 100];
    for (i, key) in keys.iter().enumerate() {
        map.insert(&mut io, *key, i as u64).expect("insert failed");
    }
    for (i, key) in keys.iter().enumerate() {
        assert_eq!(map.get(*key).expect("get failed"), Some(i as u64));
    }
}

#[test]
fn test_map_insert_no_space() {
    // A 24-byte buffer cannot hold the count, a record and its index
    // slot.
    let mut io = fresh_io(256, 4);
    let buffer = vec![0u8; 24];
    let mut map = LsmMap::init(&mut io, CollectionId(1), buffer).expect("Failed to create map");

    let result = map.insert(&mut io, 1, 2);
    assert!(matches!(result, Err(MapError::SerializationError)));
    assert_eq!(map.get(1).expect("get failed"), None);
}

#[test]
fn test_entry_ref_write_read() {
    let mut buffer = vec![0u8; 80];
    EntryRef::write(&mut buffer, RecordIndex(0), RecordOffset(5), RecordOffset(21))
        .expect("write failed");
    EntryRef::write(&mut buffer, RecordIndex(2), RecordOffset(100), RecordOffset(116))
        .expect("write failed");

    let first = EntryRef::read(&buffer, RecordIndex(0)).expect("read failed");
    assert_eq!(first.start, 5);
    assert_eq!(first.end, 21);
    let third = EntryRef::read(&buffer, RecordIndex(2)).expect("read failed");
    assert_eq!(third.start, 100);
    assert_eq!(third.end, 116);

    // A slot beyond the buffer is out of bounds.
    assert!(matches!(
        EntryRef::read(&buffer, RecordIndex(10)),
        Err(MapError::IndexOutOfBounds)
    ));
}

#[test]
fn test_entry_count_round_trip() {
    let mut buffer = vec![0u8; 16];
    let count = EntryCount(0x01020304);
    count.write(&mut buffer);
    let read = EntryCount::read(&buffer).expect("read failed");
    assert_eq!(read, count);
    assert_eq!(&buffer[0..4], &[0x04, 0x03, 0x02, 0x01]);

    let short = vec![0u8; 2];
    assert!(matches!(
        EntryCount::read(&short),
        Err(MapError::InvalidEntryCount)
    ));
}

#[test]
fn test_record_offset_and_index() {
    let mut offset = RecordOffset::new(4);
    offset.increment(16).expect("increment failed");
    assert_eq!(offset, RecordOffset(20));
    let mut huge = RecordOffset::new(usize::MAX);
    assert!(matches!(
        huge.increment(1),
        Err(MapError::SerializationError)
    ));

    let mut index = RecordIndex::new(0);
    index.increment();
    assert_eq!(index, RecordIndex(1));
    assert_eq!(index.next(), RecordIndex(2));
    assert_eq!(index.previous(), RecordIndex(0));

    let buffer = vec![0u8; 80];
    assert_eq!(RecordIndex(0).offset(&buffer).expect("offset failed"), 72);
    assert_eq!(RecordIndex(1).offset(&buffer).expect("offset failed"), 64);
    assert!(matches!(
        RecordIndex(10).offset(&buffer),
        Err(MapError::IndexOutOfBounds)
    ));
}
