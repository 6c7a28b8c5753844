//! Storage facade, identifier, byte-encoding and bounded-vector
//! tests.

use regionstore::map::Entry;
use regionstore::mem_io::{
    MemCollectionSequence, MemIo, MemRegionAddress, MemStorageMeta, MemStorageSequence,
    RegionAddress, RegionSequence,
};
use regionstore::vec_like::{VecLike, VecLikeSlice};
use regionstore::wal::EntryRecord;
use regionstore::{CollectionId, Storage, StorageError};

#[test]
fn new_storage() {
    const DATA_SIZE: usize = 1024;
    const MAX_HEADS: usize = 8;
    const REGION_COUNT: usize = 4;

    let mem_io = MemIo::new(DATA_SIZE, MAX_HEADS, REGION_COUNT).expect("Failed to create MemIo");

    let _storage =
        Storage::init(mem_io, DATA_SIZE, REGION_COUNT).expect("Failed to initialize storage");
}

#[test]
fn test_storage_double_init() {
    const DATA_SIZE: usize = 1024;

    let mem_io = MemIo::new(DATA_SIZE, 8, 4).expect("Failed to create MemIo");
    let storage = Storage::init(mem_io, DATA_SIZE, 4).expect("Failed to initialize storage");
    let mem_io = storage.io.into_inner();
    assert!(matches!(
        Storage::init(mem_io, DATA_SIZE, 4),
        Err(StorageError::AlreadyInitialized)
    ));
}

#[test]
fn test_storage_open() {
    const DATA_SIZE: usize = 1024;

    let mem_io = MemIo::new(DATA_SIZE, 8, 4).expect("Failed to create MemIo");
    assert!(matches!(
        Storage::open(mem_io),
        Err(StorageError::NotInitialized)
    ));

    let mem_io = MemIo::new(DATA_SIZE, 8, 4).expect("Failed to create MemIo");
    let storage = Storage::init(mem_io, DATA_SIZE, 4).expect("Failed to initialize storage");
    let mem_io = storage.io.into_inner();
    let _reopened = Storage::open(mem_io).expect("Failed to open storage");
}

#[test]
fn test_collection_id() {
    assert_eq!(CollectionId(5).increment(), Some(CollectionId(6)));
    assert_eq!(CollectionId(0xffff).increment(), None);
    assert_eq!(CollectionId(0x3039).to_le_bytes(), [0x39, 0x30]);
}

#[test]
fn test_sequence_encodings() {
    assert_eq!(MemStorageSequence::first(), MemStorageSequence(0));
    assert_eq!(
        MemStorageSequence(7).increment(),
        MemStorageSequence(8)
    );
    assert_eq!(
        MemStorageSequence(0x0102030405060708).to_le_bytes(),
        [0x08, 0x07, 0x06, 0x05, 0x04, 0x03, 0x02, 0x01]
    );
    assert_eq!(MemCollectionSequence::first(), MemCollectionSequence(0));
    assert_eq!(
        MemCollectionSequence(1).increment(),
        MemCollectionSequence(2)
    );
}

#[test]
fn test_address_and_meta() {
    assert_eq!(MemRegionAddress::zero(), MemRegionAddress(0));
    assert_eq!(MemRegionAddress::postcard_max_len(), 4);
    assert_eq!(EntryRecord::postcard_max_len(), 9);

    let meta = MemStorageMeta::new(512, 6);
    assert_eq!(meta.storage_version(), 0);
    assert_eq!(meta.region_size(), 512);
    assert_eq!(meta.region_count(), 6);
}

#[test]
fn test_map_entry_fields() {
    let entry = Entry { key: 3, value: 9 };
    assert_eq!(entry.key, 3);
    assert_eq!(entry.value, 9);
}

#[test]
fn test_vec_like_slice() {
    let storage = vec![0u32; 2];
    let mut v = VecLikeSlice::new(storage);
    assert!(v.is_empty());
    assert_eq!(v.capacity(), 2);

    assert!(v.push(10).is_ok());
    assert!(v.push(20).is_ok());
    assert_eq!(v.push(30), Err(30));

    assert_eq!(v.len(), 2);
    assert_eq!(v.get(0), Some(&10));
    assert_eq!(v.get(1), Some(&20));

    v.clear();
    assert!(v.is_empty());
    assert_eq!(v.capacity(), 2);
}
