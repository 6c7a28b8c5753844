//! Region-manager tests: init, open, allocation and header stamping.

use regionstore::io::{Io, IoError};
use regionstore::mem_io::{MemCollectionSequence, MemIo, MemRegionAddress, MemStorageSequence};
use regionstore::{CollectionId, CollectionType};

#[test]
fn new_storage_meta() {
    const DATA_SIZE: usize = 1024;
    const MAX_HEADS: usize = 8;
    const REGION_COUNT: usize = 4;

    let _mem_io = MemIo::new(DATA_SIZE, MAX_HEADS, REGION_COUNT).expect("Failed to create MemIo");
}

#[test]
fn init_io() {
    const DATA_SIZE: usize = 1024;
    const MAX_HEADS: usize = 8;
    const REGION_COUNT: usize = 4;

    let mem_io = MemIo::new(DATA_SIZE, MAX_HEADS, REGION_COUNT).expect("Failed to create MemIo");

    let _io = Io::init(mem_io, DATA_SIZE, REGION_COUNT).expect("Failed to initialize Io");
}

#[test]
fn test_double_init_fails() {
    const DATA_SIZE: usize = 1024;
    const MAX_HEADS: usize = 8;
    const REGION_COUNT: usize = 4;

    let mem_io = MemIo::new(DATA_SIZE, MAX_HEADS, REGION_COUNT).expect("Failed to create MemIo");

    // First init should succeed
    let io = Io::init(mem_io, DATA_SIZE, REGION_COUNT).expect("Failed to initialize Io");

    // Second init should fail with AlreadyInitialized
    let mem_io = io.into_inner();
    assert!(matches!(
        Io::init(mem_io, DATA_SIZE, REGION_COUNT),
        Err(IoError::AlreadyInitialized)
    ));
}

#[test]
fn test_open_uninitialized_fails() {
    const DATA_SIZE: usize = 1024;
    const MAX_HEADS: usize = 8;
    const REGION_COUNT: usize = 4;

    let mem_io = MemIo::new(DATA_SIZE, MAX_HEADS, REGION_COUNT).expect("Failed to create MemIo");

    // Opening uninitialized storage should fail
    assert!(matches!(Io::open(mem_io), Err(IoError::NotInitialized)));
}

#[test]
fn test_init_and_open() {
    const DATA_SIZE: usize = 1024;
    const MAX_HEADS: usize = 8;
    const REGION_COUNT: usize = 4;

    let mem_io = MemIo::new(DATA_SIZE, MAX_HEADS, REGION_COUNT).expect("Failed to create MemIo");

    // Initialize storage
    let io = Io::init(mem_io, DATA_SIZE, REGION_COUNT).expect("Failed to initialize Io");

    // Should be able to open initialized storage
    let mem_io = io.into_inner();
    let _io = Io::open(mem_io).expect("Failed to open Io");
}

#[test]
fn test_invalid_region_size() {
    const DATA_SIZE: usize = 1024;
    const MAX_HEADS: usize = 8;
    const REGION_COUNT: usize = 4;

    let mem_io = MemIo::new(DATA_SIZE, MAX_HEADS, REGION_COUNT).expect("Failed to create MemIo");

    // Try to initialize with wrong region size
    assert!(matches!(
        Io::init(mem_io, DATA_SIZE + 1, REGION_COUNT),
        Err(IoError::InvalidRegionSize)
    ));
}

#[test]
fn test_invalid_region_count() {
    const DATA_SIZE: usize = 1024;
    const MAX_HEADS: usize = 8;
    const REGION_COUNT: usize = 4;

    let mem_io = MemIo::new(DATA_SIZE, MAX_HEADS, REGION_COUNT).expect("Failed to create MemIo");

    // Try to initialize with wrong region count
    assert!(matches!(
        Io::init(mem_io, DATA_SIZE, REGION_COUNT + 1),
        Err(IoError::InvalidRegionCount)
    ));
}

#[test]
fn test_allocate_region() {
    const DATA_SIZE: usize = 1024;
    const MAX_HEADS: usize = 8;
    const REGION_COUNT: usize = 4;

    let mem_io = MemIo::new(DATA_SIZE, MAX_HEADS, REGION_COUNT).expect("Failed to create MemIo");

    let mut io = Io::init(mem_io, DATA_SIZE, REGION_COUNT).expect("Failed to initialize Io");

    // Should be able to allocate first region
    let collection_id = CollectionId(1);
    let region1 = io
        .allocate_region(collection_id)
        .expect("Failed to allocate first region");
    assert_eq!(region1, MemRegionAddress(1)); // First region after root at 0

    // Should be able to allocate second region
    let region2 = io
        .allocate_region(collection_id)
        .expect("Failed to allocate second region");
    assert_eq!(region2, MemRegionAddress(2));

    // Should be able to allocate third region
    let region3 = io
        .allocate_region(collection_id)
        .expect("Failed to allocate third region");
    assert_eq!(region3, MemRegionAddress(3));

    // Should fail when storage is full
    assert!(matches!(
        io.allocate_region(collection_id),
        Err(IoError::StorageFull)
    ));
}

#[test]
fn test_write_region_header() {
    const DATA_SIZE: usize = 1024;
    const MAX_HEADS: usize = 8;
    const REGION_COUNT: usize = 4;

    let mem_io = MemIo::new(DATA_SIZE, MAX_HEADS, REGION_COUNT).expect("Failed to create MemIo");

    let mut io = Io::init(mem_io, DATA_SIZE, REGION_COUNT).expect("Failed to initialize Io");

    // Allocate a region
    let collection_id = CollectionId(1);
    let region = io
        .allocate_region(collection_id)
        .expect("Failed to allocate region");

    // Write header
    let collection_type = CollectionType::Channel;
    let collection_sequence = MemCollectionSequence(0);
    io.write_region_header(region, collection_id, collection_type, collection_sequence)
        .expect("Failed to write header");

    let storage_sequence = io.storage_sequence;
    // Verify header was written correctly
    let header = io.get_region_header(region).expect("Failed to get header");
    assert_eq!(header.collection_id, collection_id);
    assert_eq!(header.collection_type, collection_type);
    assert_eq!(header.collection_sequence, collection_sequence);
    assert_eq!(header.sequence, storage_sequence);
    assert_eq!(header.heads.len(), 2);
}

#[test]
fn test_write_region_header_sequence_increments() {
    const DATA_SIZE: usize = 1024;
    const MAX_HEADS: usize = 8;
    const REGION_COUNT: usize = 4;

    let mem_io = MemIo::new(DATA_SIZE, MAX_HEADS, REGION_COUNT).expect("Failed to create MemIo");

    let mut io = Io::init(mem_io, DATA_SIZE, REGION_COUNT).expect("Failed to initialize Io");

    let collection_id = CollectionId(1);
    let region = io
        .allocate_region(collection_id)
        .expect("Failed to allocate region");

    // Write header multiple times and verify sequence increments
    for expected_sequence in 2..5 {
        let collection_sequence = MemCollectionSequence(0);
        io.write_region_header(
            region,
            collection_id,
            CollectionType::Channel,
            collection_sequence,
        )
        .expect("Failed to write header");

        let header = io.get_region_header(region).expect("Failed to get header");
        assert_eq!(header.sequence, MemStorageSequence(expected_sequence));
    }
}

#[test]
fn test_init_open_round_trip_state() {
    // Init then open: the reopened manager reports identical meta,
    // heads table and free-list pointers.
    const DATA_SIZE: usize = 1024;
    const MAX_HEADS: usize = 8;
    const REGION_COUNT: usize = 4;

    let mem_io = MemIo::new(DATA_SIZE, MAX_HEADS, REGION_COUNT).expect("Failed to create MemIo");
    let io = Io::init(mem_io, DATA_SIZE, REGION_COUNT).expect("Failed to initialize Io");

    let storage_sequence = io.storage_sequence;
    let free_list_head = io.free_list_head;
    let free_list_tail = io.free_list_tail;
    let heads = io.heads.clone();

    let reopened = io.reopen().expect("Failed to reopen");
    assert_eq!(reopened.storage_sequence, storage_sequence);
    assert_eq!(reopened.free_list_head, free_list_head);
    assert_eq!(reopened.free_list_tail, free_list_tail);
    assert_eq!(reopened.heads, heads);
    assert_eq!(reopened.backing.meta.region_size, DATA_SIZE);
    assert_eq!(reopened.backing.meta.region_count, REGION_COUNT);
}

#[test]
fn test_init_two_regions_allocate_one() {
    // With two regions, the root takes one; a single further region
    // can be allocated before the store is full.
    const DATA_SIZE: usize = 1024;
    const MAX_HEADS: usize = 8;
    const REGION_COUNT: usize = 2;

    let mem_io = MemIo::new(DATA_SIZE, MAX_HEADS, REGION_COUNT).expect("Failed to create MemIo");
    let mut io = Io::init(mem_io, DATA_SIZE, REGION_COUNT).expect("Failed to initialize Io");

    let region = io
        .allocate_region(CollectionId(1))
        .expect("Failed to allocate region");
    assert_eq!(region, MemRegionAddress(1));

    assert!(matches!(
        io.allocate_region(CollectionId(1)),
        Err(IoError::StorageFull)
    ));
}

#[test]
fn test_invalid_address_and_bounds() {
    const DATA_SIZE: usize = 1024;

    let mem_io = MemIo::new(DATA_SIZE, 8, 4).expect("Failed to create MemIo");
    let io = Io::init(mem_io, DATA_SIZE, 4).expect("Failed to initialize Io");

    assert!(matches!(
        io.get_region_header(MemRegionAddress(99)),
        Err(IoError::InvalidAddress(MemRegionAddress(99)))
    ));
    assert!(matches!(
        io.get_region_data(MemRegionAddress(0), DATA_SIZE, 8),
        Err(IoError::OutOfBounds)
    ));
}
