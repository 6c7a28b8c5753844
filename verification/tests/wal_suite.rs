//! Write-ahead-log tests: creation, append, cursor reads, region
//! transitions, commits and reopen.

use regionstore::io::{Io, IoError};
use regionstore::mem_io::{MemCollectionSequence, MemIo, MemRegionAddress};
use regionstore::wal::{Wal, WalRead};
use regionstore::{CollectionId, CollectionType};

#[test]
fn test_wal_creation() {
    const DATA_SIZE: usize = 1024;
    const MAX_HEADS: usize = 8;
    const REGION_COUNT: usize = 4;

    let mem_io = MemIo::new(DATA_SIZE, MAX_HEADS, REGION_COUNT).expect("Failed to create MemIo");

    let mut io = Io::init(mem_io, DATA_SIZE, REGION_COUNT).expect("Failed to initialize Io");

    let collection_id = CollectionId(1);

    // Should be able to create a new WAL
    let wal = Wal::new(&mut io, collection_id).expect("Failed to create WAL");

    assert_eq!(wal.collection_id, collection_id);
    assert_eq!(wal.tail_next_entry_offset, 0);
    assert_eq!(wal.tail_region, wal.head_region);
    assert_eq!(wal.head_sequence, MemCollectionSequence(0));

    // Verify the region was allocated and header written correctly
    let header = io
        .get_region_header(wal.head_region)
        .expect("Failed to get header");
    assert_eq!(header.collection_id, collection_id);
    assert_eq!(header.collection_type, CollectionType::Wal);
    assert_eq!(header.collection_sequence, MemCollectionSequence(0));
}

#[test]
fn test_wal_creation_and_open() {
    const DATA_SIZE: usize = 1024;
    const MAX_HEADS: usize = 8;
    const REGION_COUNT: usize = 4;

    let mem_io = MemIo::new(DATA_SIZE, MAX_HEADS, REGION_COUNT).expect("Failed to create MemIo");

    let mut io = Io::init(mem_io, DATA_SIZE, REGION_COUNT).expect("Failed to initialize Io");

    let collection_id = CollectionId(1);

    // Should be able to create a new WAL
    let wal = Wal::new(&mut io, collection_id).expect("Failed to create WAL");

    let region = wal.head_region;

    // Should be able to reopen the WAL from its root region
    let wal = Wal::open(&io, region).expect("Failed to open WAL");

    assert_eq!(wal.collection_id, collection_id);
    assert_eq!(wal.tail_next_entry_offset, 0);
    assert_eq!(wal.tail_region, wal.head_region);
    assert_eq!(wal.head_sequence, MemCollectionSequence(0));

    // Verify the region was allocated and header written correctly
    let header = io
        .get_region_header(wal.head_region)
        .expect("Failed to get header");
    assert_eq!(header.collection_id, collection_id);
    assert_eq!(header.collection_type, CollectionType::Wal);
    assert_eq!(header.collection_sequence, MemCollectionSequence(0));
}

#[test]
fn test_wal_creation_fails_when_storage_full() {
    const DATA_SIZE: usize = 1024;
    const MAX_HEADS: usize = 8;
    const REGION_COUNT: usize = 2; // Only space for root region and one more

    let mem_io = MemIo::new(DATA_SIZE, MAX_HEADS, REGION_COUNT).expect("Failed to create MemIo");

    let mut io = Io::init(mem_io, DATA_SIZE, REGION_COUNT).expect("Failed to initialize Io");

    let collection_id = CollectionId(1);

    // Should fail to create WAL when no space
    let _result = Wal::new(&mut io, collection_id);
    let result = Wal::new(&mut io, collection_id);
    assert!(matches!(result, Err(IoError::StorageFull)));
}

#[test]
fn test_wal_write_read_single_region() {
    const DATA_SIZE: usize = 1024;
    const MAX_HEADS: usize = 8;
    const REGION_COUNT: usize = 4;

    let mem_io = MemIo::new(DATA_SIZE, MAX_HEADS, REGION_COUNT).expect("Failed to create MemIo");

    let mut io = Io::init(mem_io, DATA_SIZE, REGION_COUNT).expect("Failed to initialize Io");

    let collection_id = CollectionId(1);

    let mut wal = Wal::new(&mut io, collection_id).expect("Failed to create WAL");

    // Write some test data
    let test_data = b"Hello World!";
    wal.write(&mut io, CollectionType::Wal, test_data)
        .expect("Failed to write data");

    // Read it back
    let cursor = wal.get_cursor();
    let WalRead::Record { next: _, record } =
        wal.read(&io, cursor).expect("Failed to read data")
    else {
        panic!("No Record Found")
    };

    assert_eq!(record.collection_type, CollectionType::Wal);
    assert_eq!(record.data.as_slice(), test_data);
}

#[test]
fn test_wal_write_read_multiple_regions() {
    const DATA_SIZE: usize = 256; // Small size to force multiple regions
    const MAX_HEADS: usize = 8;
    const REGION_COUNT: usize = 8;

    let mem_io = MemIo::new(DATA_SIZE, MAX_HEADS, REGION_COUNT).expect("Failed to create MemIo");

    let mut io = Io::init(mem_io, DATA_SIZE, REGION_COUNT).expect("Failed to initialize Io");

    let collection_id = CollectionId(1);

    let mut wal = Wal::new(&mut io, collection_id).expect("Failed to create WAL");

    // Write multiple entries that will span regions
    let test_data: [&[u8]; 4] = [
        b"First entry that's quite long to help fill up space",
        b"Second entry also taking up space in the log.......",
        b"Third entry that should push us into another region",
        b"Fourth entry to really make sure we span regions...",
    ];

    // Write all entries
    for data in test_data {
        wal.write(&mut io, CollectionType::Wal, data)
            .expect("Failed to write data");
    }

    // Read back all entries
    let mut cursor = wal.get_cursor();

    for expected_data in &test_data {
        loop {
            match wal.read(&io, cursor).expect("Read failed") {
                WalRead::Record { next, record } => {
                    assert_eq!(record.collection_type, CollectionType::Wal);
                    assert_eq!(record.data.as_slice(), *expected_data);
                    cursor = next;
                    break;
                }
                WalRead::Commit { next, .. } => {
                    cursor = next;
                }
                WalRead::EndOfRegion { next } => {
                    cursor = next;
                }
                WalRead::EndOfWAL => {
                    panic!("End of wal. No data found");
                }
            }
        }
    }

    // Verify we've read everything
    match wal.read(&io, cursor).unwrap() {
        WalRead::Commit { .. } => panic!("Got unexpected Commit"),
        WalRead::EndOfRegion { next: _ } => panic!("Unexpected EndOfRegion"),
        WalRead::Record { next: _, record: _ } => panic!("Got unexpected Record"),
        WalRead::EndOfWAL => (), // Expected
    }
}

#[test]
fn test_wal_write_fails_when_full() {
    const DATA_SIZE: usize = 92; // Very small size to test filling up
    const MAX_HEADS: usize = 8;
    const REGION_COUNT: usize = 2; // Limited regions

    let mem_io = MemIo::new(DATA_SIZE, MAX_HEADS, REGION_COUNT).expect("Failed to create MemIo");

    let mut io = Io::init(mem_io, DATA_SIZE, REGION_COUNT).expect("Failed to initialize Io");

    let collection_id = CollectionId(1);

    let mut wal = Wal::new(&mut io, collection_id).expect("Failed to create WAL");

    // Write data until we run out of space
    let test_data = b"This is some test data to fill up the WAL";
    let mut write_count = 0;

    while wal.write(&mut io, CollectionType::Wal, test_data).is_ok() {
        write_count += 1;
    }

    assert!(write_count > 0, "Should have written at least once");

    // Verify we get storage full error
    let result = wal.write(&mut io, CollectionType::Wal, test_data);
    assert!(matches!(result, Err(IoError::StorageFull)));
}

#[test]
fn test_wal_commit() {
    const DATA_SIZE: usize = 1024;
    const MAX_HEADS: usize = 8;
    const REGION_COUNT: usize = 4;

    let mem_io = MemIo::new(DATA_SIZE, MAX_HEADS, REGION_COUNT).expect("Failed to create MemIo");

    let mut io = Io::init(mem_io, DATA_SIZE, REGION_COUNT).expect("Failed to initialize Io");

    let collection_id = CollectionId(1);

    let mut wal = Wal::new(&mut io, collection_id).expect("Failed to create WAL");

    // Write some initial data
    let initial_data = b"Initial entry before commit";
    wal.write(&mut io, CollectionType::Wal, initial_data)
        .expect("Failed to write initial data");

    // Get cursor for commit point
    let mut commit_cursor = wal.get_cursor();

    if let WalRead::Record { next, .. } = wal.read(&io, commit_cursor).expect("Read failed") {
        commit_cursor = next;
    } else {
        panic!("No record found");
    }
    // Write more data after commit point
    let post_commit_data = b"Entry after commit point";
    wal.write(&mut io, CollectionType::Wal, post_commit_data)
        .expect("Failed to write post-commit data");

    // Perform commit
    wal.commit(&mut io, commit_cursor).expect("Failed to commit");

    // Verify reading from start
    let mut cursor = wal.get_cursor();

    let mut found_commit = false;
    loop {
        match wal.read(&io, cursor).expect("Read failed") {
            WalRead::Record { next, record } => {
                assert_eq!(record.data.as_slice(), post_commit_data);
                cursor = next;
            }
            WalRead::Commit { next, .. } => {
                found_commit = true;
                cursor = next;
            }
            WalRead::EndOfRegion { next } => {
                cursor = next;
            }
            WalRead::EndOfWAL => break,
        }
    }

    assert!(found_commit, "Commit record not found");
}

#[test]
fn test_wal_open_with_commits() {
    const DATA_SIZE: usize = 1024;
    const MAX_HEADS: usize = 8;
    const REGION_COUNT: usize = 4;

    let mem_io = MemIo::new(DATA_SIZE, MAX_HEADS, REGION_COUNT).expect("Failed to create MemIo");

    let mut io = Io::init(mem_io, DATA_SIZE, REGION_COUNT).expect("Failed to initialize Io");

    let collection_id = CollectionId(1);

    let region;

    // Create and populate initial WAL
    {
        let mut wal = Wal::new(&mut io, collection_id).expect("Failed to create WAL");
        region = wal.region();

        // Write initial data
        wal.write(&mut io, CollectionType::Wal, b"First entry")
            .expect("Failed to write");

        let mut commit_point = wal.get_cursor();

        if let WalRead::Record { next, .. } = wal.read(&io, commit_point).expect("Read failed") {
            commit_point = next;
        } else {
            panic!("No record found");
        }

        wal.write(&mut io, CollectionType::Wal, b"Second entry")
            .expect("Failed to write");

        // Verify we can read the committed data
        let mut cursor = wal.get_cursor();
        let mut entries_found = 0;
        let mut commit_found = false;

        loop {
            match wal.read(&io, cursor).expect("Read failed") {
                WalRead::Record { next, .. } => {
                    entries_found += 1;
                    cursor = next;
                }
                WalRead::Commit { .. } => {
                    commit_found = true;
                    break;
                }
                WalRead::EndOfRegion { next } => {
                    cursor = next;
                }
                WalRead::EndOfWAL => break,
            }
        }

        assert_eq!(entries_found, 2, "Expected 2 entries before commit");
        assert!(!commit_found, "Expected to find commit record");

        wal.commit(&mut io, commit_point).expect("Failed to commit");
    }

    // Reopen WAL and verify state
    let wal = Wal::open(&io, region).expect("Failed to open WAL");

    // Verify we can read the committed data
    let mut cursor = wal.get_cursor();
    let mut entries_found = 0;
    let mut commit_found = false;

    loop {
        match wal.read(&io, cursor).expect("Read failed") {
            WalRead::Record { next, .. } => {
                entries_found += 1;
                cursor = next;
            }
            WalRead::Commit { .. } => {
                commit_found = true;
                break;
            }
            WalRead::EndOfRegion { next } => {
                cursor = next;
            }
            WalRead::EndOfWAL => break,
        }
    }

    assert_eq!(entries_found, 1, "Expected 2 entries before commit");
    assert!(commit_found, "Expected to find commit record");
}

#[test]
fn test_wal_sequence_handling() {
    const DATA_SIZE: usize = 1024;
    const MAX_HEADS: usize = 8;
    const REGION_COUNT: usize = 4;

    let mem_io = MemIo::new(DATA_SIZE, MAX_HEADS, REGION_COUNT).expect("Failed to create MemIo");

    let mut io = Io::init(mem_io, DATA_SIZE, REGION_COUNT).expect("Failed to initialize Io");

    let collection_id = CollectionId(1);

    let mut wal = Wal::new(&mut io, collection_id).expect("Failed to create WAL");

    // Fill up first region to force sequence increment
    let large_data = [b'X'; 400];
    for _ in 0..3 {
        wal.write(&mut io, CollectionType::Wal, &large_data)
            .expect("Failed to write data");
    }

    assert!(
        wal.head_sequence < wal.tail_sequence,
        "Collection sequence should increment after region transition"
    );
}

#[test]
fn test_wal_commit_twice_already_committed() {
    // Committing the same cursor twice yields AlreadyCommitted on the
    // second call.
    const DATA_SIZE: usize = 1024;
    const MAX_HEADS: usize = 8;
    const REGION_COUNT: usize = 4;

    let mem_io = MemIo::new(DATA_SIZE, MAX_HEADS, REGION_COUNT).expect("Failed to create MemIo");
    let mut io = Io::init(mem_io, DATA_SIZE, REGION_COUNT).expect("Failed to initialize Io");

    let mut wal = Wal::new(&mut io, CollectionId(1)).expect("Failed to create WAL");

    wal.write(&mut io, CollectionType::Wal, b"one")
        .expect("Failed to write");

    let mut commit_cursor = wal.get_cursor();
    if let WalRead::Record { next, .. } = wal.read(&io, commit_cursor).expect("Read failed") {
        commit_cursor = next;
    } else {
        panic!("No record found");
    }

    wal.commit(&mut io, commit_cursor).expect("Failed to commit");
    let head_region = wal.head_region;
    let head_offset = wal.head_region_start_offset;
    let head_sequence = wal.head_sequence;

    let second = wal.commit(&mut io, commit_cursor);
    assert!(matches!(second, Err(IoError::AlreadyCommitted)));
    assert_eq!(wal.head_region, head_region);
    assert_eq!(wal.head_region_start_offset, head_offset);
    assert_eq!(wal.head_sequence, head_sequence);
}

#[test]
fn test_wal_commit_then_reopen_shows_tail() {
    // Write two records, capture a cursor past them, write a third,
    // commit; after reopen, iterating from the new head yields only
    // the third record, after the commit entry.
    const DATA_SIZE: usize = 1024;
    const MAX_HEADS: usize = 8;
    const REGION_COUNT: usize = 4;

    let mem_io = MemIo::new(DATA_SIZE, MAX_HEADS, REGION_COUNT).expect("Failed to create MemIo");
    let mut io = Io::init(mem_io, DATA_SIZE, REGION_COUNT).expect("Failed to initialize Io");

    let mut wal = Wal::new(&mut io, CollectionId(1)).expect("Failed to create WAL");
    let region = wal.region();

    wal.write(&mut io, CollectionType::Wal, b"first")
        .expect("Failed to write");
    wal.write(&mut io, CollectionType::Wal, b"second")
        .expect("Failed to write");

    let mut between = wal.get_cursor();
    for _ in 0..2 {
        if let WalRead::Record { next, .. } = wal.read(&io, between).expect("Read failed") {
            between = next;
        } else {
            panic!("No record found");
        }
    }

    wal.write(&mut io, CollectionType::Wal, b"third")
        .expect("Failed to write");
    wal.commit(&mut io, between).expect("Failed to commit");

    let reopened = Wal::open(&io, region).expect("Failed to reopen WAL");
    assert_eq!(reopened.head_sequence, wal.head_sequence);
    assert_eq!(reopened.head_region, wal.head_region);
    assert_eq!(reopened.head_region_start_offset, wal.head_region_start_offset);

    let mut cursor = reopened.get_cursor();
    let mut records = Vec::new();
    loop {
        match reopened.read(&io, cursor).expect("Read failed") {
            WalRead::Record { next, record } => {
                records.push(record.data);
                cursor = next;
            }
            WalRead::Commit { next, .. } => {
                cursor = next;
            }
            WalRead::EndOfRegion { next } => {
                cursor = next;
            }
            WalRead::EndOfWAL => break,
        }
    }
    assert_eq!(records.len(), 1);
    assert_eq!(records[0].as_slice(), b"third");
}

#[test]
fn test_wal_round_trip_helper() {
    const DATA_SIZE: usize = 1024;
    const MAX_HEADS: usize = 8;
    const REGION_COUNT: usize = 4;

    let mem_io = MemIo::new(DATA_SIZE, MAX_HEADS, REGION_COUNT).expect("Failed to create MemIo");
    let mut io = Io::init(mem_io, DATA_SIZE, REGION_COUNT).expect("Failed to initialize Io");
    let mut wal = Wal::new(&mut io, CollectionId(3)).expect("Failed to create WAL");

    let payload = b"round trip payload";
    let read = regionstore::wal::write_then_read_back(&mut wal, &mut io, CollectionType::Wal, payload)
        .expect("round trip failed");
    let WalRead::Record { record, .. } = read else {
        panic!("expected a record");
    };
    assert_eq!(record.collection_type, CollectionType::Wal);
    assert_eq!(record.data.as_slice(), payload);
}

#[test]
fn test_wal_two_record_round_trip_helper() {
    const DATA_SIZE: usize = 1024;
    const MAX_HEADS: usize = 8;
    const REGION_COUNT: usize = 4;

    let mem_io = MemIo::new(DATA_SIZE, MAX_HEADS, REGION_COUNT).expect("Failed to create MemIo");
    let mut io = Io::init(mem_io, DATA_SIZE, REGION_COUNT).expect("Failed to initialize Io");
    let mut wal = Wal::new(&mut io, CollectionId(2)).expect("Failed to create WAL");

    let (first, second) = regionstore::wal::write_two_then_read_back(
        &mut wal,
        &mut io,
        CollectionType::Wal,
        b"alpha",
        b"beta",
    )
    .expect("round trip failed");
    let WalRead::Record { record: rec1, .. } = first else {
        panic!("expected first record");
    };
    let WalRead::Record { record: rec2, .. } = second else {
        panic!("expected second record");
    };
    assert_eq!(rec1.data.as_slice(), b"alpha");
    assert_eq!(rec2.data.as_slice(), b"beta");
}

#[test]
fn test_wal_stale_region_data_rejected() {
    // Bytes left from a prior use of a region carry a length checksum
    // computed under another sequence and id, so a fresh log treats
    // the region as empty.
    const DATA_SIZE: usize = 64;
    const MAX_HEADS: usize = 8;
    const REGION_COUNT: usize = 4;

    let mut mem_io =
        MemIo::new(DATA_SIZE, MAX_HEADS, REGION_COUNT).expect("Failed to create MemIo");
    // Plant a plausible stale frame in the region a new WAL will take.
    let stale = [20u8, 0, 0x34, 0x12, 9, 9, 9, 9];
    mem_io
        .write_region_data(MemRegionAddress(1), 0, &stale)
        .expect("Failed to plant stale bytes");

    let mut io = Io::init(mem_io, DATA_SIZE, REGION_COUNT).expect("Failed to initialize Io");
    let wal = Wal::new(&mut io, CollectionId(7)).expect("Failed to create WAL");
    assert_eq!(wal.head_region, MemRegionAddress(1));

    let cursor = wal.get_cursor();
    assert!(matches!(
        wal.read(&io, cursor).expect("Read failed"),
        WalRead::EndOfWAL
    ));
}

#[test]
fn test_wal_corrupt_body_is_serialization_error() {
    // A record whose length checksum matches but whose body was
    // damaged fails its CRC-32 and surfaces as corruption.
    const DATA_SIZE: usize = 1024;
    const MAX_HEADS: usize = 8;
    const REGION_COUNT: usize = 4;

    let mem_io = MemIo::new(DATA_SIZE, MAX_HEADS, REGION_COUNT).expect("Failed to create MemIo");
    let mut io = Io::init(mem_io, DATA_SIZE, REGION_COUNT).expect("Failed to initialize Io");
    let mut wal = Wal::new(&mut io, CollectionId(1)).expect("Failed to create WAL");

    wal.write(&mut io, CollectionType::Wal, b"payload")
        .expect("Failed to write");

    // Flip a payload byte inside the entry body (past the 4 framing
    // bytes) in the tail region.
    let region = wal.tail_region;
    let original = io
        .get_region_data(region, 6, 1)
        .expect("Failed to read byte");
    let flipped = [original[0] ^ 0xff];
    io.write_region_data(region, &flipped, 6)
        .expect("Failed to corrupt byte");

    let cursor = wal.get_cursor();
    assert!(matches!(
        wal.read(&io, cursor),
        Err(IoError::SerializationError)
    ));
}

#[test]
fn test_wal_record_too_large() {
    // An entry that cannot fit any region, even a fresh one, is
    // rejected outright.
    const DATA_SIZE: usize = 64;
    const MAX_HEADS: usize = 8;
    const REGION_COUNT: usize = 4;

    let mem_io = MemIo::new(DATA_SIZE, MAX_HEADS, REGION_COUNT).expect("Failed to create MemIo");
    let mut io = Io::init(mem_io, DATA_SIZE, REGION_COUNT).expect("Failed to initialize Io");
    let mut wal = Wal::new(&mut io, CollectionId(1)).expect("Failed to create WAL");

    let oversized = [0u8; 100];
    let result = wal.write(&mut io, CollectionType::Wal, &oversized);
    assert!(matches!(result, Err(IoError::RecordTooLarge(110))));
}

#[test]
fn test_wal_commit_twice_helper() {
    const DATA_SIZE: usize = 1024;

    let mem_io = MemIo::new(DATA_SIZE, 8, 4).expect("Failed to create MemIo");
    let mut io = Io::init(mem_io, DATA_SIZE, 4).expect("Failed to initialize Io");
    let mut wal = Wal::new(&mut io, CollectionId(1)).expect("Failed to create WAL");

    wal.write(&mut io, CollectionType::Wal, b"entry")
        .expect("Failed to write");
    let mut cursor = wal.get_cursor();
    if let WalRead::Record { next, .. } = wal.read(&io, cursor).expect("Read failed") {
        cursor = next;
    } else {
        panic!("No record found");
    }

    let (first, second) = regionstore::wal::commit_twice(&mut wal, &mut io, cursor);
    assert!(first.is_ok());
    assert!(matches!(second, Err(IoError::AlreadyCommitted)));
}

#[test]
fn test_wal_cross_region_round_trip_helper() {
    const DATA_SIZE: usize = 64;

    let mem_io = MemIo::new(DATA_SIZE, 8, 4).expect("Failed to create MemIo");
    let mut io = Io::init(mem_io, DATA_SIZE, 4).expect("Failed to initialize Io");
    let mut wal = Wal::new(&mut io, CollectionId(1)).expect("Failed to create WAL");

    // A first record fills part of the tail region; the next one can
    // only land behind a region link.
    wal.write(&mut io, CollectionType::Wal, b"tiny")
        .expect("Failed to write");

    let payload = [7u8; 30];
    let (first, second) = regionstore::wal::write_across_regions_then_read(
        &mut wal,
        &mut io,
        CollectionType::Wal,
        &payload,
    )
    .expect("cross-region round trip failed");
    assert!(matches!(first, WalRead::EndOfRegion { .. }));
    let WalRead::Record { record, .. } = second else {
        panic!("expected a record");
    };
    assert_eq!(record.data.as_slice(), &payload);
}
