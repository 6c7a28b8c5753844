//! An embedded persistent storage engine for flash-like block
//! devices: a region manager over a byte-addressed backend, a
//! multi-region write-ahead log with CRC-guarded records, a sorted
//! key/value map with a split record/index layout, and a partially
//! ordered channel of commands.

use vstd::prelude::*;

verus! {

/// Newtype for collection identifiers.
#[derive(Debug, Clone, Copy, PartialEq, Eq, Structural)]
pub struct CollectionId(pub u16);

impl CollectionId {
    /// The two little-endian bytes of the identifier, as stamped into
    /// record-length checksums.
    pub fn to_le_bytes(&self) -> (r: [u8; 2])
        ensures
            r@ == crate::bytes::le16(self.0),
    {
        let lo: u8 = (self.0 & 0xff) as u8;
        let hi: u8 = ((self.0 >> 8) & 0xff) as u8;
        let r = [lo, hi];
        proof {
            assert(r@ =~= crate::bytes::le16(self.0));
        }
        r
    }

    /// The next identifier, if one exists.
    pub fn increment(&self) -> (r: Option<Self>)
        ensures
            self.0 < 0xffff ==> r == Some(CollectionId((self.0 + 1) as u16)),
            self.0 == 0xffff ==> r is None,
    {
        let Some(next) = self.0.checked_add(1) else {
            return None;
        };
        Some(CollectionId(next))
    }
}

/// Represents the different types of collections that can be stored.
#[derive(Debug, Clone, Copy, PartialEq, Eq, Structural)]
pub enum CollectionType {
    Uninitialized,
    Free,
    Wal,
    Channel,
    KvMap,
}

/// Errors surfaced to callers of the storage engine.
#[derive(Debug, Clone, Copy, PartialEq, Eq, Structural)]
pub enum StorageError {
    Unreachable,
    RecordTooLarge(usize),
    NoFreeRegions,
    AlreadyInitialized,
    NotInitialized,
    InvalidAddress(crate::mem_io::MemRegionAddress),
    InvalidHeads,
    OutOfBounds,
    InvalidRegionSize,
    InvalidRegionCount,
    StorageFull,
    BackingError(crate::mem_io::MemIoError),
    SerializationError,
}

/// How a region-manager error surfaces to storage callers.
pub open spec fn storage_error_of(error: crate::io::IoError) -> StorageError {
    match error {
        crate::io::IoError::AlreadyCommitted => StorageError::OutOfBounds,
        crate::io::IoError::Unreachable => StorageError::Unreachable,
        crate::io::IoError::RecordTooLarge(len) => StorageError::RecordTooLarge(len),
        crate::io::IoError::StorageFull => StorageError::StorageFull,
        crate::io::IoError::AlreadyInitialized => StorageError::AlreadyInitialized,
        crate::io::IoError::NotInitialized => StorageError::NotInitialized,
        crate::io::IoError::InvalidAddress(address) => StorageError::InvalidAddress(address),
        crate::io::IoError::OutOfBounds => StorageError::OutOfBounds,
        crate::io::IoError::InvalidRegionSize => StorageError::InvalidRegionSize,
        crate::io::IoError::InvalidRegionCount => StorageError::InvalidRegionCount,
        crate::io::IoError::InvalidHeads => StorageError::InvalidHeads,
        crate::io::IoError::Backing(e) => StorageError::BackingError(e),
        crate::io::IoError::RegionNotFound(address) => StorageError::InvalidAddress(address),
        crate::io::IoError::SerializationError => StorageError::SerializationError,
        crate::io::IoError::BufferTooSmall(_) => StorageError::OutOfBounds,
    }
}

impl From<crate::io::IoError> for StorageError {
    fn from(error: crate::io::IoError) -> (r: Self) {
        match error {
            crate::io::IoError::AlreadyCommitted => StorageError::OutOfBounds,
            crate::io::IoError::Unreachable => StorageError::Unreachable,
            crate::io::IoError::RecordTooLarge(len) => StorageError::RecordTooLarge(len),
            crate::io::IoError::StorageFull => StorageError::StorageFull,
            crate::io::IoError::AlreadyInitialized => StorageError::AlreadyInitialized,
            crate::io::IoError::NotInitialized => StorageError::NotInitialized,
            crate::io::IoError::InvalidAddress(address) => StorageError::InvalidAddress(address),
            crate::io::IoError::OutOfBounds => StorageError::OutOfBounds,
            crate::io::IoError::InvalidRegionSize => StorageError::InvalidRegionSize,
            crate::io::IoError::InvalidRegionCount => StorageError::InvalidRegionCount,
            crate::io::IoError::InvalidHeads => StorageError::InvalidHeads,
            crate::io::IoError::Backing(e) => StorageError::BackingError(e),
            crate::io::IoError::RegionNotFound(address) => StorageError::InvalidAddress(address),
            crate::io::IoError::SerializationError => StorageError::SerializationError,
            crate::io::IoError::BufferTooSmall(_) => StorageError::OutOfBounds,
        }
    }
}

impl vstd::std_specs::convert::FromSpecImpl<crate::io::IoError> for StorageError {
    open spec fn obeys_from_spec() -> bool {
        true
    }

    open spec fn from_spec(e: crate::io::IoError) -> Self {
        storage_error_of(e)
    }
}

/// What every stored collection can say about itself.
pub trait Collection {
    fn id(&self) -> CollectionId;

    fn collection_type(&self) -> CollectionType;
}

/// The storage engine: a region manager behind a caller-facing error
/// type.
pub struct Storage {
    pub io: crate::io::Io,
}

impl Storage {
    /// Initializes a pristine backing store; see `Io::init`.
    pub fn init(backing: crate::mem_io::MemIo, region_size: usize, region_count: usize) -> (r:
        Result<Storage, StorageError>)
        requires
            backing.wf(),
            backing.spec_initialized() || crate::io::pristine(backing),
        ensures
            backing.spec_initialized() ==> r == Err::<Storage, StorageError>(
                StorageError::AlreadyInitialized,
            ),
            !backing.spec_initialized() && region_count >= 2 && region_size
                == backing.meta.region_size && region_count == backing.meta.region_count
                && backing.max_heads >= 1 ==> (r matches Ok(st) && {
                &&& st.io.wf()
                &&& st.io.synced()
                &&& st.io.storage_head == crate::mem_io::MemRegionAddress(0usize)
                &&& st.io.storage_sequence == crate::mem_io::MemStorageSequence(1u64)
                &&& st.io.free_list_head == Some(crate::mem_io::MemRegionAddress(1usize))
                &&& st.io.free_list_tail == Some(
                    crate::mem_io::MemRegionAddress((region_count - 1) as usize),
                )
                &&& st.io.heads@ =~= seq![
                    (CollectionId(0u16), crate::mem_io::MemRegionAddress(0usize)),
                ]
                &&& st.io.backing.meta == backing.meta
                &&& st.io.backing.max_heads == backing.max_heads
                &&& st.io.backing.regions@.len() == backing.regions@.len()
                &&& st.io.backing.spec_initialized()
                &&& forall|k: int|
                    0 <= k < region_count - 1 ==> #[trigger] st.io.backing.free_ptr(k) == Some(
                        crate::mem_io::MemRegionAddress((k + 1) as usize),
                    )
                &&& st.io.backing.free_ptr((region_count - 1) as int) == backing.free_ptr(
                    (region_count - 1) as int,
                )
                &&& forall|k: int|
                    0 <= k < region_count ==> #[trigger] st.io.backing.region_data(k)
                        == backing.region_data(k)
                &&& forall|k: int|
                    1 <= k < region_count ==> #[trigger] st.io.backing.hdr(k) == backing.hdr(k)
                &&& st.io.backing.hdr(0).sequence == crate::mem_io::MemStorageSequence(1u64)
                &&& st.io.backing.hdr(0).collection_id == CollectionId(0u16)
                &&& st.io.backing.hdr(0).collection_type == CollectionType::Wal
                &&& st.io.backing.hdr(0).collection_sequence == crate::mem_io::MemCollectionSequence(0u64)
                &&& st.io.backing.hdr(0).free_list_head == Some(
                    crate::mem_io::MemRegionAddress(1usize),
                )
                &&& st.io.backing.hdr(0).free_list_tail == Some(
                    crate::mem_io::MemRegionAddress((region_count - 1) as usize),
                )
                &&& st.io.backing.hdr(0).heads@ == st.io.heads@
            }),
            !backing.spec_initialized() && region_count < 2 ==> r == Err::<Storage, StorageError>(
                StorageError::InvalidRegionCount,
            ),
            !backing.spec_initialized() && region_count >= 2 && region_size
                != backing.meta.region_size ==> r == Err::<Storage, StorageError>(
                StorageError::InvalidRegionSize,
            ),
            !backing.spec_initialized() && region_count >= 2 && region_size
                == backing.meta.region_size && region_count != backing.meta.region_count ==> r
                == Err::<Storage, StorageError>(StorageError::InvalidRegionCount),
    {
        let initialized = match backing.is_initialized() {
            Ok(b) => b,
            Err(e) => {
                return Err(StorageError::from(e));
            },
        };
        if initialized {
            return Err(StorageError::AlreadyInitialized);
        }
        match crate::io::Io::init(backing, region_size, region_count) {
            Ok(io) => Ok(Storage { io }),
            Err(e) => Err(StorageError::from(e)),
        }
    }

    /// Opens an initialized backing store; see `Io::open`.
    pub fn open(backing: crate::mem_io::MemIo) -> (r: Result<Storage, StorageError>)
        requires
            backing.wf(),
            crate::io::seq_distinct(backing),
        ensures
            !backing.spec_initialized() ==> r == Err::<Storage, StorageError>(
                StorageError::NotInitialized,
            ),
            backing.spec_initialized() ==> (r is Ok || r == Err::<Storage, StorageError>(
                StorageError::InvalidHeads,
            )),
            backing.spec_initialized() ==> forall|h: int|
                crate::io::is_scan_head(backing, h) ==> ((r is Ok) <==> crate::io::heads_sorted(
                    #[trigger] backing.hdr(h).heads@,
                )),
            r matches Ok(st) ==> {
                &&& st.io.wf()
                &&& st.io.backing == backing
                &&& crate::io::is_scan_head(backing, st.io.storage_head.0 as int)
                &&& st.io.storage_sequence == backing.hdr(st.io.storage_head.0 as int).sequence
                &&& st.io.free_list_head == backing.hdr(
                    st.io.storage_head.0 as int,
                ).free_list_head
                &&& st.io.free_list_tail == backing.hdr(
                    st.io.storage_head.0 as int,
                ).free_list_tail
                &&& st.io.heads@ == backing.hdr(st.io.storage_head.0 as int).heads@
            },
    {
        let initialized = match backing.is_initialized() {
            Ok(b) => b,
            Err(e) => {
                return Err(StorageError::from(e));
            },
        };
        if !initialized {
            return Err(StorageError::NotInitialized);
        }
        match crate::io::Io::open(backing) {
            Ok(io) => Ok(Storage { io }),
            Err(e) => Err(StorageError::from(e)),
        }
    }
}

} // verus!

pub mod bytes;
pub mod channel;
pub mod checksum;
pub mod io;
pub mod map;
pub mod mem_io;
pub mod vec_like;
pub mod wal;
