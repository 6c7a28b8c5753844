//! The in-memory region backend: a fixed array of regions, each with a
//! header, a data area and a free-pointer slot, plus the storage meta
//! block.  Every operation has an exact contract over the backend's
//! state.

use vstd::prelude::*;

use crate::bytes::le64;
use crate::io::IoError;
use crate::{CollectionId, CollectionType};

verus! {

/// Error of the in-memory backing itself.
#[derive(Debug, Clone, Copy, PartialEq, Eq, Structural)]
pub enum MemIoError {
    InvalidAddress,
}

/// The storage meta block: geometry of the backing store.
#[derive(Debug, Clone, Copy, PartialEq, Eq, Structural)]
pub struct MemStorageMeta {
    pub region_size: usize,
    pub region_count: usize,
}

impl MemStorageMeta {
    pub fn new(region_size: usize, region_count: usize) -> (r: Self)
        ensures
            r == (MemStorageMeta { region_size, region_count }),
    {
        Self { region_size, region_count }
    }

    pub fn storage_version(&self) -> (r: u32)
        ensures
            r == 0,
    {
        0
    }

    pub fn region_size(&self) -> (r: usize)
        ensures
            r == self.region_size,
    {
        self.region_size
    }

    pub fn region_count(&self) -> (r: usize)
        ensures
            r == self.region_count,
    {
        self.region_count
    }
}

/// What a backend's region address offers: a distinguished zero value
/// and a bound on its serialized size.
pub trait RegionAddress: Sized + Copy {
    spec fn spec_zero() -> Self;

    fn zero() -> (r: Self)
        ensures
            r == Self::spec_zero(),
    ;

    fn postcard_max_len() -> usize;
}

/// An opaque address of a region; this backend uses the region index.
#[derive(Debug, Clone, Copy, PartialEq, Eq, Structural)]
pub struct MemRegionAddress(pub usize);

impl RegionAddress for MemRegionAddress {
    open spec fn spec_zero() -> Self {
        MemRegionAddress(0usize)
    }

    fn zero() -> (r: Self) {
        MemRegionAddress(0)
    }

    /// Addresses are serialized as four little-endian bytes.
    fn postcard_max_len() -> usize {
        4
    }
}

/// What a backend's sequence counter offers: a first value, an
/// increment, and a little-endian byte encoding, all specified through
/// the counter's numeric model.
pub trait RegionSequence: Sized + Copy {
    spec fn value(&self) -> u64;

    fn first() -> (r: Self)
        ensures
            r.value() == 0,
    ;

    fn increment(&self) -> (r: Self)
        requires
            self.value() < u64::MAX,
        ensures
            r.value() == self.value() + 1,
    ;

    fn to_le_bytes(&self) -> (r: [u8; 8])
        ensures
            r@ == le64(self.value()),
    ;
}

/// A per-collection monotonic counter, stamped in each region a
/// collection owns.
#[derive(Debug, Clone, Copy, PartialEq, Eq, PartialOrd, Ord, Structural)]
pub struct MemCollectionSequence(pub u64);

impl RegionSequence for MemCollectionSequence {
    open spec fn value(&self) -> u64 {
        self.0
    }

    fn first() -> (r: Self) {
        MemCollectionSequence(0)
    }

    fn increment(&self) -> (r: Self) {
        MemCollectionSequence(self.0 + 1)
    }

    fn to_le_bytes(&self) -> (r: [u8; 8]) {
        crate::bytes::le64_array(self.0)
    }
}

/// The storage-wide monotonic counter, bumped on every header write.
#[derive(Debug, Clone, Copy, PartialEq, Eq, PartialOrd, Ord, Structural)]
pub struct MemStorageSequence(pub u64);

impl RegionSequence for MemStorageSequence {
    open spec fn value(&self) -> u64 {
        self.0
    }

    fn first() -> (r: Self) {
        MemStorageSequence(0)
    }

    fn increment(&self) -> (r: Self) {
        MemStorageSequence(self.0 + 1)
    }

    fn to_le_bytes(&self) -> (r: [u8; 8]) {
        crate::bytes::le64_array(self.0)
    }
}

/// The header of a region.
#[derive(Debug)]
pub struct MemRegionHeader {
    pub sequence: MemStorageSequence,
    pub collection_id: CollectionId,
    pub collection_type: CollectionType,
    pub collection_sequence: MemCollectionSequence,
    /// Reserved link to the collection's WAL region; this backend does
    /// not use it and always stamps the zero address.
    pub wal_address: MemRegionAddress,
    pub free_list_head: Option<MemRegionAddress>,
    pub free_list_tail: Option<MemRegionAddress>,
    pub heads: Vec<(CollectionId, MemRegionAddress)>,
}

/// The scalar free-pointer slot of a region.
#[derive(Debug, Clone, Copy, PartialEq, Eq, Structural)]
pub struct MemFreePointer(pub u32);

/// One region: header, data area, free-pointer slot.
#[derive(Debug)]
pub struct MemRegion {
    pub header: MemRegionHeader,
    pub data: Vec<u8>,
    pub free_pointer: Option<MemRegionAddress>,
}

/// The whole in-memory backing store.
#[derive(Debug)]
pub struct MemIo {
    pub meta: MemStorageMeta,
    pub max_heads: usize,
    pub regions: Vec<MemRegion>,
}

/// The blank header every region carries before its first write.
pub open spec fn blank_header(h: MemRegionHeader) -> bool {
    &&& h.sequence == MemStorageSequence(0u64)
    &&& h.collection_id == CollectionId(0u16)
    &&& h.collection_type == CollectionType::Uninitialized
    &&& h.collection_sequence == MemCollectionSequence(0u64)
    &&& h.wal_address == MemRegionAddress(0usize)
    &&& h.free_list_head is None
    &&& h.free_list_tail is None
    &&& h.heads@.len() == 0
}

impl MemIo {
    /// Basic well-formedness of the backing store: the meta block
    /// matches the regions, every data area has exactly the region
    /// size, geometry fits the on-disk 32-bit encodings, and every
    /// stored pointer names a region.
    pub open spec fn wf(&self) -> bool {
        &&& self.regions@.len() == self.meta.region_count
        &&& 1 <= self.meta.region_count <= 0xffff_ffffusize
        &&& self.meta.region_size <= 0xffff_ffffusize
        &&& forall|i: int|
            0 <= i < self.regions@.len() ==> (#[trigger] self.regions@[i]).data@.len()
                == self.meta.region_size
        &&& forall|i: int|
            0 <= i < self.regions@.len() ==> ((#[trigger] self.regions@[i]).free_pointer matches
            Some(a) ==> a.0 < self.regions@.len())
        &&& forall|i: int|
            0 <= i < self.regions@.len() ==> (#[trigger] self.regions@[i]).header.heads@.len()
                <= self.max_heads
        &&& forall|i: int|
            0 <= i < self.regions@.len() ==> ((#[trigger] self.regions@[i]).header.free_list_head
            matches Some(a) ==> a.0 < self.regions@.len())
        &&& forall|i: int|
            0 <= i < self.regions@.len() ==> ((#[trigger] self.regions@[i]).header.free_list_tail
            matches Some(a) ==> a.0 < self.regions@.len())
    }

    /// The header of region `r`.
    pub open spec fn hdr(&self, r: int) -> MemRegionHeader {
        self.regions@[r].header
    }

    /// The data bytes of region `r`.
    pub open spec fn region_data(&self, r: int) -> Seq<u8> {
        self.regions@[r].data@
    }

    /// The free-pointer slot of region `r`.
    pub open spec fn free_ptr(&self, r: int) -> Option<MemRegionAddress> {
        self.regions@[r].free_pointer
    }

    /// Whether `a` names a region of this store.
    pub open spec fn valid(&self, a: MemRegionAddress) -> bool {
        a.0 < self.regions@.len()
    }

    /// The meta block has been written once the first region's header
    /// carries a collection type.
    pub open spec fn spec_initialized(&self) -> bool {
        self.regions@[0].header.collection_type != CollectionType::Uninitialized
    }

    /// A fresh store: `region_count` regions of `data_size` zero bytes,
    /// every header blank, every free pointer empty.
    pub fn new(data_size: usize, max_heads: usize, region_count: usize) -> (r: Result<
        MemIo,
        crate::StorageError,
    >)
        requires
            1 <= region_count <= 0xffff_ffffusize,
            data_size <= 0xffff_ffffusize,
        ensures
            r matches Ok(m) && {
                &&& m.wf()
                &&& m.meta == (MemStorageMeta { region_size: data_size, region_count })
                &&& m.max_heads == max_heads
                &&& !m.spec_initialized()
                &&& forall|i: int| 0 <= i < region_count ==> blank_header(#[trigger] m.hdr(i))
                &&& forall|i: int| 0 <= i < region_count ==> #[trigger] m.free_ptr(i) is None
                &&& forall|i: int|
                    0 <= i < region_count ==> (#[trigger] m.region_data(i)) == Seq::<u8>::new(
                        data_size as nat,
                        |j: int| 0u8,
                    )
            },
    {
        let meta = MemStorageMeta::new(data_size, region_count);
        let mut regions: Vec<MemRegion> = Vec::new();
        let mut i: usize = 0;
        while i < region_count
            invariant
                i <= region_count,
                regions@.len() == i,
                data_size <= 0xffff_ffffusize,
                forall|k: int| 0 <= k < i ==> blank_header((#[trigger] regions@[k]).header),
                forall|k: int| 0 <= k < i ==> (#[trigger] regions@[k]).free_pointer is None,
                forall|k: int|
                    0 <= k < i ==> (#[trigger] regions@[k]).data@ == Seq::<u8>::new(
                        data_size as nat,
                        |j: int| 0u8,
                    ),
            decreases region_count - i,
        {
            let mut data: Vec<u8> = Vec::new();
            let mut j: usize = 0;
            while j < data_size
                invariant
                    j <= data_size,
                    data@.len() == j,
                    forall|k: int| 0 <= k < j ==> data@[k] == 0u8,
                decreases data_size - j,
            {
                data.push(0u8);
                j += 1;
            }
            proof {
                assert(data@ =~= Seq::<u8>::new(data_size as nat, |j: int| 0u8));
            }
            let header = MemRegionHeader {
                sequence: MemStorageSequence(0),
                collection_id: CollectionId(0),
                collection_type: CollectionType::Uninitialized,
                collection_sequence: MemCollectionSequence(0),
                wal_address: MemRegionAddress(0),
                free_list_head: None,
                free_list_tail: None,
                heads: Vec::new(),
            };
            regions.push(MemRegion { header, data, free_pointer: None });
            i += 1;
        }
        Ok(MemIo { meta, max_heads, regions })
    }

    /// Whether the store has a valid meta block.
    pub fn is_initialized(&self) -> (r: Result<bool, IoError>)
        requires
            self.wf(),
        ensures
            r == Ok::<bool, IoError>(self.spec_initialized()),
    {
        Ok(self.regions[0].header.collection_type != CollectionType::Uninitialized)
    }

    /// Records the geometry; rejects a mismatch with the store's fixed
    /// capacity.  On a match there is nothing further to record: the
    /// meta block already holds the capacity.
    pub fn write_meta(&mut self, region_size: usize, region_count: usize) -> (r: Result<
        (),
        IoError,
    >)
        requires
            old(self).wf(),
        ensures
            *final(self) == *old(self),
            region_size != old(self).meta.region_size ==> r == Err::<(), IoError>(
                IoError::InvalidRegionSize,
            ),
            region_size == old(self).meta.region_size && region_count != old(
                self,
            ).meta.region_count ==> r == Err::<(), IoError>(IoError::InvalidRegionCount),
            region_size == old(self).meta.region_size && region_count == old(
                self,
            ).meta.region_count ==> r == Ok::<(), IoError>(()),
    {
        if region_size != self.meta.region_size {
            return Err(IoError::InvalidRegionSize);
        }
        if region_count != self.meta.region_count {
            return Err(IoError::InvalidRegionCount);
        }
        Ok(())
    }

    /// The address of the region with the given index.
    pub fn get_region_address(&self, index: usize) -> (r: Result<MemRegionAddress, IoError>)
        ensures
            r == Ok::<MemRegionAddress, IoError>(MemRegionAddress(index)),
    {
        Ok(MemRegionAddress(index))
    }

    /// The size of the user-writable portion of every region.
    pub fn get_region_size(&self) -> (r: usize)
        ensures
            r == self.meta.region_size,
    {
        self.meta.region_size
    }

    /// The storage meta block.
    pub fn get_meta(&self) -> (r: Result<&MemStorageMeta, IoError>)
        ensures
            r == Ok::<&MemStorageMeta, IoError>(&self.meta),
    {
        Ok(&self.meta)
    }

    /// The header of the named region.
    pub fn get_region_header(&self, index: MemRegionAddress) -> (r: Result<
        &MemRegionHeader,
        IoError,
    >)
        ensures
            self.valid(index) ==> (r matches Ok(h) && *h == self.hdr(index.0 as int)),
            !self.valid(index) ==> r == Err::<&MemRegionHeader, IoError>(
                IoError::InvalidAddress(index),
            ),
    {
        if index.0 < self.regions.len() {
            Ok(&self.regions[index.0].header)
        } else {
            Err(IoError::InvalidAddress(index))
        }
    }

    /// Writes the named region's header; the data area and the free
    /// pointer are untouched.  The reserved WAL link is stamped zero.
    pub fn write_region_header(
        &mut self,
        address: MemRegionAddress,
        storage_sequence: MemStorageSequence,
        collection_id: CollectionId,
        collection_type: CollectionType,
        collection_sequence: MemCollectionSequence,
        free_list_head: Option<MemRegionAddress>,
        free_list_tail: Option<MemRegionAddress>,
        addresses: &[(CollectionId, MemRegionAddress)],
    ) -> (r: Result<(), IoError>)
        requires
            old(self).wf(),
            free_list_head matches Some(a) ==> a.0 < old(self).regions@.len(),
            free_list_tail matches Some(a) ==> a.0 < old(self).regions@.len(),
        ensures
            final(self).wf(),
            !old(self).valid(address) ==> r == Err::<(), IoError>(IoError::InvalidAddress(address))
                && *final(self) == *old(self),
            old(self).valid(address) && addresses@.len() > old(self).max_heads ==> r == Err::<
                (),
                IoError,
            >(IoError::InvalidHeads) && *final(self) == *old(self),
            old(self).valid(address) && addresses@.len() <= old(self).max_heads ==> {
                &&& r == Ok::<(), IoError>(())
                &&& final(self).meta == old(self).meta
                &&& final(self).max_heads == old(self).max_heads
                &&& final(self).regions@.len() == old(self).regions@.len()
                &&& forall|i: int|
                    0 <= i < old(self).regions@.len() && i != address.0 ==> final(self).regions@[i]
                        == old(self).regions@[i]
                &&& final(self).region_data(address.0 as int) == old(self).region_data(
                    address.0 as int,
                )
                &&& final(self).free_ptr(address.0 as int) == old(self).free_ptr(address.0 as int)
                &&& final(self).hdr(address.0 as int).sequence == storage_sequence
                &&& final(self).hdr(address.0 as int).collection_id == collection_id
                &&& final(self).hdr(address.0 as int).collection_type == collection_type
                &&& final(self).hdr(address.0 as int).collection_sequence == collection_sequence
                &&& final(self).hdr(address.0 as int).wal_address == MemRegionAddress(0usize)
                &&& final(self).hdr(address.0 as int).free_list_head == free_list_head
                &&& final(self).hdr(address.0 as int).free_list_tail == free_list_tail
                &&& final(self).hdr(address.0 as int).heads@ == addresses@
            },
    {
        if address.0 >= self.regions.len() {
            return Err(IoError::InvalidAddress(address));
        }
        if addresses.len() > self.max_heads {
            return Err(IoError::InvalidHeads);
        }
        let mut heads: Vec<(CollectionId, MemRegionAddress)> = Vec::new();
        let mut i: usize = 0;
        while i < addresses.len()
            invariant
                i <= addresses@.len(),
                heads@.len() == i,
                forall|k: int| 0 <= k < i ==> heads@[k] == addresses@[k],
            decreases addresses@.len() - i,
        {
            heads.push(addresses[i]);
            i += 1;
        }
        proof {
            assert(heads@ =~= addresses@);
        }
        let mut region = self.regions.remove(address.0);
        region.header = MemRegionHeader {
            sequence: storage_sequence,
            collection_id,
            collection_type,
            collection_sequence,
            wal_address: MemRegionAddress(0),
            free_list_head,
            free_list_tail,
            heads,
        };
        self.regions.insert(address.0, region);
        proof {
            assert(final(self).regions@ =~= old(self).regions@.update(
                address.0 as int,
                final(self).regions@[address.0 as int],
            ));
        }
        Ok(())
    }

    /// Reads `len` bytes of the named region's data area at `offset`.
    pub fn get_region_data(&self, index: MemRegionAddress, offset: usize, len: usize) -> (r: Result<
        Vec<u8>,
        IoError,
    >)
        requires
            self.wf(),
        ensures
            offset + len > self.meta.region_size ==> r == Err::<Vec<u8>, IoError>(
                IoError::OutOfBounds,
            ),
            offset + len <= self.meta.region_size && !self.valid(index) ==> r == Err::<
                Vec<u8>,
                IoError,
            >(IoError::InvalidAddress(index)),
            offset + len <= self.meta.region_size && self.valid(index) ==> (r matches Ok(v) && v@
                == self.region_data(index.0 as int).subrange(
                offset as int,
                offset as int + len as int,
            )),
    {
        if offset > self.meta.region_size || len > self.meta.region_size - offset {
            return Err(IoError::OutOfBounds);
        }
        if index.0 >= self.regions.len() {
            return Err(IoError::InvalidAddress(index));
        }
        let region = &self.regions[index.0];
        let mut out: Vec<u8> = Vec::new();
        let mut i: usize = 0;
        while i < len
            invariant
                i <= len,
                out@.len() == i,
                offset + len <= 0xffff_ffffusize,
                offset + len <= region.data@.len(),
                forall|k: int| 0 <= k < i ==> out@[k] == region.data@[offset + k],
            decreases len - i,
        {
            out.push(region.data[offset + i]);
            i += 1;
        }
        proof {
            assert(out@ =~= self.region_data(index.0 as int).subrange(
                offset as int,
                offset as int + len as int,
            ));
        }
        Ok(out)
    }

    /// Writes `data` into the named region's data area at `offset`;
    /// everything else is untouched.
    pub fn write_region_data(&mut self, index: MemRegionAddress, offset: usize, data: &[u8]) -> (r:
        Result<(), IoError>)
        requires
            old(self).wf(),
        ensures
            final(self).wf(),
            offset + data@.len() > old(self).meta.region_size ==> r == Err::<(), IoError>(
                IoError::OutOfBounds,
            ) && *final(self) == *old(self),
            offset + data@.len() <= old(self).meta.region_size && !old(self).valid(index) ==> r
                == Err::<(), IoError>(IoError::InvalidAddress(index)) && *final(self) == *old(self),
            offset + data@.len() <= old(self).meta.region_size && old(self).valid(index) ==> {
                &&& r == Ok::<(), IoError>(())
                &&& final(self).meta == old(self).meta
                &&& final(self).max_heads == old(self).max_heads
                &&& final(self).regions@.len() == old(self).regions@.len()
                &&& forall|i: int|
                    0 <= i < old(self).regions@.len() && i != index.0 ==> final(self).regions@[i]
                        == old(self).regions@[i]
                &&& final(self).hdr(index.0 as int) == old(self).hdr(index.0 as int)
                &&& final(self).free_ptr(index.0 as int) == old(self).free_ptr(index.0 as int)
                &&& final(self).region_data(index.0 as int) == old(self).region_data(
                    index.0 as int,
                ).subrange(0, offset as int) + data@ + old(self).region_data(
                    index.0 as int,
                ).subrange(offset + data@.len(), old(self).meta.region_size as int)
            },
    {
        let len = data.len();
        if offset > self.meta.region_size || len > self.meta.region_size - offset {
            return Err(IoError::OutOfBounds);
        }
        if index.0 >= self.regions.len() {
            return Err(IoError::InvalidAddress(index));
        }
        let ghost prev = self.regions@[index.0 as int].data@;
        let mut region = self.regions.remove(index.0);
        let mut i: usize = 0;
        while i < len
            invariant
                i <= len,
                offset + len <= 0xffff_ffffusize,
                index.0 < old(self).regions@.len(),
                offset + len <= region.data@.len(),
                region.data@.len() == prev.len(),
                len == data@.len(),
                region.header == old(self).regions@[index.0 as int].header,
                region.free_pointer == old(self).regions@[index.0 as int].free_pointer,
                forall|k: int| 0 <= k < offset ==> region.data@[k] == prev[k],
                forall|k: int| 0 <= k < i ==> region.data@[offset + k] == data@[k],
                forall|k: int| offset + len <= k < prev.len() ==> region.data@[k] == prev[k],
            decreases len - i,
        {
            region.data[offset + i] = data[i];
            i += 1;
        }
        proof {
            assert(region.data@ =~= prev.subrange(0, offset as int) + data@ + prev.subrange(
                offset + data@.len(),
                prev.len() as int,
            ));
        }
        self.regions.insert(index.0, region);
        proof {
            assert(final(self).regions@ =~= old(self).regions@.update(
                index.0 as int,
                final(self).regions@[index.0 as int],
            ));
        }
        Ok(())
    }

    /// The free-pointer slot of the named region.
    pub fn get_region_free_pointer(&self, index: MemRegionAddress) -> (r: Result<
        Option<MemRegionAddress>,
        IoError,
    >)
        ensures
            self.valid(index) ==> r == Ok::<Option<MemRegionAddress>, IoError>(
                self.free_ptr(index.0 as int),
            ),
            !self.valid(index) ==> r == Err::<Option<MemRegionAddress>, IoError>(
                IoError::InvalidAddress(index),
            ),
    {
        if index.0 < self.regions.len() {
            Ok(self.regions[index.0].free_pointer)
        } else {
            Err(IoError::InvalidAddress(index))
        }
    }

    /// Writes the free-pointer slot of the named region; everything
    /// else is untouched.
    pub fn write_region_free_pointer(
        &mut self,
        index: MemRegionAddress,
        pointer: MemRegionAddress,
    ) -> (r: Result<(), IoError>)
        requires
            old(self).wf(),
            pointer.0 < old(self).regions@.len(),
        ensures
            final(self).wf(),
            !old(self).valid(index) ==> r == Err::<(), IoError>(IoError::InvalidAddress(index))
                && *final(self) == *old(self),
            old(self).valid(index) ==> {
                &&& r == Ok::<(), IoError>(())
                &&& final(self).meta == old(self).meta
                &&& final(self).max_heads == old(self).max_heads
                &&& final(self).regions@.len() == old(self).regions@.len()
                &&& forall|i: int|
                    0 <= i < old(self).regions@.len() && i != index.0 ==> final(self).regions@[i]
                        == old(self).regions@[i]
                &&& final(self).hdr(index.0 as int) == old(self).hdr(index.0 as int)
                &&& final(self).region_data(index.0 as int) == old(self).region_data(
                    index.0 as int,
                )
                &&& final(self).free_ptr(index.0 as int) == Some(pointer)
            },
    {
        if index.0 >= self.regions.len() {
            return Err(IoError::InvalidAddress(index));
        }
        let mut region = self.regions.remove(index.0);
        region.free_pointer = Some(pointer);
        self.regions.insert(index.0, region);
        proof {
            assert(final(self).regions@ =~= old(self).regions@.update(
                index.0 as int,
                final(self).regions@[index.0 as int],
            ));
        }
        Ok(())
    }
}

} // verus!
