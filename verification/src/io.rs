//! The region manager: free-list discipline, storage-sequence
//! stamping, the heads table, and init / open / allocate /
//! write-header / read-header over the in-memory backend.

use vstd::prelude::*;

use crate::mem_io::{
    MemIo, MemIoError, MemRegionAddress, MemRegionHeader, MemStorageSequence,
    MemCollectionSequence,
};
use crate::{CollectionId, CollectionType};

verus! {

/// Errors of the region manager and of the collections above it.
#[derive(Debug, Clone, Copy, PartialEq, Eq, Structural)]
pub enum IoError {
    Unreachable,
    AlreadyInitialized,
    NotInitialized,
    InvalidRegionSize,
    InvalidRegionCount,
    InvalidAddress(MemRegionAddress),
    InvalidHeads,
    OutOfBounds,
    StorageFull,
    Backing(MemIoError),
    RegionNotFound(MemRegionAddress),
    SerializationError,
    BufferTooSmall(usize),
    RecordTooLarge(usize),
    AlreadyCommitted,
}

/// The heads table is strictly sorted by collection id.
pub open spec fn heads_sorted(s: Seq<(CollectionId, MemRegionAddress)>) -> bool {
    forall|i: int, j: int| 0 <= i < j < s.len() ==> (#[trigger] s[i]).0.0 < (#[trigger] s[j]).0.0
}

/// The region a heads table maps a collection id to, if any.
pub open spec fn head_lookup(
    s: Seq<(CollectionId, MemRegionAddress)>,
    id: CollectionId,
) -> Option<MemRegionAddress> {
    if exists|i: int| 0 <= i < s.len() && (#[trigger] s[i]).0 == id {
        let i = choose|i: int| 0 <= i < s.len() && (#[trigger] s[i]).0 == id;
        Some(s[i].1)
    } else {
        None
    }
}

/// No two regions ever carry the same written (nonzero) storage
/// sequence: the sequence is bumped on every header write, so a value
/// shared by two headers can only be the blank zero.
pub open spec fn seq_distinct(mem: MemIo) -> bool {
    forall|r1: int, r2: int|
        0 <= r1 < mem.regions@.len() && 0 <= r2 < mem.regions@.len() && r1 != r2 && (
        #[trigger] mem.hdr(r1)).sequence == (#[trigger] mem.hdr(r2)).sequence ==> mem.hdr(
            r1,
        ).sequence.0 == 0
}

/// Region `h` is the one `open` selects: the first region whose
/// header attains the maximum storage sequence.
pub open spec fn is_scan_head(mem: MemIo, h: int) -> bool {
    &&& 0 <= h < mem.regions@.len()
    &&& forall|r: int|
        0 <= r < mem.regions@.len() ==> (#[trigger] mem.hdr(r)).sequence.0 <= mem.hdr(h).sequence.0
    &&& forall|r: int| 0 <= r < h ==> (#[trigger] mem.hdr(r)).sequence.0 < mem.hdr(h).sequence.0
}

/// A store that was never initialized: every header still carries the
/// blank zero sequence.
pub open spec fn pristine(mem: MemIo) -> bool {
    forall|r: int| 0 <= r < mem.regions@.len() ==> (#[trigger] mem.hdr(r)).sequence.0 == 0
}

/// The state after popping the free-list head `a`: only the held
/// free-list head moves, to the popped region's stored pointer.
pub open spec fn popped(io: Io, a: MemRegionAddress) -> Io {
    Io { free_list_head: io.backing.free_ptr(a.0 as int), ..io }
}

/// What a successful `write_region_header` does to the region manager:
/// the storage sequence is bumped, `(collection_id, region)` is
/// upserted into the sorted heads table, and the region's header is
/// written carrying the new sequence, the current free-list pointers
/// and the heads snapshot, strictly above every other header's
/// sequence.
pub open spec fn header_write_effect(
    pre: Io,
    post: Io,
    region: MemRegionAddress,
    collection_id: CollectionId,
    collection_type: CollectionType,
    collection_sequence: MemCollectionSequence,
) -> bool {
    &&& post.wf()
    &&& post.synced()
    &&& post.storage_sequence.0 == pre.storage_sequence.0 + 1
    &&& post.storage_head == pre.storage_head
    &&& post.free_list_head == pre.free_list_head
    &&& post.free_list_tail == pre.free_list_tail
    &&& heads_sorted(post.heads@)
    &&& head_lookup(post.heads@, collection_id) == Some(region)
    &&& forall|id2: CollectionId|
        id2 != collection_id ==> #[trigger] head_lookup(post.heads@, id2) == head_lookup(
            pre.heads@,
            id2,
        )
    &&& ((head_lookup(pre.heads@, collection_id) is Some) ==> post.heads@.len()
        == pre.heads@.len())
    &&& ((head_lookup(pre.heads@, collection_id) is None) ==> post.heads@.len()
        == pre.heads@.len() + 1)
    &&& post.backing.regions@.len() == pre.backing.regions@.len()
    &&& post.backing.meta == pre.backing.meta
    &&& post.backing.max_heads == pre.backing.max_heads
    &&& forall|i: int|
        0 <= i < pre.backing.regions@.len() && i != region.0 ==> post.backing.regions@[i]
            == pre.backing.regions@[i]
    &&& post.backing.region_data(region.0 as int) == pre.backing.region_data(region.0 as int)
    &&& post.backing.free_ptr(region.0 as int) == pre.backing.free_ptr(region.0 as int)
    &&& post.backing.hdr(region.0 as int).sequence == post.storage_sequence
    &&& post.backing.hdr(region.0 as int).collection_id == collection_id
    &&& post.backing.hdr(region.0 as int).collection_type == collection_type
    &&& post.backing.hdr(region.0 as int).collection_sequence == collection_sequence
    &&& post.backing.hdr(region.0 as int).free_list_head == pre.free_list_head
    &&& post.backing.hdr(region.0 as int).free_list_tail == pre.free_list_tail
    &&& post.backing.hdr(region.0 as int).heads@ == post.heads@
}

/// The region manager.
pub struct Io {
    pub storage_head: MemRegionAddress,
    pub storage_sequence: MemStorageSequence,
    pub free_list_head: Option<MemRegionAddress>,
    pub free_list_tail: Option<MemRegionAddress>,
    pub backing: MemIo,
    pub heads: Vec<(CollectionId, MemRegionAddress)>,
}

impl Io {
    /// Well-formedness of the region manager: the backing store is
    /// well formed, the heads table is sorted and bounded, every held
    /// address names a region, every header's sequence is bounded by
    /// the current storage sequence, and written sequences are
    /// distinct.
    pub open spec fn wf(&self) -> bool {
        &&& self.backing.wf()
        &&& heads_sorted(self.heads@)
        &&& self.heads@.len() <= self.backing.max_heads
        &&& self.storage_head.0 < self.backing.regions@.len()
        &&& (self.free_list_head matches Some(a) ==> a.0 < self.backing.regions@.len())
        &&& (self.free_list_tail matches Some(a) ==> a.0 < self.backing.regions@.len())
        &&& forall|r: int|
            0 <= r < self.backing.regions@.len() ==> (#[trigger] self.backing.hdr(r)).sequence.0
                <= self.storage_sequence.0
        &&& seq_distinct(self.backing)
    }

    /// The in-memory state has been persisted: some region's header
    /// carries the current storage sequence together with the current
    /// free-list pointers and heads table, and no other region reaches
    /// that sequence.
    pub open spec fn synced(&self) -> bool {
        exists|r: int|
            0 <= r < self.backing.regions@.len() && (#[trigger] self.backing.hdr(r)).sequence
                == self.storage_sequence && self.storage_sequence.0 > 0 && self.backing.hdr(
                r,
            ).free_list_head == self.free_list_head && self.backing.hdr(r).free_list_tail
                == self.free_list_tail && self.backing.hdr(r).heads@ == self.heads@
    }

    /// The size of a region's data area.
    pub fn region_size(&self) -> (r: usize)
        ensures
            r == self.backing.meta.region_size,
    {
        self.backing.get_region_size()
    }

    /// The current storage sequence.
    pub fn storage_sequence(&self) -> (r: MemStorageSequence)
        ensures
            r == self.storage_sequence,
    {
        self.storage_sequence
    }

    /// Gives the backing store back, consuming the manager.
    pub fn into_inner(self) -> (r: MemIo)
        ensures
            r == self.backing,
    {
        self.backing
    }

    /// Initializes a pristine store: records the geometry, chains
    /// every region but the first onto the free list, and creates the
    /// system write-ahead log at region zero, whose header write bumps
    /// the storage sequence to one.
    pub fn init(backing: MemIo, region_size: usize, region_count: usize) -> (r: Result<
        Io,
        IoError,
    >)
        requires
            backing.wf(),
            backing.spec_initialized() || pristine(backing),
        ensures
            backing.spec_initialized() ==> r == Err::<Io, IoError>(IoError::AlreadyInitialized),
            !backing.spec_initialized() && region_count < 2 ==> r == Err::<Io, IoError>(
                IoError::InvalidRegionCount,
            ),
            !backing.spec_initialized() && region_count >= 2 && region_size
                != backing.meta.region_size ==> r == Err::<Io, IoError>(IoError::InvalidRegionSize),
            !backing.spec_initialized() && region_count >= 2 && region_size
                == backing.meta.region_size && region_count != backing.meta.region_count ==> r
                == Err::<Io, IoError>(IoError::InvalidRegionCount),
            !backing.spec_initialized() && region_count >= 2 && region_size
                == backing.meta.region_size && region_count == backing.meta.region_count
                && backing.max_heads == 0 ==> r == Err::<Io, IoError>(IoError::OutOfBounds),
            !backing.spec_initialized() && region_count >= 2 && region_size
                == backing.meta.region_size && region_count == backing.meta.region_count
                && backing.max_heads >= 1 ==> (r matches Ok(io) && {
                &&& io.wf()
                &&& io.synced()
                &&& io.storage_head == MemRegionAddress(0usize)
                &&& io.storage_sequence == MemStorageSequence(1u64)
                &&& io.free_list_head == Some(MemRegionAddress(1usize))
                &&& io.free_list_tail == Some(MemRegionAddress((region_count - 1) as usize))
                &&& io.heads@ =~= seq![(CollectionId(0u16), MemRegionAddress(0usize))]
                &&& io.backing.meta == backing.meta
                &&& io.backing.max_heads == backing.max_heads
                &&& io.backing.regions@.len() == backing.regions@.len()
                &&& io.backing.spec_initialized()
                &&& forall|k: int|
                    0 <= k < region_count - 1 ==> #[trigger] io.backing.free_ptr(k) == Some(
                        MemRegionAddress((k + 1) as usize),
                    )
                &&& io.backing.free_ptr((region_count - 1) as int) == backing.free_ptr(
                    (region_count - 1) as int,
                )
                &&& forall|k: int|
                    0 <= k < region_count ==> #[trigger] io.backing.region_data(k)
                        == backing.region_data(k)
                &&& forall|k: int|
                    1 <= k < region_count ==> #[trigger] io.backing.hdr(k) == backing.hdr(k)
                &&& io.backing.hdr(0).sequence == MemStorageSequence(1u64)
                &&& io.backing.hdr(0).collection_id == CollectionId(0u16)
                &&& io.backing.hdr(0).collection_type == CollectionType::Wal
                &&& io.backing.hdr(0).collection_sequence == MemCollectionSequence(0u64)
                &&& io.backing.hdr(0).free_list_head == Some(MemRegionAddress(1usize))
                &&& io.backing.hdr(0).free_list_tail == Some(
                    MemRegionAddress((region_count - 1) as usize),
                )
                &&& io.backing.hdr(0).heads@ == io.heads@
            }),
    {
        let ghost b0 = backing;
        let mut backing = backing;
        match backing.is_initialized() {
            Ok(true) => {
                return Err(IoError::AlreadyInitialized);
            },
            Ok(false) => {},
            Err(_) => {
                proof {
                    assert(false);
                }
                return Err(IoError::Unreachable);
            },
        }
        if region_count < 2 {
            return Err(IoError::InvalidRegionCount);
        }
        match backing.write_meta(region_size, region_count) {
            Ok(()) => {},
            Err(e) => {
                return Err(e);
            },
        }
        // Chain every region onto the free list: the pointer of region
        // i - 1 names region i.
        let first_free_address = match backing.get_region_address(0) {
            Ok(a) => a,
            Err(e) => {
                return Err(e);
            },
        };
        let mut last_free_address = first_free_address;
        let mut i: usize = 1;
        while i < region_count
            invariant
                1 <= i <= region_count,
                region_count == backing.meta.region_count,
                region_count >= 2,
                backing.wf(),
                pristine(b0),
                !b0.spec_initialized(),
                pristine(backing),
                !backing.spec_initialized(),
                last_free_address == MemRegionAddress((i - 1) as usize),
                backing.meta == b0.meta,
                backing.max_heads == b0.max_heads,
                backing.regions@.len() == b0.regions@.len(),
                forall|k: int| 0 <= k < region_count ==> #[trigger] backing.hdr(k) == b0.hdr(k),
                forall|k: int|
                    0 <= k < region_count ==> #[trigger] backing.region_data(k) == b0.region_data(
                        k,
                    ),
                forall|k: int|
                    0 <= k < i - 1 ==> #[trigger] backing.free_ptr(k) == Some(
                        MemRegionAddress((k + 1) as usize),
                    ),
                forall|k: int|
                    i - 1 <= k < region_count ==> #[trigger] backing.free_ptr(k) == b0.free_ptr(k),
            decreases region_count - i,
        {
            let address = match backing.get_region_address(i) {
                Ok(a) => a,
                Err(e) => {
                    return Err(e);
                },
            };
            let ghost bprev = backing;
            match backing.write_region_free_pointer(last_free_address, address) {
                Ok(()) => {},
                Err(_) => {
                    proof {
                        assert(false);
                    }
                    return Err(IoError::Unreachable);
                },
            }
            proof {
                assert forall|k: int| 0 <= k < region_count implies #[trigger] backing.hdr(k)
                    == b0.hdr(k) by {
                    if k != last_free_address.0 {
                        assert(backing.regions@[k] == bprev.regions@[k]);
                    }
                    assert(bprev.hdr(k) == b0.hdr(k));
                }
                assert forall|k: int|
                    0 <= k < region_count implies #[trigger] backing.region_data(k)
                    == b0.region_data(k) by {
                    if k != last_free_address.0 {
                        assert(backing.regions@[k] == bprev.regions@[k]);
                    }
                    assert(bprev.region_data(k) == b0.region_data(k));
                }
                assert forall|k: int|
                    0 <= k < i implies #[trigger] backing.free_ptr(k) == Some(
                    MemRegionAddress((k + 1) as usize),
                ) by {
                    if k < i - 1 {
                        assert(backing.regions@[k] == bprev.regions@[k]);
                        assert(bprev.free_ptr(k) == Some(MemRegionAddress((k + 1) as usize)));
                    } else {
                        assert(k == last_free_address.0);
                    }
                }
                assert forall|k: int|
                    i <= k < region_count implies #[trigger] backing.free_ptr(k) == b0.free_ptr(
                    k,
                ) by {
                    assert(backing.regions@[k] == bprev.regions@[k]);
                    assert(bprev.free_ptr(k) == b0.free_ptr(k));
                }
                assert(pristine(backing));
            }
            last_free_address = address;
            i += 1;
        }
        let wal_address = match backing.get_region_address(0) {
            Ok(a) => a,
            Err(e) => {
                return Err(e);
            },
        };
        let collection_id = CollectionId(0);
        if backing.max_heads == 0 {
            return Err(IoError::OutOfBounds);
        }
        let mut heads: Vec<(CollectionId, MemRegionAddress)> = Vec::new();
        heads.push((collection_id, wal_address));
        let mut this = Io {
            storage_head: wal_address,
            storage_sequence: MemStorageSequence(0),
            free_list_head: Some(first_free_address),
            free_list_tail: Some(last_free_address),
            backing,
            heads,
        };
        proof {
            assert(this.wf());
            assert(head_lookup(this.heads@, collection_id) == Some(wal_address)) by {
                lemma_head_lookup_some_pub(this.heads@, collection_id, 0);
            }
        }
        let ghost pre_wal = this;
        let wal = match crate::wal::Wal::new(&mut this, collection_id) {
            Ok(w) => w,
            Err(_) => {
                proof {
                    assert(false);
                }
                return Err(IoError::Unreachable);
            },
        };
        proof {
            let s = this.heads@;
            assert(head_lookup(s, collection_id) == Some(MemRegionAddress(0usize)));
            assert(s.len() == 1);
            assert(exists|k: int| 0 <= k < s.len() && (#[trigger] s[k]).0 == collection_id);
            let k = choose|k: int| 0 <= k < s.len() && (#[trigger] s[k]).0 == collection_id;
            assert(k == 0);
            assert(s[0].0 == CollectionId(0u16) && s[0].1 == MemRegionAddress(0usize));
            assert(s =~= seq![(CollectionId(0u16), MemRegionAddress(0usize))]);
        }
        let _ = wal;
        proof {
            let rc = region_count as int;
            assert forall|k: int| 0 <= k < rc - 1 implies #[trigger] this.backing.free_ptr(k)
                == Some(MemRegionAddress((k + 1) as usize)) by {
                if k != 0 {
                    assert(this.backing.regions@[k] == pre_wal.backing.regions@[k]);
                }
                assert(pre_wal.backing.free_ptr(k) == Some(MemRegionAddress((k + 1) as usize)));
            }
            assert(this.backing.free_ptr(rc - 1) == b0.free_ptr(rc - 1)) by {
                assert(rc - 1 != 0);
                assert(this.backing.regions@[rc - 1] == pre_wal.backing.regions@[rc - 1]);
                assert(pre_wal.backing.free_ptr(rc - 1) == b0.free_ptr(rc - 1));
            }
            assert forall|k: int| 0 <= k < rc implies #[trigger] this.backing.region_data(k)
                == b0.region_data(k) by {
                if k != 0 {
                    assert(this.backing.regions@[k] == pre_wal.backing.regions@[k]);
                }
                assert(pre_wal.backing.region_data(k) == b0.region_data(k));
            }
            assert forall|k: int| 1 <= k < rc implies #[trigger] this.backing.hdr(k) == b0.hdr(
                k,
            ) by {
                assert(this.backing.regions@[k] == pre_wal.backing.regions@[k]);
                assert(pre_wal.backing.hdr(k) == b0.hdr(k));
            }
        }
        Ok(this)
    }

    /// Opens an initialized store: scans every region header, selects
    /// the survivor with the greatest storage sequence as the
    /// authoritative root, and adopts its free-list pointers and heads
    /// table.
    pub fn open(backing: MemIo) -> (r: Result<Io, IoError>)
        requires
            backing.wf(),
            seq_distinct(backing),
        ensures
            !backing.spec_initialized() ==> r == Err::<Io, IoError>(IoError::NotInitialized),
            backing.spec_initialized() ==> (r is Ok || r == Err::<Io, IoError>(
                IoError::InvalidHeads,
            )),
            backing.spec_initialized() ==> forall|h: int|
                is_scan_head(backing, h) ==> ((r is Ok) <==> heads_sorted(
                    #[trigger] backing.hdr(h).heads@,
                )),
            r matches Ok(io) ==> {
                &&& io.wf()
                &&& io.backing == backing
                &&& is_scan_head(backing, io.storage_head.0 as int)
                &&& io.storage_sequence == backing.hdr(io.storage_head.0 as int).sequence
                &&& io.free_list_head == backing.hdr(io.storage_head.0 as int).free_list_head
                &&& io.free_list_tail == backing.hdr(io.storage_head.0 as int).free_list_tail
                &&& io.heads@ == backing.hdr(io.storage_head.0 as int).heads@
            },
    {
        match backing.is_initialized() {
            Ok(false) => {
                return Err(IoError::NotInitialized);
            },
            Ok(true) => {},
            Err(_) => {
                proof {
                    assert(false);
                }
                return Err(IoError::Unreachable);
            },
        }
        let mut storage_head = MemRegionAddress(0);
        let mut storage_sequence = match backing.get_region_header(storage_head) {
            Ok(h) => h.sequence,
            Err(_) => {
                proof {
                    assert(false);
                }
                return Err(IoError::Unreachable);
            },
        };
        let region_count = match backing.get_meta() {
            Ok(m) => m.region_count(),
            Err(_) => {
                proof {
                    assert(false);
                }
                return Err(IoError::Unreachable);
            },
        };
        let mut i: usize = 1;
        while i < region_count
            invariant
                1 <= i <= region_count,
                backing.wf(),
                region_count == backing.meta.region_count,
                storage_head.0 < i,
                backing.hdr(storage_head.0 as int).sequence == storage_sequence,
                forall|k: int|
                    0 <= k < i ==> (#[trigger] backing.hdr(k)).sequence.0 <= storage_sequence.0,
                forall|k: int|
                    0 <= k < storage_head.0 ==> (#[trigger] backing.hdr(k)).sequence.0
                        < storage_sequence.0,
            decreases region_count - i,
        {
            let address = MemRegionAddress(i);
            let header_sequence = match backing.get_region_header(address) {
                Ok(h) => h.sequence,
                Err(_) => {
                    proof {
                        assert(false);
                    }
                    return Err(IoError::Unreachable);
                },
            };
            if header_sequence.0 > storage_sequence.0 {
                proof {
                    assert forall|k: int| 0 <= k < i implies (#[trigger] backing.hdr(
                        k,
                    )).sequence.0 < header_sequence.0 by {
                        assert(backing.hdr(k).sequence.0 <= storage_sequence.0);
                    }
                }
                storage_head = address;
                storage_sequence = header_sequence;
            }
            i += 1;
        }
        // Adopt the root header's free-list pointers and heads table.
        let (free_list_head, free_list_tail, heads) = {
            let header = match backing.get_region_header(storage_head) {
                Ok(h) => h,
                Err(_) => {
                    proof {
                        assert(false);
                    }
                    return Err(IoError::Unreachable);
                },
            };
            let mut heads: Vec<(CollectionId, MemRegionAddress)> = Vec::new();
            let mut k: usize = 0;
            while k < header.heads.len()
                invariant
                    k <= header.heads@.len(),
                    heads@.len() == k,
                    forall|j: int| 0 <= j < k ==> heads@[j] == header.heads@[j],
                decreases header.heads@.len() - k,
            {
                heads.push(header.heads[k]);
                k += 1;
            }
            proof {
                assert(heads@ =~= header.heads@);
            }
            (header.free_list_head, header.free_list_tail, heads)
        };
        // A heads table written by this engine is sorted; reject a
        // corrupted one.
        let mut k: usize = 1;
        while k < heads.len()
            invariant
                1 <= k <= heads@.len() || heads@.len() == 0,
                backing.wf(),
                seq_distinct(backing),
                backing.spec_initialized(),
                is_scan_head(backing, storage_head.0 as int),
                heads@ == backing.hdr(storage_head.0 as int).heads@,
                forall|a: int, b: int|
                    0 <= a < b < k ==> (#[trigger] heads@[a]).0.0 < (#[trigger] heads@[b]).0.0,
            decreases heads@.len() - k,
        {
            if heads[k - 1].0.0 >= heads[k].0.0 {
                proof {
                    assert(!heads_sorted(heads@));
                    assert(is_scan_head(backing, storage_head.0 as int));
                    assert forall|h: int| is_scan_head(backing, h) implies h
                        == storage_head.0 as int by {
                        lemma_scan_head_unique(backing, h, storage_head.0 as int);
                    }
                }
                return Err(IoError::InvalidHeads);
            }
            proof {
                assert forall|a: int, b: int| 0 <= a < b < k + 1 implies (
                #[trigger] heads@[a]).0.0 < (#[trigger] heads@[b]).0.0 by {
                    if b == k && a < k - 1 {
                        assert(heads@[a].0.0 < heads@[k - 1].0.0);
                    }
                }
            }
            k += 1;
        }
        proof {
            assert(heads_sorted(heads@));
            assert(is_scan_head(backing, storage_head.0 as int));
            assert forall|h: int| is_scan_head(backing, h) implies h == storage_head.0 as int by {
                lemma_scan_head_unique(backing, h, storage_head.0 as int);
            }
        }
        Ok(
            Io {
                storage_head,
                storage_sequence,
                free_list_head,
                free_list_tail,
                backing,
                heads,
            },
        )
    }

    /// Init/open round trip: opening the backing store of a region
    /// manager whose state has been persisted (as `init` and every
    /// header write leave it) succeeds and restores the same storage
    /// sequence, free-list pointers and heads table.
    pub fn reopen(self) -> (r: Result<Io, IoError>)
        requires
            self.wf(),
            self.synced(),
            self.backing.spec_initialized(),
        ensures
            r matches Ok(io) && {
                &&& io.wf()
                &&& io.backing == self.backing
                &&& io.storage_sequence == self.storage_sequence
                &&& io.free_list_head == self.free_list_head
                &&& io.free_list_tail == self.free_list_tail
                &&& io.heads@ == self.heads@
            },
    {
        let ghost pre = self;
        let ghost w = choose|r: int|
            0 <= r < pre.backing.regions@.len() && (#[trigger] pre.backing.hdr(r)).sequence
                == pre.storage_sequence && pre.storage_sequence.0 > 0 && pre.backing.hdr(
                r,
            ).free_list_head == pre.free_list_head && pre.backing.hdr(r).free_list_tail
                == pre.free_list_tail && pre.backing.hdr(r).heads@ == pre.heads@;
        proof {
            assert forall|k: int| 0 <= k < pre.backing.regions@.len() implies (
            #[trigger] pre.backing.hdr(k)).sequence.0 <= pre.backing.hdr(w).sequence.0 by {
                assert(pre.backing.hdr(k).sequence.0 <= pre.storage_sequence.0);
            }
            assert forall|k: int| 0 <= k < w implies (#[trigger] pre.backing.hdr(k)).sequence.0
                < pre.backing.hdr(w).sequence.0 by {
                if pre.backing.hdr(k).sequence.0 == pre.backing.hdr(w).sequence.0 {
                    assert(pre.backing.hdr(k).sequence == pre.backing.hdr(w).sequence);
                    assert(pre.backing.hdr(k).sequence.0 == 0);
                }
            }
            assert(is_scan_head(pre.backing, w));
            assert(heads_sorted(pre.backing.hdr(w).heads@));
        }
        let backing = self.into_inner();
        let r = Io::open(backing);
        proof {
            match r {
                Ok(ref io) => {
                    lemma_scan_head_unique(pre.backing, io.storage_head.0 as int, w);
                },
                Err(_) => {
                    assert(heads_sorted(pre.backing.hdr(w).heads@));
                    assert(false);
                },
            }
        }
        r
    }

    /// Pops the free-list head; `StorageFull` when the list is empty.
    pub fn allocate_region(&mut self, collection_id: CollectionId) -> (r: Result<
        MemRegionAddress,
        IoError,
    >)
        requires
            old(self).wf(),
        ensures
            final(self).wf(),
            old(self).free_list_head is None ==> r == Err::<MemRegionAddress, IoError>(
                IoError::StorageFull,
            ) && *final(self) == *old(self),
            old(self).free_list_head matches Some(a) ==> {
                &&& r == Ok::<MemRegionAddress, IoError>(a)
                &&& final(self).free_list_head == old(self).backing.free_ptr(a.0 as int)
                &&& final(self).backing == old(self).backing
                &&& final(self).storage_head == old(self).storage_head
                &&& final(self).storage_sequence == old(self).storage_sequence
                &&& final(self).free_list_tail == old(self).free_list_tail
                &&& final(self).heads == old(self).heads
            },
    {
        let Some(address) = self.free_list_head else {
            return Err(IoError::StorageFull);
        };
        let free_list_head = match self.backing.get_region_free_pointer(address) {
            Ok(p) => p,
            Err(e) => {
                return Err(e);
            },
        };
        self.free_list_head = free_list_head;
        Ok(address)
    }

    /// Binary search of the sorted heads table for a collection id:
    /// `Ok` with the entry's index, or `Err` with the insertion slot.
    fn heads_search(&self, id: CollectionId) -> (r: Result<usize, usize>)
        requires
            heads_sorted(self.heads@),
        ensures
            r matches Ok(i) ==> i < self.heads@.len() && self.heads@[i as int].0 == id,
            r matches Err(i) ==> {
                &&& i <= self.heads@.len()
                &&& forall|k: int| 0 <= k < i ==> (#[trigger] self.heads@[k]).0.0 < id.0
                &&& forall|k: int|
                    i <= k < self.heads@.len() ==> (#[trigger] self.heads@[k]).0.0 > id.0
            },
    {
        let mut left: usize = 0;
        let mut right: usize = self.heads.len();
        while left < right
            invariant
                left <= right <= self.heads@.len(),
                heads_sorted(self.heads@),
                forall|k: int| 0 <= k < left ==> (#[trigger] self.heads@[k]).0.0 < id.0,
                forall|k: int|
                    right <= k < self.heads@.len() ==> (#[trigger] self.heads@[k]).0.0 > id.0,
            decreases right - left,
        {
            let mid = left + (right - left) / 2;
            let entry_id = self.heads[mid].0;
            if entry_id.0 == id.0 {
                proof {
                    assert(self.heads@[mid as int].0.0 == id.0);
                    assert(self.heads@[mid as int].0 == id);
                }
                return Ok(mid);
            } else if entry_id.0 < id.0 {
                left = mid + 1;
            } else {
                right = mid;
            }
        }
        Err(left)
    }

    /// Bumps the storage sequence, upserts `(collection_id, region)`
    /// into the heads table, and writes the region's header carrying
    /// the new sequence, the current free-list pointers and the heads
    /// snapshot.  The new header's sequence is strictly greater than
    /// every other header's.
    pub fn write_region_header(
        &mut self,
        region: MemRegionAddress,
        collection_id: CollectionId,
        collection_type: CollectionType,
        collection_sequence: MemCollectionSequence,
    ) -> (r: Result<(), IoError>)
        requires
            old(self).wf(),
            old(self).storage_sequence.0 < u64::MAX,
        ensures
            final(self).wf(),
            !old(self).backing.valid(region) ==> r == Err::<(), IoError>(
                IoError::InvalidAddress(region),
            ) && *final(self) == *old(self),
            old(self).backing.valid(region) && (head_lookup(old(self).heads@, collection_id)
                is None) && old(self).heads@.len() == old(self).backing.max_heads ==> r == Err::<
                (),
                IoError,
            >(IoError::InvalidHeads) && *final(self) == *old(self),
            old(self).backing.valid(region) && ((head_lookup(old(self).heads@, collection_id)
                is Some) || old(self).heads@.len() < old(self).backing.max_heads) ==> r == Ok::<
                (),
                IoError,
            >(()) && header_write_effect(
                *old(self),
                *final(self),
                region,
                collection_id,
                collection_type,
                collection_sequence,
            ),
    {
        if region.0 >= self.backing.regions.len() {
            return Err(IoError::InvalidAddress(region));
        }
        let search = self.heads_search(collection_id);
        if search.is_err() && self.heads.len() >= self.backing.max_heads {
            proof {
                lemma_head_lookup_none(self.heads@, collection_id);
            }
            return Err(IoError::InvalidHeads);
        }
        proof {
            match search {
                Ok(i) => {
                    lemma_head_lookup_some(self.heads@, collection_id, i as int);
                },
                Err(i) => {
                    lemma_head_lookup_none(self.heads@, collection_id);
                },
            }
        }
        let storage_sequence = self.storage_sequence.0 + 1;
        self.storage_sequence = MemStorageSequence(storage_sequence);
        let ghost heads0 = self.heads@;
        match search {
            Ok(index) => {
                let id_kept = self.heads[index].0;
                let mut entry = self.heads.remove(index);
                entry.1 = region;
                self.heads.insert(index, entry);
                proof {
                    assert(self.heads@ =~= heads0.update(index as int, (collection_id, region)));
                    lemma_head_lookup_update(heads0, index as int, collection_id, region);
                }
            },
            Err(index) => {
                self.heads.insert(index, (collection_id, region));
                proof {
                    lemma_head_lookup_insert(heads0, index as int, collection_id, region);
                }
            },
        }
        let result = self.backing.write_region_header(
            region,
            self.storage_sequence,
            collection_id,
            collection_type,
            collection_sequence,
            self.free_list_head,
            self.free_list_tail,
            self.heads.as_slice(),
        );
        match result {
            Ok(()) => {
                proof {
                    let r0 = region.0 as int;
                    assert(final(self).backing.hdr(r0).sequence == final(self).storage_sequence);
                    assert(final(self).backing.hdr(r0).heads@ == final(self).heads@);
                    assert forall|r: int|
                        0 <= r < final(self).backing.regions@.len() implies (#[trigger] final(self).backing.hdr(r)).sequence.0 <= final(self).storage_sequence.0 by {
                        if r != r0 {
                            assert(final(self).backing.regions@[r] == old(self).backing.regions@[r]);
                            assert(old(self).backing.hdr(r).sequence.0 <= old(self).storage_sequence.0);
                        }
                    }
                    assert(final(self).synced());
                    assert forall|r1: int, r2: int|
                        0 <= r1 < final(self).backing.regions@.len() && 0 <= r2 < final(self).backing.regions@.len() && r1 != r2 && (#[trigger] final(self).backing.hdr(r1)).sequence == (#[trigger] final(self).backing.hdr(
                            r2,
                        )).sequence implies final(self).backing.hdr(r1).sequence.0 == 0 by {
                        if r1 == r0 || r2 == r0 {
                            let other = if r1 == r0 {
                                r2
                            } else {
                                r1
                            };
                            assert(final(self).backing.hdr(other) == old(self).backing.hdr(other));
                            assert(old(self).backing.hdr(other).sequence.0 <= old(self).storage_sequence.0);
                        } else {
                            assert(final(self).backing.hdr(r1) == old(self).backing.hdr(r1));
                            assert(final(self).backing.hdr(r2) == old(self).backing.hdr(r2));
                        }
                    }
                }
                Ok(())
            },
            Err(e) => {
                // The address was validated and the heads table is
                // within its bound, so the backing accepts the write.
                proof {
                    assert(false);
                }
                Err(e)
            },
        }
    }

    /// Writes bytes into a region's data area.
    pub fn write_region_data(&mut self, region: MemRegionAddress, data: &[u8], offset: usize) -> (r:
        Result<(), IoError>)
        requires
            old(self).wf(),
        ensures
            final(self).wf(),
            final(self).storage_head == old(self).storage_head,
            final(self).storage_sequence == old(self).storage_sequence,
            final(self).free_list_head == old(self).free_list_head,
            final(self).free_list_tail == old(self).free_list_tail,
            final(self).heads == old(self).heads,
            offset + data@.len() > old(self).backing.meta.region_size ==> r == Err::<(), IoError>(
                IoError::OutOfBounds,
            ) && final(self).backing == old(self).backing,
            offset + data@.len() <= old(self).backing.meta.region_size && !old(self).backing.valid(
                region,
            ) ==> r == Err::<(), IoError>(IoError::InvalidAddress(region)) && final(self).backing
                == old(self).backing,
            offset + data@.len() <= old(self).backing.meta.region_size && old(self).backing.valid(
                region,
            ) ==> {
                &&& r == Ok::<(), IoError>(())
                &&& final(self).backing.regions@.len() == old(self).backing.regions@.len()
                &&& forall|i: int|
                    0 <= i < old(self).backing.regions@.len() && i != region.0 ==> final(self).backing.regions@[i] == old(self).backing.regions@[i]
                &&& final(self).backing.hdr(region.0 as int) == old(self).backing.hdr(
                    region.0 as int,
                )
                &&& final(self).backing.free_ptr(region.0 as int) == old(self).backing.free_ptr(
                    region.0 as int,
                )
                &&& final(self).backing.region_data(region.0 as int) == old(self).backing.region_data(region.0 as int).subrange(0, offset as int) + data@ + old(self).backing.region_data(region.0 as int).subrange(
                    offset + data@.len(),
                    old(self).backing.meta.region_size as int,
                )
                &&& final(self).backing.meta == old(self).backing.meta
                &&& final(self).backing.max_heads == old(self).backing.max_heads
            },
    {
        let r = self.backing.write_region_data(region, offset, data);
        proof {
            assert forall|k: int|
                0 <= k < final(self).backing.regions@.len() implies (#[trigger] final(self).backing.hdr(k)).sequence == old(self).backing.hdr(k).sequence by {
                if final(self).backing.regions@[k] == old(self).backing.regions@[k] {
                }
            }
        }
        r
    }

    /// Reads bytes from a region's data area.
    pub fn get_region_data(&self, region: MemRegionAddress, offset: usize, len: usize) -> (r:
        Result<Vec<u8>, IoError>)
        requires
            self.wf(),
        ensures
            offset + len > self.backing.meta.region_size ==> r == Err::<Vec<u8>, IoError>(
                IoError::OutOfBounds,
            ),
            offset + len <= self.backing.meta.region_size && !self.backing.valid(region) ==> r
                == Err::<Vec<u8>, IoError>(IoError::InvalidAddress(region)),
            offset + len <= self.backing.meta.region_size && self.backing.valid(region) ==> (r
            matches Ok(v) && v@ == self.backing.region_data(region.0 as int).subrange(
                offset as int,
                offset as int + len as int,
            )),
    {
        self.backing.get_region_data(region, offset, len)
    }

    /// Reads a region's header.
    pub fn get_region_header(&self, region: MemRegionAddress) -> (r: Result<
        &MemRegionHeader,
        IoError,
    >)
        ensures
            self.backing.valid(region) ==> (r matches Ok(h) && *h == self.backing.hdr(
                region.0 as int,
            )),
            !self.backing.valid(region) ==> r == Err::<&MemRegionHeader, IoError>(
                IoError::InvalidAddress(region),
            ),
    {
        self.backing.get_region_header(region)
    }
}

/// Region-header monotonicity: every header write bumps the storage
/// sequence (see `write_region_header`), so across all regions no two
/// written headers ever share a sequence value; a shared value can
/// only be the blank zero of a region never written.
pub proof fn lemma_written_headers_distinct(io: Io, r1: int, r2: int)
    requires
        io.wf(),
        0 <= r1 < io.backing.regions@.len(),
        0 <= r2 < io.backing.regions@.len(),
        r1 != r2,
        io.backing.hdr(r1).sequence.0 > 0,
    ensures
        io.backing.hdr(r1).sequence != io.backing.hdr(r2).sequence,
{
}

/// At most one region is the scan head: the first to attain the
/// maximum storage sequence.
proof fn lemma_scan_head_unique(mem: MemIo, h1: int, h2: int)
    requires
        is_scan_head(mem, h1),
        is_scan_head(mem, h2),
    ensures
        h1 == h2,
{
    if h1 < h2 {
        assert(mem.hdr(h1).sequence.0 < mem.hdr(h2).sequence.0);
        assert(mem.hdr(h2).sequence.0 <= mem.hdr(h1).sequence.0);
    } else if h2 < h1 {
        assert(mem.hdr(h2).sequence.0 < mem.hdr(h1).sequence.0);
        assert(mem.hdr(h1).sequence.0 <= mem.hdr(h2).sequence.0);
    }
}

/// If no entry of a sorted heads table carries `id`, the lookup is
/// empty.
proof fn lemma_head_lookup_none(s: Seq<(CollectionId, MemRegionAddress)>, id: CollectionId)
    requires
        forall|k: int| 0 <= k < s.len() ==> (#[trigger] s[k]).0 != id,
    ensures
        head_lookup(s, id) is None,
{
}

/// If entry `i` of a sorted heads table carries `id`, the lookup
/// returns its address.
pub(crate) proof fn lemma_head_lookup_some_pub(
    s: Seq<(CollectionId, MemRegionAddress)>,
    id: CollectionId,
    i: int,
)
    requires
        heads_sorted(s),
        0 <= i < s.len(),
        s[i].0 == id,
    ensures
        head_lookup(s, id) == Some(s[i].1),
{
    lemma_head_lookup_some(s, id, i);
}

/// If entry `i` of a sorted heads table carries `id`, the lookup
/// returns its address.
proof fn lemma_head_lookup_some(s: Seq<(CollectionId, MemRegionAddress)>, id: CollectionId, i: int)
    requires
        heads_sorted(s),
        0 <= i < s.len(),
        s[i].0 == id,
    ensures
        head_lookup(s, id) == Some(s[i].1),
{
    let j = choose|j: int| 0 <= j < s.len() && (#[trigger] s[j]).0 == id;
    if i != j {
        assert(s[i].0.0 == s[j].0.0);
        if i < j {
            assert(s[i].0.0 < s[j].0.0);
        } else {
            assert(s[j].0.0 < s[i].0.0);
        }
    }
}

/// Updating the entry at a found index rewrites exactly that
/// collection's mapping.
proof fn lemma_head_lookup_update(
    s: Seq<(CollectionId, MemRegionAddress)>,
    i: int,
    id: CollectionId,
    addr: MemRegionAddress,
)
    requires
        heads_sorted(s),
        0 <= i < s.len(),
        s[i].0 == id,
    ensures
        heads_sorted(s.update(i, (id, addr))),
        head_lookup(s.update(i, (id, addr)), id) == Some(addr),
        forall|id2: CollectionId|
            id2 != id ==> #[trigger] head_lookup(s.update(i, (id, addr)), id2) == head_lookup(
                s,
                id2,
            ),
{
    let t = s.update(i, (id, addr));
    assert(forall|k: int| 0 <= k < s.len() && k != i ==> t[k] == s[k]);
    assert(t[i] == (id, addr));
    assert(heads_sorted(t));
    lemma_head_lookup_some(t, id, i);
    assert forall|id2: CollectionId| id2 != id implies #[trigger] head_lookup(t, id2)
        == head_lookup(s, id2) by {
        if exists|k: int| 0 <= k < s.len() && (#[trigger] s[k]).0 == id2 {
            let k = choose|k: int| 0 <= k < s.len() && (#[trigger] s[k]).0 == id2;
            assert(k != i);
            assert(t[k].0 == id2);
            lemma_head_lookup_some(s, id2, k);
            lemma_head_lookup_some(t, id2, k);
        } else {
            assert(forall|k: int| 0 <= k < s.len() ==> (#[trigger] s[k]).0 != id2);
            assert(forall|k: int| 0 <= k < t.len() ==> (#[trigger] t[k]).0 != id2);
            lemma_head_lookup_none(s, id2);
            lemma_head_lookup_none(t, id2);
        }
    }
}

/// Inserting at the search slot keeps the table sorted and adds
/// exactly the new collection's mapping.
proof fn lemma_head_lookup_insert(
    s: Seq<(CollectionId, MemRegionAddress)>,
    i: int,
    id: CollectionId,
    addr: MemRegionAddress,
)
    requires
        heads_sorted(s),
        0 <= i <= s.len(),
        forall|k: int| 0 <= k < i ==> (#[trigger] s[k]).0.0 < id.0,
        forall|k: int| i <= k < s.len() ==> (#[trigger] s[k]).0.0 > id.0,
    ensures
        heads_sorted(s.insert(i, (id, addr))),
        head_lookup(s.insert(i, (id, addr)), id) == Some(addr),
        forall|id2: CollectionId|
            id2 != id ==> #[trigger] head_lookup(s.insert(i, (id, addr)), id2) == head_lookup(
                s,
                id2,
            ),
{
    let t = s.insert(i, (id, addr));
    assert(t.len() == s.len() + 1);
    assert(forall|k: int| 0 <= k < i ==> t[k] == s[k]);
    assert(t[i] == (id, addr));
    assert(forall|k: int| i < k < t.len() ==> t[k] == s[k - 1]);
    assert forall|a: int, b: int| 0 <= a < b < t.len() implies (#[trigger] t[a]).0.0 < (
    #[trigger] t[b]).0.0 by {
        if a < i && b < i {
        } else if a < i && b == i {
        } else if a < i && b > i {
            assert(s[a].0.0 < id.0);
            assert(s[b - 1].0.0 > id.0);
        } else if a == i {
            assert(s[b - 1].0.0 > id.0);
        } else {
            assert(t[a] == s[a - 1] && t[b] == s[b - 1]);
        }
    }
    lemma_head_lookup_some(t, id, i);
    assert forall|id2: CollectionId| id2 != id implies #[trigger] head_lookup(t, id2)
        == head_lookup(s, id2) by {
        if exists|k: int| 0 <= k < s.len() && (#[trigger] s[k]).0 == id2 {
            let k = choose|k: int| 0 <= k < s.len() && (#[trigger] s[k]).0 == id2;
            if k < i {
                assert(t[k].0 == id2);
                lemma_head_lookup_some(s, id2, k);
                lemma_head_lookup_some(t, id2, k);
            } else {
                assert(t[k + 1].0 == id2);
                lemma_head_lookup_some(s, id2, k);
                lemma_head_lookup_some(t, id2, k + 1);
            }
        } else {
            assert(forall|k: int| 0 <= k < s.len() ==> (#[trigger] s[k]).0 != id2);
            assert forall|k: int| 0 <= k < t.len() implies (#[trigger] t[k]).0 != id2 by {
                if k < i {
                    assert(t[k] == s[k]);
                } else if k == i {
                } else {
                    assert(t[k] == s[k - 1]);
                }
            }
            lemma_head_lookup_none(s, id2);
            lemma_head_lookup_none(t, id2);
        }
    }
}

} // verus!
