//! The write-ahead log: a per-collection, multi-region append log of
//! length-prefixed, CRC-guarded records, with cursor-based sequential
//! reads, commit records and reopen-from-storage.

use vstd::prelude::*;

use crate::io::{header_write_effect, popped, Io, IoError};
use crate::mem_io::{MemCollectionSequence, MemRegionAddress, RegionSequence};
use crate::{CollectionId, CollectionType};

verus! {

/// The bytes of the record-length field.
pub const LEN_RECORD_BYTES: usize = 2;

/// The bytes of the record-length checksum.
pub const LEN_CRC_BYTES: usize = 2;

/// The framing overhead of every record: length plus length checksum.
pub const LEN_BYTES: usize = 4;

/// A client record as stored in and read back from the log.
#[derive(Debug)]
pub struct DataRecord {
    pub collection_type: CollectionType,
    pub data: Vec<u8>,
}

/// One log entry: a client record, a commit mark advancing the durable
/// head cursor, or the link that terminates a region.
#[derive(Debug)]
pub enum EntryRecord {
    Data(DataRecord),
    Commit { to_region: MemRegionAddress, to_offset: usize, to_sequence: MemCollectionSequence },
    NextRegion(MemRegionAddress),
}

/// The mathematical shape of an entry: as `EntryRecord`, with the
/// payload as a byte sequence.
pub enum EntryView {
    Data { collection_type: CollectionType, data: Seq<u8> },
    Commit { to_region: MemRegionAddress, to_offset: usize, to_sequence: MemCollectionSequence },
    NextRegion(MemRegionAddress),
}

impl View for EntryRecord {
    type V = EntryView;

    open spec fn view(&self) -> EntryView {
        match self {
            EntryRecord::Data(d) => EntryView::Data {
                collection_type: d.collection_type,
                data: d.data@,
            },
            EntryRecord::Commit { to_region, to_offset, to_sequence } => EntryView::Commit {
                to_region: *to_region,
                to_offset: *to_offset,
                to_sequence: *to_sequence,
            },
            EntryRecord::NextRegion(a) => EntryView::NextRegion(*a),
        }
    }
}

impl EntryRecord {
    /// The largest serialized entry body: the region-transition record,
    /// a discriminant, an address and the checksum.
    pub fn postcard_max_len() -> (r: usize)
        ensures
            r == MAX_ENTRY_BODY,
    {
        1 + 4 + 4
    }
}

/// The largest serialized entry body (a `NextRegion` record).
pub const MAX_ENTRY_BODY: usize = 9;

/// The reserved footer of every region: a region-transition record
/// always fits in it.
pub const MAX_NEXTREGION_RECORD: usize = 13;

/// The byte discriminant of a collection type.
pub open spec fn type_byte(t: CollectionType) -> u8 {
    match t {
        CollectionType::Uninitialized => 0u8,
        CollectionType::Free => 1u8,
        CollectionType::Wal => 2u8,
        CollectionType::Channel => 3u8,
        CollectionType::KvMap => 4u8,
    }
}

/// The collection type of a byte discriminant, if it names one.
pub open spec fn spec_type_of_byte(b: u8) -> Option<CollectionType> {
    if b == 0 {
        Some(CollectionType::Uninitialized)
    } else if b == 1 {
        Some(CollectionType::Free)
    } else if b == 2 {
        Some(CollectionType::Wal)
    } else if b == 3 {
        Some(CollectionType::Channel)
    } else if b == 4 {
        Some(CollectionType::KvMap)
    } else {
        None
    }
}

/// The serialized entry payload, before its checksum: a discriminant
/// byte, then the variant's fields in little-endian form; a client
/// record's bytes run to the end of the entry.
pub open spec fn payload_bytes(e: EntryView) -> Seq<u8> {
    match e {
        EntryView::Data { collection_type, data } => seq![0u8, type_byte(collection_type)] + data,
        EntryView::Commit { to_region, to_offset, to_sequence } => seq![1u8] + crate::bytes::le32(
            to_region.0 as u32,
        ) + crate::bytes::le32(to_offset as u32) + crate::bytes::le64(to_sequence.0),
        EntryView::NextRegion(a) => seq![2u8] + crate::bytes::le32(a.0 as u32),
    }
}

/// The serialized entry body: the payload guarded by its CRC-32.
pub open spec fn body_bytes(e: EntryView) -> Seq<u8> {
    payload_bytes(e) + crate::bytes::le32(crate::checksum::crc32_of(payload_bytes(e)))
}

/// The input of the record-length checksum: the length bytes, the
/// collection-sequence bytes and the collection-id bytes, so a stale
/// length from a prior use of a reclaimed region is rejected.
pub open spec fn len_crc_input(len: u16, sequence: u64, id: u16) -> Seq<u8> {
    crate::bytes::le16(len) + crate::bytes::le64(sequence) + crate::bytes::le16(id)
}

/// A whole framed record: `[len][len-crc][body]`, where `len` counts
/// the frame bytes including the four of the framing itself.
pub open spec fn frame(e: EntryView, sequence: u64, id: u16) -> Seq<u8> {
    let body = body_bytes(e);
    let len = (body.len() + LEN_BYTES) as u16;
    crate::bytes::le16(len) + crate::bytes::le16(
        crate::checksum::crc16_of(len_crc_input(len, sequence, id)),
    ) + body
}

/// The length of a framed record.
pub open spec fn frame_len(e: EntryView) -> int {
    body_bytes(e).len() + LEN_BYTES
}

/// The addresses and offsets of an entry fit their four-byte on-disk
/// encodings.
pub open spec fn entry_bounded(e: EntryView) -> bool {
    match e {
        EntryView::Data { collection_type, data } => data.len() <= 0xffff_ffe0,
        EntryView::Commit { to_region, to_offset, to_sequence } => to_region.0 <= 0xffff_ffffusize
            && to_offset <= 0xffff_ffffusize,
        EntryView::NextRegion(a) => a.0 <= 0xffff_ffffusize,
    }
}

/// The entry a serialized body holds, if its checksum matches and its
/// shape is well formed.
pub open spec fn spec_decode_body(b: Seq<u8>) -> Option<EntryView> {
    if b.len() < 5 {
        None
    } else {
        let payload = b.subrange(0, b.len() - 4);
        let crc = b.subrange(b.len() - 4, b.len() as int);
        if crc != crate::bytes::le32(crate::checksum::crc32_of(payload)) {
            None
        } else {
            spec_decode_payload(payload)
        }
    }
}

/// The entry a serialized payload holds, if its shape is well formed.
pub open spec fn spec_decode_payload(p: Seq<u8>) -> Option<EntryView> {
    if p.len() < 1 {
        None
    } else if p[0] == 0 {
        if p.len() >= 2 && (spec_type_of_byte(p[1]) is Some) {
            Some(
                EntryView::Data {
                    collection_type: spec_type_of_byte(p[1]).unwrap(),
                    data: p.subrange(2, p.len() as int),
                },
            )
        } else {
            None
        }
    } else if p[0] == 1 {
        if p.len() == 17 {
            Some(
                EntryView::Commit {
                    to_region: MemRegionAddress(
                        crate::bytes::u32_of_le(p[1], p[2], p[3], p[4]) as usize,
                    ),
                    to_offset: crate::bytes::u32_of_le(p[5], p[6], p[7], p[8]) as usize,
                    to_sequence: MemCollectionSequence(
                        crate::bytes::u64_of_le(p[9], p[10], p[11], p[12], p[13], p[14], p[15], p[16]),
                    ),
                },
            )
        } else {
            None
        }
    } else if p[0] == 2 {
        if p.len() == 5 {
            Some(
                EntryView::NextRegion(
                    MemRegionAddress(crate::bytes::u32_of_le(p[1], p[2], p[3], p[4]) as usize),
                ),
            )
        } else {
            None
        }
    } else {
        None
    }
}

/// Maps a collection type to its byte discriminant.
pub fn type_to_byte(t: CollectionType) -> (r: u8)
    ensures
        r == type_byte(t),
{
    match t {
        CollectionType::Uninitialized => 0,
        CollectionType::Free => 1,
        CollectionType::Wal => 2,
        CollectionType::Channel => 3,
        CollectionType::KvMap => 4,
    }
}

/// Maps a byte discriminant back to its collection type.
pub fn byte_to_type(b: u8) -> (r: Option<CollectionType>)
    ensures
        r == spec_type_of_byte(b),
{
    if b == 0 {
        Some(CollectionType::Uninitialized)
    } else if b == 1 {
        Some(CollectionType::Free)
    } else if b == 2 {
        Some(CollectionType::Wal)
    } else if b == 3 {
        Some(CollectionType::Channel)
    } else if b == 4 {
        Some(CollectionType::KvMap)
    } else {
        None
    }
}

/// Serializes an entry: payload followed by its CRC-32.
pub fn encode_entry(e: &EntryRecord) -> (r: Vec<u8>)
    requires
        entry_bounded(e@),
    ensures
        r@ == body_bytes(e@),
        r@.len() == frame_len(e@) - LEN_BYTES,
{
    let mut payload: Vec<u8> = Vec::new();
    match e {
        EntryRecord::Data(d) => {
            payload.push(0);
            payload.push(type_to_byte(d.collection_type));
            let mut i: usize = 0;
            while i < d.data.len()
                invariant
                    i <= d.data@.len(),
                    payload@.len() == 2 + i,
                    payload@ == seq![0u8, type_byte(d.collection_type)] + d.data@.subrange(
                        0,
                        i as int,
                    ),
                decreases d.data@.len() - i,
            {
                payload.push(d.data[i]);
                proof {
                    assert(payload@ =~= seq![0u8, type_byte(d.collection_type)]
                        + d.data@.subrange(0, i + 1));
                }
                i += 1;
            }
            proof {
                assert(d.data@.subrange(0, d.data@.len() as int) =~= d.data@);
            }
        },
        EntryRecord::Commit { to_region, to_offset, to_sequence } => {
            payload.push(1);
            crate::bytes::push_le32(&mut payload, to_region.0 as u32);
            crate::bytes::push_le32(&mut payload, *to_offset as u32);
            crate::bytes::push_le64(&mut payload, to_sequence.0);
        },
        EntryRecord::NextRegion(a) => {
            payload.push(2);
            crate::bytes::push_le32(&mut payload, a.0 as u32);
        },
    }
    proof {
        assert(payload@ =~= payload_bytes(e@));
    }
    let crc = crate::checksum::crc32(payload.as_slice());
    let mut out = payload;
    crate::bytes::push_le32(&mut out, crc);
    proof {
        assert(out@ =~= body_bytes(e@));
    }
    out
}

/// Deserializes an entry body, checking its CRC-32.
pub fn decode_entry(bytes: &[u8]) -> (r: Option<EntryRecord>)
    ensures
        match r {
            Some(e) => spec_decode_body(bytes@) == Some(e@),
            None => spec_decode_body(bytes@) is None,
        },
{
    let n = bytes.len();
    if n < 5 {
        return None;
    }
    let mut payload: Vec<u8> = Vec::new();
    let mut i: usize = 0;
    while i < n - 4
        invariant
            n == bytes@.len(),
            n >= 5,
            i <= n - 4,
            payload@.len() == i,
            forall|k: int| 0 <= k < i ==> payload@[k] == bytes@[k],
        decreases n - 4 - i,
    {
        payload.push(bytes[i]);
        i += 1;
    }
    proof {
        assert(payload@ =~= bytes@.subrange(0, n - 4));
    }
    let crc = crate::checksum::crc32(payload.as_slice());
    let crc_stored = (
        bytes[n - 4],
        bytes[n - 3],
        bytes[n - 2],
        bytes[n - 1],
    );
    let crc_read = crate::bytes::read_le32(crc_stored.0, crc_stored.1, crc_stored.2, crc_stored.3);
    if crc_read != crc {
        proof {
            assert(bytes@.subrange(n - 4, n as int) =~= crate::bytes::le32(crc_read));
            if bytes@.subrange(n - 4, n as int) == crate::bytes::le32(
                crate::checksum::crc32_of(bytes@.subrange(0, n - 4)),
            ) {
                crate::bytes::lemma_le32_injective(
                    crc_read,
                    crate::checksum::crc32_of(bytes@.subrange(0, n - 4)),
                );
            }
        }
        return None;
    }
    proof {
        assert(bytes@.subrange(n - 4, n as int) =~= crate::bytes::le32(
            crate::checksum::crc32_of(bytes@.subrange(0, n - 4)),
        ));
    }
    let r = decode_payload(&payload);
    proof {
        assert(bytes@.subrange(0, n - 4) == payload@);
    }
    match r {
        Some(e) => Some(e),
        None => None,
    }
}

/// Deserializes an entry payload.
fn decode_payload(p: &Vec<u8>) -> (r: Option<EntryRecord>)
    ensures
        match r {
            Some(e) => spec_decode_payload(p@) == Some(e@),
            None => spec_decode_payload(p@) is None,
        },
{
    let n = p.len();
    if n < 1 {
        return None;
    }
    let tag = p[0];
    if tag == 0 {
        if n < 2 {
            return None;
        }
        let Some(collection_type) = byte_to_type(p[1]) else {
            return None;
        };
        let mut data: Vec<u8> = Vec::new();
        let mut i: usize = 2;
        while i < n
            invariant
                2 <= i <= n,
                n == p@.len(),
                data@.len() == i - 2,
                forall|k: int| 0 <= k < i - 2 ==> data@[k] == p@[2 + k],
            decreases n - i,
        {
            data.push(p[i]);
            i += 1;
        }
        proof {
            assert(data@ =~= p@.subrange(2, n as int));
        }
        Some(EntryRecord::Data(DataRecord { collection_type, data }))
    } else if tag == 1 {
        if n != 17 {
            return None;
        }
        let to_region = crate::bytes::read_u32_of(p[1], p[2], p[3], p[4]);
        let to_offset = crate::bytes::read_u32_of(p[5], p[6], p[7], p[8]);
        let to_sequence = crate::bytes::read_u64_of(
            p[9],
            p[10],
            p[11],
            p[12],
            p[13],
            p[14],
            p[15],
            p[16],
        );
        Some(
            EntryRecord::Commit {
                to_region: MemRegionAddress(to_region as usize),
                to_offset: to_offset as usize,
                to_sequence: MemCollectionSequence(to_sequence),
            },
        )
    } else if tag == 2 {
        if n != 5 {
            return None;
        }
        let a = crate::bytes::read_u32_of(p[1], p[2], p[3], p[4]);
        Some(EntryRecord::NextRegion(MemRegionAddress(a as usize)))
    } else {
        None
    }
}

/// Decoding inverts encoding: the body bytes of a bounded entry decode
/// back to that entry.
pub proof fn lemma_decode_encode(e: EntryView)
    requires
        entry_bounded(e),
    ensures
        spec_decode_body(body_bytes(e)) == Some(e),
{
    let p = payload_bytes(e);
    let b = body_bytes(e);
    assert(b.subrange(0, b.len() - 4) =~= p);
    assert(b.subrange(b.len() - 4, b.len() as int) =~= crate::bytes::le32(
        crate::checksum::crc32_of(p),
    ));
    match e {
        EntryView::Data { collection_type, data } => {
            assert(p[0] == 0);
            assert(p[1] == type_byte(collection_type));
            assert(spec_type_of_byte(type_byte(collection_type)) == Some(collection_type));
            assert(p.subrange(2, p.len() as int) =~= data);
        },
        EntryView::Commit { to_region, to_offset, to_sequence } => {
            assert(p[0] == 1);
            assert(p.len() == 17);
            let ra = crate::bytes::le32(to_region.0 as u32);
            let oa = crate::bytes::le32(to_offset as u32);
            let sa = crate::bytes::le64(to_sequence.0);
            assert(p[1] == ra[0] && p[2] == ra[1] && p[3] == ra[2] && p[4] == ra[3]);
            assert(p[5] == oa[0] && p[6] == oa[1] && p[7] == oa[2] && p[8] == oa[3]);
            assert(p[9] == sa[0] && p[10] == sa[1] && p[11] == sa[2] && p[12] == sa[3] && p[13]
                == sa[4] && p[14] == sa[5] && p[15] == sa[6] && p[16] == sa[7]);
            crate::bytes::lemma_u32_of_le32(to_region.0 as u32);
            crate::bytes::lemma_u32_of_le32(to_offset as u32);
            crate::bytes::lemma_u64_of_le64(to_sequence.0);
        },
        EntryView::NextRegion(a) => {
            assert(p[0] == 2);
            assert(p.len() == 5);
            let ra = crate::bytes::le32(a.0 as u32);
            assert(p[1] == ra[0] && p[2] == ra[1] && p[3] == ra[2] && p[4] == ra[3]);
            crate::bytes::lemma_u32_of_le32(a.0 as u32);
        },
    }
}

/// Whether the bytes of a framed record stand in `d` at `off`.
pub open spec fn frame_at(d: Seq<u8>, off: int, e: EntryView, sequence: u64, id: u16) -> bool {
    &&& 0 <= off
    &&& off + frame_len(e) <= d.len()
    &&& d.subrange(off, off + frame_len(e)) == frame(e, sequence, id)
}

/// Splicing `bytes` into `pre` at `off` leaves them readable there and
/// everything else in place.
proof fn lemma_splice_subrange(pre: Seq<u8>, post: Seq<u8>, off: int, bytes: Seq<u8>)
    requires
        0 <= off,
        off + bytes.len() <= pre.len(),
        post == pre.subrange(0, off) + bytes + pre.subrange(off + bytes.len(), pre.len() as int),
    ensures
        post.len() == pre.len(),
        post.subrange(off, off + bytes.len()) == bytes,
        forall|j: int| 0 <= j < off ==> post[j] == pre[j],
        forall|j: int| off + bytes.len() <= j < pre.len() ==> post[j] == pre[j],
{
    assert(post.subrange(off, off + bytes.len()) =~= bytes);
}

/// The outcome of one attempt to place a record in the tail region.
pub enum WriteResult {
    Wrote(usize),
    RegionFull,
}

/// A position in a log: region, offset, and the collection sequence
/// the region was stamped with.
#[derive(Debug, Clone, Copy, PartialEq, Eq, Structural)]
pub struct WalCursor {
    pub region: MemRegionAddress,
    pub offset: usize,
    pub collection_sequence: MemCollectionSequence,
}

/// What one cursor step of the log yields.
#[derive(Debug)]
pub enum WalRead {
    Record { next: WalCursor, record: DataRecord },
    Commit {
        to_region: MemRegionAddress,
        to_offset: usize,
        to_sequence: MemCollectionSequence,
        next: WalCursor,
    },
    EndOfRegion { next: WalCursor },
    EndOfWAL,
}

/// A write-ahead log.  The head is the durable read point; the tail is
/// where the next record lands.
pub struct Wal {
    pub head_region: MemRegionAddress,
    pub head_region_start_offset: usize,
    pub collection_id: CollectionId,
    pub head_sequence: MemCollectionSequence,
    pub tail_region: MemRegionAddress,
    pub tail_sequence: MemCollectionSequence,
    pub tail_next_entry_offset: usize,
}

impl Wal {
    /// Well-formedness of a log against its region manager: the held
    /// regions name regions of the store, offsets stay inside a
    /// region, and the head never passes the tail.
    pub open spec fn wf(&self, io: Io) -> bool {
        &&& self.head_region.0 < io.backing.regions@.len()
        &&& self.tail_region.0 < io.backing.regions@.len()
        &&& self.head_region_start_offset <= io.backing.meta.region_size
        &&& self.tail_next_entry_offset <= io.backing.meta.region_size
        &&& self.head_sequence.0 <= self.tail_sequence.0
        &&& (self.head_sequence == self.tail_sequence ==> self.head_region == self.tail_region
            && self.head_region_start_offset <= self.tail_next_entry_offset)
    }

    /// Creates a log: allocates a region and stamps its header with
    /// the first collection sequence.
    pub fn new(io: &mut Io, collection_id: CollectionId) -> (r: Result<Wal, IoError>)
        requires
            old(io).wf(),
            old(io).storage_sequence.0 < u64::MAX,
        ensures
            final(io).wf(),
            old(io).free_list_head is None ==> r == Err::<Wal, IoError>(IoError::StorageFull)
                && *final(io) == *old(io),
            old(io).free_list_head matches Some(a) ==> (head_lookup_full(*old(io), collection_id)
                ==> r == Err::<Wal, IoError>(IoError::InvalidHeads) && *final(io) == popped(
                *old(io),
                a,
            )),
            old(io).free_list_head matches Some(a) ==> (!head_lookup_full(*old(io), collection_id)
                ==> {
                &&& r == Ok::<Wal, IoError>(
                    Wal {
                        head_region: a,
                        head_region_start_offset: 0,
                        collection_id,
                        head_sequence: MemCollectionSequence(0u64),
                        tail_region: a,
                        tail_sequence: MemCollectionSequence(0u64),
                        tail_next_entry_offset: 0,
                    },
                )
                &&& header_write_effect(
                    popped(*old(io), a),
                    *final(io),
                    a,
                    collection_id,
                    CollectionType::Wal,
                    MemCollectionSequence(0u64),
                )
                &&& final(io).synced()
            }),
    {
        let collection_type = CollectionType::Wal;
        let collection_sequence = MemCollectionSequence::first();
        let region = match io.allocate_region(collection_id) {
            Ok(region) => region,
            Err(e) => {
                return Err(e);
            },
        };
        match io.write_region_header(region, collection_id, collection_type, collection_sequence) {
            Ok(()) => {},
            Err(e) => {
                return Err(e);
            },
        }
        Ok(
            Wal {
                head_region: region,
                head_region_start_offset: 0,
                collection_id,
                head_sequence: collection_sequence,
                tail_region: region,
                tail_sequence: collection_sequence,
                tail_next_entry_offset: 0,
            },
        )
    }

    /// The cursor of the durable read point.
    pub fn get_cursor(&self) -> (r: WalCursor)
        ensures
            r == (WalCursor {
                region: self.head_region,
                offset: self.head_region_start_offset,
                collection_sequence: self.head_sequence,
            }),
    {
        WalCursor {
            region: self.head_region,
            offset: self.head_region_start_offset,
            collection_sequence: self.head_sequence,
        }
    }

    /// The region holding the durable read point.
    pub fn region(&self) -> (r: MemRegionAddress)
        ensures
            r == self.head_region,
    {
        self.head_region
    }

    /// Places one framed record at the tail, unless the region's
    /// reserved footer would be breached (`RegionFull`), the record can
    /// fit no region at all (`RecordTooLarge`), or its length exceeds
    /// the sixteen-bit length field (`SerializationError`).
    fn write_worker(&mut self, io: &mut Io, entry: &EntryRecord) -> (r: Result<
        WriteResult,
        IoError,
    >)
        requires
            old(self).wf(*old(io)),
            old(io).wf(),
            entry_bounded(entry@),
        ensures
            final(io).wf(),
            frame_len(entry@) + MAX_NEXTREGION_RECORD > old(io).backing.meta.region_size ==> r
                == Err::<WriteResult, IoError>(
                IoError::RecordTooLarge(frame_len(entry@) as usize),
            ) && *final(self) == *old(self) && *final(io) == *old(io),
            frame_len(entry@) + MAX_NEXTREGION_RECORD <= old(io).backing.meta.region_size && old(self).tail_next_entry_offset + frame_len(entry@) + MAX_NEXTREGION_RECORD > old(io).backing.meta.region_size ==> r == Ok::<WriteResult, IoError>(WriteResult::RegionFull)
                && *final(self) == *old(self) && *final(io) == *old(io),
            old(self).tail_next_entry_offset + frame_len(entry@) + MAX_NEXTREGION_RECORD <= old(io).backing.meta.region_size && frame_len(entry@) > 0xffff ==> r == Err::<
                WriteResult,
                IoError,
            >(IoError::SerializationError) && *final(self) == *old(self) && *final(io) == *old(io),
            old(self).tail_next_entry_offset + frame_len(entry@) + MAX_NEXTREGION_RECORD <= old(io).backing.meta.region_size && frame_len(entry@) <= 0xffff ==> {
                &&& r == Ok::<WriteResult, IoError>(
                    WriteResult::Wrote(frame_len(entry@) as usize),
                )
                &&& *final(self) == (Wal {
                    tail_next_entry_offset: (old(self).tail_next_entry_offset + frame_len(
                        entry@,
                    )) as usize,
                    ..*old(self)
                })
                &&& final(self).wf(*final(io))
                &&& frame_at(
                    final(io).backing.region_data(old(self).tail_region.0 as int),
                    old(self).tail_next_entry_offset as int,
                    entry@,
                    old(self).tail_sequence.0,
                    old(self).collection_id.0,
                )
                &&& final(io).backing.regions@.len() == old(io).backing.regions@.len()
                &&& forall|i: int|
                    0 <= i < old(io).backing.regions@.len() && i != old(self).tail_region.0
                        ==> final(io).backing.regions@[i] == old(io).backing.regions@[i]
                &&& final(io).backing.hdr(old(self).tail_region.0 as int) == old(io).backing.hdr(
                    old(self).tail_region.0 as int,
                )
                &&& final(io).backing.free_ptr(old(self).tail_region.0 as int) == old(io).backing.free_ptr(old(self).tail_region.0 as int)
                &&& forall|j: int|
                    0 <= j < old(self).tail_next_entry_offset ==> final(io).backing.region_data(
                        old(self).tail_region.0 as int,
                    )[j] == old(io).backing.region_data(old(self).tail_region.0 as int)[j]
                &&& forall|j: int|
                    old(self).tail_next_entry_offset + frame_len(entry@) <= j < old(io).backing.meta.region_size ==> final(io).backing.region_data(
                        old(self).tail_region.0 as int,
                    )[j] == old(io).backing.region_data(old(self).tail_region.0 as int)[j]
                &&& final(io).backing.meta == old(io).backing.meta
                &&& final(io).backing.max_heads == old(io).backing.max_heads
                &&& final(io).storage_head == old(io).storage_head
                &&& final(io).storage_sequence == old(io).storage_sequence
                &&& final(io).free_list_head == old(io).free_list_head
                &&& final(io).free_list_tail == old(io).free_list_tail
                &&& final(io).heads == old(io).heads
            },
    {
        let serialized = encode_entry(entry);
        proof {
            match entry@ {
                EntryView::Data { collection_type, data } => {
                    assert(payload_bytes(entry@).len() == 2 + data.len());
                },
                EntryView::Commit { to_region, to_offset, to_sequence } => {
                    assert(payload_bytes(entry@).len() == 17);
                },
                EntryView::NextRegion(a) => {
                    assert(payload_bytes(entry@).len() == 5);
                },
            }
            assert(serialized@.len() <= 0xffff_ffe6);
        }
        let offset = self.tail_next_entry_offset;
        let len: usize = serialized.len() + LEN_BYTES;
        let next_command_len: usize = EntryRecord::postcard_max_len() + LEN_BYTES;
        let size = io.region_size();
        if len > size || next_command_len > size - len {
            return Err(IoError::RecordTooLarge(len));
        }
        if offset > size - len - next_command_len {
            return Ok(WriteResult::RegionFull);
        }
        if len > 0xffff {
            return Err(IoError::SerializationError);
        }
        let len16: u16 = len as u16;
        let mut crc_input: Vec<u8> = Vec::new();
        crate::bytes::push_le16(&mut crc_input, len16);
        crate::bytes::push_le64(&mut crc_input, self.tail_sequence.0);
        crate::bytes::push_le16(&mut crc_input, self.collection_id.0);
        proof {
            assert(crc_input@ =~= len_crc_input(len16, self.tail_sequence.0, self.collection_id.0));
        }
        let len_crc = crate::checksum::crc16(crc_input.as_slice());
        let mut frame_bytes: Vec<u8> = Vec::new();
        crate::bytes::push_le16(&mut frame_bytes, len16);
        crate::bytes::push_le16(&mut frame_bytes, len_crc);
        let mut i: usize = 0;
        while i < serialized.len()
            invariant
                i <= serialized@.len(),
                frame_bytes@.len() == 4 + i,
                frame_bytes@ == crate::bytes::le16(len16) + crate::bytes::le16(len_crc)
                    + serialized@.subrange(0, i as int),
            decreases serialized@.len() - i,
        {
            frame_bytes.push(serialized[i]);
            proof {
                assert(frame_bytes@ =~= crate::bytes::le16(len16) + crate::bytes::le16(len_crc)
                    + serialized@.subrange(0, i + 1));
            }
            i += 1;
        }
        proof {
            assert(serialized@.subrange(0, serialized@.len() as int) =~= serialized@);
            assert(frame_bytes@ =~= frame(
                entry@,
                self.tail_sequence.0,
                self.collection_id.0,
            ));
        }
        let ghost io_pre = *io;
        match io.write_region_data(self.tail_region, frame_bytes.as_slice(), offset) {
            Ok(()) => {},
            Err(_) => {
                proof {
                    assert(false);
                }
                return Err(IoError::Unreachable);
            },
        }
        proof {
            let r0 = old(self).tail_region.0 as int;
            lemma_splice_subrange(
                io_pre.backing.region_data(r0),
                io.backing.region_data(r0),
                offset as int,
                frame_bytes@,
            );
            assert forall|k: int|
                0 <= k < io.backing.regions@.len() implies (#[trigger] io.backing.hdr(k)).sequence
                == io_pre.backing.hdr(k).sequence by {
                if io.backing.regions@[k] == io_pre.backing.regions@[k] {
                }
            }
        }
        self.tail_next_entry_offset = offset + len;
        Ok(WriteResult::Wrote(len))
    }

    /// Appends one entry, allocating and linking a successor region
    /// when the tail region's reserved footer would be breached.
    fn write_entry(&mut self, io: &mut Io, entry: &EntryRecord) -> (r: Result<(), IoError>)
        requires
            old(self).wf(*old(io)),
            old(io).wf(),
            entry_bounded(entry@),
            old(io).storage_sequence.0 < u64::MAX,
            old(self).tail_sequence.0 < u64::MAX,
        ensures
            final(io).wf(),
            final(self).wf(*final(io)),
            final(self).collection_id == old(self).collection_id,
            final(self).head_region == old(self).head_region,
            final(self).head_region_start_offset == old(self).head_region_start_offset,
            final(self).head_sequence == old(self).head_sequence,
            final(io).backing.meta == old(io).backing.meta,
            final(io).backing.max_heads == old(io).backing.max_heads,
            final(io).backing.regions@.len() == old(io).backing.regions@.len(),
            final(io).storage_sequence.0 <= old(io).storage_sequence.0 + 1,
            final(self).tail_sequence.0 <= old(self).tail_sequence.0 + 1,
            final(io).storage_head == old(io).storage_head,
            final(io).free_list_tail == old(io).free_list_tail,
            final(io).free_list_head == old(io).free_list_head || (old(io).free_list_head matches
            Some(a) && final(io).free_list_head == old(io).backing.free_ptr(a.0 as int)),
            forall|i: int|
                0 <= i < old(io).backing.regions@.len() && i != old(self).tail_region.0 && i
                    != final(self).tail_region.0 ==> final(io).backing.regions@[i] == old(io).backing.regions@[i],
            forall|j: int|
                0 <= j < old(io).backing.regions@.len() ==> #[trigger] final(io).backing.free_ptr(
                    j,
                ) == old(io).backing.free_ptr(j),
            forall|j: int|
                0 <= j < old(io).backing.regions@.len() && j != final(self).tail_region.0
                    ==> #[trigger] final(io).backing.hdr(j) == old(io).backing.hdr(j),
            final(self).tail_region != old(self).tail_region || final(self).tail_sequence == old(self).tail_sequence ==> tail_prefix_preserved(*old(self), *old(io), *final(io)),
            r is Ok && final(self).tail_region != old(self).tail_region ==> {
                &&& old(io).free_list_head == Some(final(self).tail_region)
                &&& frame_at(
                    final(io).backing.region_data(old(self).tail_region.0 as int),
                    old(self).tail_next_entry_offset as int,
                    EntryView::NextRegion(final(self).tail_region),
                    old(self).tail_sequence.0,
                    old(self).collection_id.0,
                )
                &&& old(self).tail_next_entry_offset + MAX_NEXTREGION_RECORD + LEN_BYTES <= old(io).backing.meta.region_size
                &&& final(io).backing.hdr(final(self).tail_region.0 as int).collection_sequence.0
                    == old(self).tail_sequence.0 + 1
                &&& final(io).backing.hdr(final(self).tail_region.0 as int).collection_id == old(self).collection_id
                &&& final(io).backing.hdr(final(self).tail_region.0 as int).collection_type
                    == CollectionType::Wal
                &&& final(io).storage_sequence.0 == old(io).storage_sequence.0 + 1
                &&& final(self).tail_sequence.0 == old(self).tail_sequence.0 + 1
            },
            r is Ok ==> wrote(*old(self), *old(io), *final(self), *final(io), entry@),
            frame_len(entry@) + MAX_NEXTREGION_RECORD > old(io).backing.meta.region_size ==> r
                == Err::<(), IoError>(IoError::RecordTooLarge(frame_len(entry@) as usize)) && *final(self)
                == *old(self) && *final(io) == *old(io),
            frame_len(entry@) + MAX_NEXTREGION_RECORD <= old(io).backing.meta.region_size && old(self).tail_next_entry_offset + frame_len(entry@) + MAX_NEXTREGION_RECORD <= old(io).backing.meta.region_size ==> {
                &&& (frame_len(entry@) > 0xffff ==> r == Err::<(), IoError>(
                    IoError::SerializationError,
                ) && *final(self) == *old(self) && *final(io) == *old(io))
                &&& (frame_len(entry@) <= 0xffff ==> r == Ok::<(), IoError>(()) && wrote(
                    *old(self),
                    *old(io),
                    *final(self),
                    *final(io),
                    entry@,
                ) && final(self).tail_region == old(self).tail_region && final(self).tail_sequence
                    == old(self).tail_sequence && final(io).storage_sequence == old(io).storage_sequence && final(io).free_list_head == old(io).free_list_head && final(io).heads == old(io).heads && (forall|i: int|
                    0 <= i < old(io).backing.regions@.len() && i != old(self).tail_region.0
                        ==> final(io).backing.regions@[i] == old(io).backing.regions@[i]))
            },
            frame_len(entry@) + MAX_NEXTREGION_RECORD <= old(io).backing.meta.region_size && old(self).tail_next_entry_offset + frame_len(entry@) + MAX_NEXTREGION_RECORD > old(io).backing.meta.region_size ==> {
                &&& (old(io).free_list_head is None ==> r == Err::<(), IoError>(
                    IoError::StorageFull,
                ) && *final(self) == *old(self) && *final(io) == *old(io))
                &&& (old(io).free_list_head matches Some(a) ==> {
                    &&& (old(io).backing.meta.region_size < 2 * MAX_NEXTREGION_RECORD ==> r
                        == Err::<(), IoError>(IoError::RecordTooLarge(MAX_NEXTREGION_RECORD))
                        && *final(self) == *old(self) && *final(io) == popped(*old(io), a))
                    &&& (old(io).backing.meta.region_size >= 2 * MAX_NEXTREGION_RECORD && old(self).tail_next_entry_offset + 2 * MAX_NEXTREGION_RECORD > old(io).backing.meta.region_size ==> r == Err::<(), IoError>(
                        IoError::SerializationError,
                    ) && *final(self) == *old(self) && *final(io) == popped(*old(io), a))
                    &&& (old(io).backing.meta.region_size >= 2 * MAX_NEXTREGION_RECORD && old(self).tail_next_entry_offset + 2 * MAX_NEXTREGION_RECORD <= old(io).backing.meta.region_size && !crate::wal::head_lookup_full(
                        *old(io),
                        old(self).collection_id,
                    ) && frame_len(entry@) <= 0xffff ==> r == Ok::<(), IoError>(()) && wrote(
                        *old(self),
                        *old(io),
                        *final(self),
                        *final(io),
                        entry@,
                    ) && final(self).tail_region == a && final(self).tail_sequence.0 == old(self).tail_sequence.0 + 1)
                    &&& (frame_len(entry@) <= 0xffff && r is Err ==> final(self).tail_region
                        == old(self).tail_region && final(self).tail_sequence == old(self).tail_sequence)
                })
            },
    {
        let collection_id = self.collection_id;
        let result = match self.write_worker(io, entry) {
            Ok(result) => result,
            Err(e) => {
                return Err(e);
            },
        };
        match result {
            WriteResult::Wrote(_len) => {
                proof {
                    let e = entry@;
                    assert(frame_at(
                        io.backing.region_data(self.tail_region.0 as int),
                        self.tail_next_entry_offset - frame_len(e),
                        e,
                        self.tail_sequence.0,
                        self.collection_id.0,
                    ));
                    assert(wrote(*old(self), *old(io), *self, *io, e));
                }
                Ok(())
            },
            WriteResult::RegionFull => {
                let region = match io.allocate_region(collection_id) {
                    Ok(region) => region,
                    Err(e) => {
                        return Err(e);
                    },
                };
                let next_entry = EntryRecord::NextRegion(region);
                proof {
                    assert(payload_bytes(next_entry@).len() == 5);
                    assert(frame_len(next_entry@) == MAX_NEXTREGION_RECORD);
                }
                let next_result = match self.write_worker(io, &next_entry) {
                    Ok(result) => result,
                    Err(e) => {
                        return Err(e);
                    },
                };
                let WriteResult::Wrote(_len) = next_result else {
                    return Err(IoError::SerializationError);
                };
                let new_sequence = self.tail_sequence.increment();
                let ghost io_mid = *io;
                match io.write_region_header(
                    region,
                    collection_id,
                    CollectionType::Wal,
                    new_sequence,
                ) {
                    Ok(()) => {},
                    Err(e) => {
                        proof {
                            assert(io_mid.backing.valid(region));
                        }
                        return Err(e);
                    },
                }
                proof {
                    assert(io.backing.region_data(region.0 as int) == io_mid.backing.region_data(
                        region.0 as int,
                    ));
                }
                self.tail_sequence = new_sequence;
                self.tail_region = region;
                self.tail_next_entry_offset = 0;
                let ghost wal_mid = *self;
                let ghost io_mid2 = *io;
                let result = match self.write_worker(io, entry) {
                    Ok(result) => result,
                    Err(e) => {
                        return Err(e);
                    },
                };
                match result {
                    WriteResult::Wrote(_len) => {
                        proof {
                            let e = entry@;
                            let pw = *old(self);
                            let pio = *old(io);
                            let oldr = pw.tail_region.0 as int;
                            if region.0 as int != oldr {
                                assert(io_mid.backing.regions@[oldr]
                                    == io_mid2.backing.regions@[oldr]);
                                assert(io.backing.regions@[oldr] == io_mid2.backing.regions@[oldr]);
                                assert(tail_prefix_preserved(pw, pio, *io));
                            }
                            assert(frame_at(
                                io.backing.region_data(self.tail_region.0 as int),
                                self.tail_next_entry_offset - frame_len(e),
                                e,
                                self.tail_sequence.0,
                                self.collection_id.0,
                            ));
                            assert(wrote(pw, pio, *self, *io, e));
                        }
                        Ok(())
                    },
                    WriteResult::RegionFull => {
                        proof {
                            assert(false);
                        }
                        Err(IoError::SerializationError)
                    },
                }
            },
        }
    }

    /// Appends a client record carrying `data`.
    pub fn write(&mut self, io: &mut Io, collection_type: CollectionType, data: &[u8]) -> (r:
        Result<(), IoError>)
        requires
            old(self).wf(*old(io)),
            old(io).wf(),
            data@.len() <= 0xffff_ffe0,
            old(io).storage_sequence.0 < u64::MAX,
            old(self).tail_sequence.0 < u64::MAX,
        ensures
            final(io).wf(),
            final(self).wf(*final(io)),
            final(self).collection_id == old(self).collection_id,
            final(self).head_region == old(self).head_region,
            final(self).head_region_start_offset == old(self).head_region_start_offset,
            final(self).head_sequence == old(self).head_sequence,
            final(io).backing.meta == old(io).backing.meta,
            final(io).backing.max_heads == old(io).backing.max_heads,
            final(io).backing.regions@.len() == old(io).backing.regions@.len(),
            final(io).storage_sequence.0 <= old(io).storage_sequence.0 + 1,
            final(self).tail_sequence.0 <= old(self).tail_sequence.0 + 1,
            final(io).storage_head == old(io).storage_head,
            final(io).free_list_tail == old(io).free_list_tail,
            final(io).free_list_head == old(io).free_list_head || (old(io).free_list_head matches
            Some(a) && final(io).free_list_head == old(io).backing.free_ptr(a.0 as int)),
            forall|i: int|
                0 <= i < old(io).backing.regions@.len() && i != old(self).tail_region.0 && i
                    != final(self).tail_region.0 ==> final(io).backing.regions@[i] == old(io).backing.regions@[i],
            forall|j: int|
                0 <= j < old(io).backing.regions@.len() ==> #[trigger] final(io).backing.free_ptr(
                    j,
                ) == old(io).backing.free_ptr(j),
            forall|j: int|
                0 <= j < old(io).backing.regions@.len() && j != final(self).tail_region.0
                    ==> #[trigger] final(io).backing.hdr(j) == old(io).backing.hdr(j),
            final(self).tail_region != old(self).tail_region || final(self).tail_sequence == old(self).tail_sequence ==> tail_prefix_preserved(*old(self), *old(io), *final(io)),
            r is Ok && final(self).tail_region != old(self).tail_region ==> {
                &&& old(io).free_list_head == Some(final(self).tail_region)
                &&& frame_at(
                    final(io).backing.region_data(old(self).tail_region.0 as int),
                    old(self).tail_next_entry_offset as int,
                    EntryView::NextRegion(final(self).tail_region),
                    old(self).tail_sequence.0,
                    old(self).collection_id.0,
                )
                &&& old(self).tail_next_entry_offset + MAX_NEXTREGION_RECORD + LEN_BYTES <= old(io).backing.meta.region_size
                &&& final(io).backing.hdr(final(self).tail_region.0 as int).collection_sequence.0
                    == old(self).tail_sequence.0 + 1
                &&& final(io).backing.hdr(final(self).tail_region.0 as int).collection_id == old(self).collection_id
                &&& final(io).backing.hdr(final(self).tail_region.0 as int).collection_type
                    == CollectionType::Wal
                &&& final(io).storage_sequence.0 == old(io).storage_sequence.0 + 1
                &&& final(self).tail_sequence.0 == old(self).tail_sequence.0 + 1
            },
            data@.len() + 10 + MAX_NEXTREGION_RECORD > old(io).backing.meta.region_size ==> *final(self) == *old(self) && *final(io) == *old(io),
            data@.len() + 10 + MAX_NEXTREGION_RECORD <= old(io).backing.meta.region_size && old(self).tail_next_entry_offset + data@.len() + 10 + MAX_NEXTREGION_RECORD <= old(io).backing.meta.region_size && data@.len() + 10 > 0xffff ==> r == Err::<(), IoError>(
                IoError::SerializationError,
            ) && *final(self) == *old(self) && *final(io) == *old(io),
            data@.len() + 10 + MAX_NEXTREGION_RECORD <= old(io).backing.meta.region_size && old(self).tail_next_entry_offset + data@.len() + 10 + MAX_NEXTREGION_RECORD > old(io).backing.meta.region_size ==> {
                &&& (old(io).free_list_head is None ==> r == Err::<(), IoError>(
                    IoError::StorageFull,
                ) && *final(self) == *old(self) && *final(io) == *old(io))
                &&& (old(io).free_list_head matches Some(a) ==> {
                    &&& (old(io).backing.meta.region_size < 2 * MAX_NEXTREGION_RECORD ==> r
                        == Err::<(), IoError>(IoError::RecordTooLarge(MAX_NEXTREGION_RECORD))
                        && *final(self) == *old(self) && *final(io) == crate::io::popped(
                        *old(io),
                        a,
                    ))
                    &&& (old(io).backing.meta.region_size >= 2 * MAX_NEXTREGION_RECORD && old(self).tail_next_entry_offset + 2 * MAX_NEXTREGION_RECORD > old(io).backing.meta.region_size ==> r == Err::<(), IoError>(
                        IoError::SerializationError,
                    ) && *final(self) == *old(self) && *final(io) == crate::io::popped(
                        *old(io),
                        a,
                    ))
                    &&& (old(io).backing.meta.region_size >= 2 * MAX_NEXTREGION_RECORD && old(self).tail_next_entry_offset + 2 * MAX_NEXTREGION_RECORD <= old(io).backing.meta.region_size && !head_lookup_full(*old(io), old(self).collection_id)
                        && data@.len() + 10 <= 0xffff ==> r is Ok && final(self).tail_region == a
                        && final(self).tail_sequence.0 == old(self).tail_sequence.0 + 1)
                })
            },
            r is Ok ==> wrote(
                *old(self),
                *old(io),
                *final(self),
                *final(io),
                EntryView::Data { collection_type, data: data@ },
            ),
            data@.len() + 10 + MAX_NEXTREGION_RECORD > old(io).backing.meta.region_size ==> r
                == Err::<(), IoError>(IoError::RecordTooLarge((data@.len() + 10) as usize)),
            data@.len() + 10 <= 0xffff && old(self).tail_next_entry_offset + data@.len() + 10
                + MAX_NEXTREGION_RECORD <= old(io).backing.meta.region_size ==> {
                &&& r is Ok
                &&& final(self).tail_region == old(self).tail_region
                &&& final(self).tail_sequence == old(self).tail_sequence
                &&& final(self).tail_next_entry_offset == old(self).tail_next_entry_offset
                    + data@.len() + 10
                &&& final(io).storage_sequence == old(io).storage_sequence
                &&& final(io).free_list_head == old(io).free_list_head
                &&& final(io).heads == old(io).heads
            },
            data@.len() + 10 + MAX_NEXTREGION_RECORD <= old(io).backing.meta.region_size
                && data@.len() + 10 <= 0xffff && (old(self).tail_next_entry_offset + data@.len()
                + 10 + MAX_NEXTREGION_RECORD <= old(io).backing.meta.region_size || ((old(io).free_list_head is Some) && old(self).tail_next_entry_offset + 2
                * MAX_NEXTREGION_RECORD <= old(io).backing.meta.region_size && old(io).backing.meta.region_size >= 2 * MAX_NEXTREGION_RECORD
                && !crate::wal::head_lookup_full(*old(io), old(self).collection_id))) ==> r is Ok,
    {
        let mut owned: Vec<u8> = Vec::new();
        let mut i: usize = 0;
        while i < data.len()
            invariant
                i <= data@.len(),
                owned@.len() == i,
                forall|k: int| 0 <= k < i ==> owned@[k] == data@[k],
            decreases data@.len() - i,
        {
            owned.push(data[i]);
            i += 1;
        }
        proof {
            assert(owned@ =~= data@);
        }
        let entry = EntryRecord::Data(DataRecord { collection_type, data: owned });
        proof {
            assert(payload_bytes(entry@).len() == 2 + data@.len());
            assert(frame_len(entry@) == data@.len() + 10);
        }
        self.write_entry(io, &entry)
    }

    /// Reopens a log from its root region: reads the region's header,
    /// then replays the log from its start, following region links and
    /// adopting the most recent commit record as the durable head; the
    /// position where the log ends becomes the tail.  The result is
    /// exactly what `spec_reopen` computes over the region bytes: the
    /// replayed head and tail on success, an error on a replay the
    /// reopen rejects.
    pub fn open(io: &Io, region: MemRegionAddress) -> (r: Result<Wal, IoError>)
        requires
            io.wf(),
        ensures
            !io.backing.valid(region) ==> r == Err::<Wal, IoError>(IoError::InvalidAddress(region)),
            io.backing.valid(region) ==> match spec_reopen(*io, region) {
                Option::Some(ht) => r matches Ok(w) && {
                    &&& w.collection_id == io.backing.hdr(region.0 as int).collection_id
                    &&& w.head_region == ht.0.region
                    &&& w.head_region_start_offset == ht.0.offset
                    &&& w.head_sequence == ht.0.collection_sequence
                    &&& w.tail_region == ht.1.region
                    &&& w.tail_next_entry_offset == ht.1.offset
                    &&& w.tail_sequence == ht.1.collection_sequence
                },
                Option::None => r is Err,
            },
            r matches Ok(w) ==> {
                &&& io.backing.valid(region)
                &&& w.wf(*io)
                &&& w.collection_id == io.backing.hdr(region.0 as int).collection_id
            },
    {
        let (collection_id, collection_sequence) = {
            let header = match io.get_region_header(region) {
                Ok(h) => h,
                Err(e) => {
                    return Err(e);
                },
            };
            (header.collection_id, header.collection_sequence)
        };
        let size = io.region_size();
        let mut head_region = region;
        let mut head_start: usize = 0;
        let mut head_seq = collection_sequence;
        let this = Wal {
            head_region: region,
            head_region_start_offset: 0,
            collection_id,
            head_sequence: collection_sequence,
            tail_region: region,
            tail_sequence: collection_sequence,
            tail_next_entry_offset: 0,
        };
        let mut cursor = this.get_cursor();
        let mut fuel: u64 = REPLAY_FUEL;
        proof {
            assert(spec_reopen(*io, region) == spec_replay(
                *io,
                collection_id.0,
                cursor,
                cursor,
                fuel as nat,
            ));
        }
        loop
            invariant_except_break
                spec_reopen(*io, region) == spec_replay(
                    *io,
                    collection_id.0,
                    WalCursor {
                        region: head_region,
                        offset: head_start,
                        collection_sequence: head_seq,
                    },
                    cursor,
                    fuel as nat,
                ),
            invariant
                io.wf(),
                io.backing.valid(region),
                collection_id == io.backing.hdr(region.0 as int).collection_id,
                size == io.backing.meta.region_size,
                cursor.region.0 < io.backing.regions@.len(),
                cursor.offset <= size,
                head_region.0 < io.backing.regions@.len(),
                head_start <= size,
                head_seq.0 <= cursor.collection_sequence.0,
                head_seq == cursor.collection_sequence ==> head_region == cursor.region
                    && head_start <= cursor.offset,
                this.collection_id == collection_id,
            ensures
                spec_reopen(*io, region) == Option::Some(
                    (
                        WalCursor {
                            region: head_region,
                            offset: head_start,
                            collection_sequence: head_seq,
                        },
                        cursor,
                    ),
                ),
            decreases fuel,
        {
            let ghost head_cursor = WalCursor {
                region: head_region,
                offset: head_start,
                collection_sequence: head_seq,
            };
            if fuel == 0 {
                return Err(IoError::Unreachable);
            }
            let ghost fuel0 = fuel as nat;
            fuel = fuel - 1;
            if cursor.collection_sequence.0 == u64::MAX {
                return Err(IoError::Unreachable);
            }
            let step = match this.read(io, cursor) {
                Ok(step) => step,
                Err(e) => {
                    proof {
                        assert(spec_read_step(*io, collection_id.0, cursor) is Corrupt);
                    }
                    return Err(e);
                },
            };
            match step {
                WalRead::Record { next, record: _ } => {
                    proof {
                        assert(spec_read_step(*io, collection_id.0, cursor) matches
                            SpecStep::DataStep { next: n, .. } && n == next);
                    }
                    cursor = next;
                },
                WalRead::Commit { to_region, to_offset, to_sequence, next } => {
                    proof {
                        assert(spec_read_step(*io, collection_id.0, cursor) matches
                            SpecStep::CommitStep { to_region: sr, to_offset: so, to_sequence: ss, next: n } && sr == to_region && so == to_offset && ss == to_sequence && n
                            == next);
                    }
                    // A commit record moves the durable head to its
                    // cursor; reject one pointing outside the store or
                    // ahead of the replay position.
                    if to_region.0 >= io.backing.regions.len() {
                        return Err(IoError::InvalidAddress(to_region));
                    }
                    if to_offset > size {
                        return Err(IoError::OutOfBounds);
                    }
                    if to_sequence.0 > next.collection_sequence.0 {
                        return Err(IoError::Unreachable);
                    }
                    if to_sequence.0 == next.collection_sequence.0 && (to_region.0
                        != next.region.0 || to_offset > next.offset) {
                        return Err(IoError::Unreachable);
                    }
                    head_region = to_region;
                    head_start = to_offset;
                    head_seq = to_sequence;
                    cursor = next;
                },
                WalRead::EndOfRegion { next } => {
                    proof {
                        assert(spec_read_step(*io, collection_id.0, cursor) matches
                            SpecStep::TransitionStep { next: n } && n == next);
                    }
                    if next.region.0 >= io.backing.regions.len() {
                        return Err(IoError::InvalidAddress(next.region));
                    }
                    cursor = next;
                },
                WalRead::EndOfWAL => {
                    proof {
                        assert(spec_read_step(*io, collection_id.0, cursor) is EndOfLog);
                        assert(spec_replay(*io, collection_id.0, head_cursor, cursor, fuel0)
                            == Option::Some((head_cursor, cursor)));
                    }
                    break;
                },
            }
        }
        Ok(
            Wal {
                head_region,
                head_region_start_offset: head_start,
                collection_id,
                head_sequence: head_seq,
                tail_region: cursor.region,
                tail_sequence: cursor.collection_sequence,
                tail_next_entry_offset: cursor.offset,
            },
        )
    }

    /// Commits the log up to `cursor`: writes a commit record and
    /// advances the durable head to the cursor.  A cursor at or behind
    /// the current head is already committed, so committing the same
    /// cursor twice yields `AlreadyCommitted` on the second call.
    pub fn commit(&mut self, io: &mut Io, cursor: WalCursor) -> (r: Result<(), IoError>)
        requires
            old(self).wf(*old(io)),
            old(io).wf(),
            cursor.region.0 < old(io).backing.regions@.len(),
            old(io).storage_sequence.0 < u64::MAX,
            old(self).tail_sequence.0 < u64::MAX,
        ensures
            final(io).wf(),
            final(self).wf(*final(io)),
            final(self).collection_id == old(self).collection_id,
            final(io).storage_sequence.0 <= old(io).storage_sequence.0 + 1,
            final(self).tail_sequence.0 <= old(self).tail_sequence.0 + 1,
            final(io).backing.meta == old(io).backing.meta,
            final(io).backing.regions@.len() == old(io).backing.regions@.len(),
            cursor.offset > old(io).backing.meta.region_size ==> r == Err::<(), IoError>(
                IoError::OutOfBounds,
            ) && *final(self) == *old(self) && *final(io) == *old(io),
            cursor.offset <= old(io).backing.meta.region_size && cursor.collection_sequence.0
                < old(self).head_sequence.0 ==> r == Err::<(), IoError>(IoError::AlreadyCommitted)
                && *final(self) == *old(self) && *final(io) == *old(io),
            cursor.offset <= old(io).backing.meta.region_size && cursor.collection_sequence == old(self).head_sequence && cursor.region != old(self).head_region ==> r == Err::<(), IoError>(
                IoError::Unreachable,
            ) && *final(self) == *old(self) && *final(io) == *old(io),
            cursor.offset <= old(io).backing.meta.region_size && cursor.collection_sequence == old(self).head_sequence && cursor.region == old(self).head_region && cursor.offset <= old(self).head_region_start_offset ==> r == Err::<(), IoError>(IoError::AlreadyCommitted)
                && *final(self) == *old(self) && *final(io) == *old(io),
            cursor.offset <= old(io).backing.meta.region_size && cursor.collection_sequence == old(self).head_sequence && cursor.region == old(self).head_region && cursor.offset > old(self).head_region_start_offset && cursor.offset > old(self).tail_next_entry_offset ==> r
                == Err::<(), IoError>(IoError::OutOfBounds) && *final(self) == *old(self) && *final(io) == *old(io),
            cursor.offset <= old(io).backing.meta.region_size && cursor.collection_sequence.0
                > old(self).head_sequence.0 && cursor.collection_sequence == old(self).tail_sequence && cursor.region != old(self).tail_region ==> r == Err::<(), IoError>(
                IoError::Unreachable,
            ) && *final(self) == *old(self) && *final(io) == *old(io),
            cursor.offset <= old(io).backing.meta.region_size && cursor.collection_sequence.0
                > old(self).head_sequence.0 && cursor.collection_sequence == old(self).tail_sequence && cursor.region == old(self).tail_region && cursor.offset > old(self).tail_next_entry_offset ==> r == Err::<(), IoError>(IoError::OutOfBounds) && *final(self)
                == *old(self) && *final(io) == *old(io),
            cursor.offset <= old(io).backing.meta.region_size && cursor.collection_sequence.0
                > old(self).tail_sequence.0 ==> r == Err::<(), IoError>(IoError::OutOfBounds)
                && *final(self) == *old(self) && *final(io) == *old(io),
            cursor.offset <= old(io).backing.meta.region_size && cursor.collection_sequence.0
                >= old(self).head_sequence.0 && cursor.collection_sequence.0 <= old(self).tail_sequence.0 && (cursor.collection_sequence.0 == old(self).head_sequence.0
                ==> cursor.region == old(self).head_region && cursor.offset > old(self).head_region_start_offset && cursor.offset <= old(self).tail_next_entry_offset) && (
            cursor.collection_sequence.0 > old(self).head_sequence.0 && cursor.collection_sequence.0
                == old(self).tail_sequence.0 ==> cursor.region == old(self).tail_region
                && cursor.offset <= old(self).tail_next_entry_offset) && 25
                + MAX_NEXTREGION_RECORD <= old(io).backing.meta.region_size && (old(self).tail_next_entry_offset + 25 + MAX_NEXTREGION_RECORD <= old(io).backing.meta.region_size || ((old(io).free_list_head is Some) && old(self).tail_next_entry_offset + 2 * MAX_NEXTREGION_RECORD <= old(io).backing.meta.region_size && old(io).backing.meta.region_size >= 2 * MAX_NEXTREGION_RECORD
                && !head_lookup_full(*old(io), old(self).collection_id))) ==> r is Ok,
            r is Ok ==> {
                &&& final(self).head_region == cursor.region
                &&& final(self).head_region_start_offset == cursor.offset
                &&& final(self).head_sequence == cursor.collection_sequence
                &&& wrote(
                    *old(self),
                    *old(io),
                    Wal {
                        head_region: old(self).head_region,
                        head_region_start_offset: old(self).head_region_start_offset,
                        head_sequence: old(self).head_sequence,
                        ..*final(self)
                    },
                    *final(io),
                    EntryView::Commit {
                        to_region: cursor.region,
                        to_offset: cursor.offset,
                        to_sequence: cursor.collection_sequence,
                    },
                )
            },
            r is Err ==> final(self).head_region == old(self).head_region && final(self).head_region_start_offset == old(self).head_region_start_offset && final(self).head_sequence
                == old(self).head_sequence,
    {
        if cursor.offset > io.region_size() {
            return Err(IoError::OutOfBounds);
        }
        if cursor.collection_sequence.0 < self.head_sequence.0 {
            // A stale commit.
            return Err(IoError::AlreadyCommitted);
        } else if cursor.collection_sequence.0 == self.head_sequence.0 {
            if cursor.region.0 != self.head_region.0 {
                return Err(IoError::Unreachable);
            }
            if cursor.offset <= self.head_region_start_offset {
                // The durable head is already at or past this cursor.
                return Err(IoError::AlreadyCommitted);
            }
            if cursor.offset > self.tail_next_entry_offset {
                return Err(IoError::OutOfBounds);
            }
        } else if cursor.collection_sequence.0 == self.tail_sequence.0 {
            if cursor.region.0 != self.tail_region.0 {
                return Err(IoError::Unreachable);
            }
            if cursor.offset > self.tail_next_entry_offset {
                return Err(IoError::OutOfBounds);
            }
        } else if cursor.collection_sequence.0 > self.tail_sequence.0 {
            return Err(IoError::OutOfBounds);
        }
        let entry = EntryRecord::Commit {
            to_region: cursor.region,
            to_offset: cursor.offset,
            to_sequence: cursor.collection_sequence,
        };
        proof {
            assert(payload_bytes(entry@).len() == 17);
            assert(frame_len(entry@) == 25);
        }
        match self.write_entry(io, &entry) {
            Ok(()) => {},
            Err(e) => {
                return Err(e);
            },
        }
        self.head_sequence = cursor.collection_sequence;
        self.head_region = cursor.region;
        self.head_region_start_offset = cursor.offset;
        Ok(())
    }

    /// Reads the record at the cursor.  Past the region's end, or when
    /// the length checksum does not match the cursor's sequence and
    /// this log's collection id, the position is the end of the log;
    /// a record whose body fails its own checksum is corruption.
    pub fn read(&self, io: &Io, cursor: WalCursor) -> (r: Result<WalRead, IoError>)
        requires
            io.wf(),
            cursor.collection_sequence.0 < u64::MAX,
        ensures
            cursor.offset + LEN_BYTES > io.backing.meta.region_size ==> (r matches Ok(w) && w
                is EndOfWAL),
            forall|e: EntryView|
                readable_at(*io, self.collection_id.0, cursor, e) ==> read_matches(r, cursor, e),
            io.backing.valid(cursor.region) ==> match spec_read_step(
                *io,
                self.collection_id.0,
                cursor,
            ) {
                SpecStep::EndOfLog => r matches Ok(w) && w is EndOfWAL,
                SpecStep::Corrupt => r == Err::<WalRead, IoError>(IoError::SerializationError),
                SpecStep::DataStep { collection_type, data, next } => r matches Ok(w) && (w
                matches WalRead::Record { next: n, record } && n == next && record.collection_type
                    == collection_type && record.data@ == data),
                SpecStep::CommitStep { to_region, to_offset, to_sequence, next } => r matches Ok(w)
                    && (w matches WalRead::Commit { to_region: tr, to_offset: to, to_sequence: ts, next: n } && tr == to_region && to == to_offset && ts == to_sequence && n == next),
                SpecStep::TransitionStep { next } => r matches Ok(w) && (w matches
                WalRead::EndOfRegion { next: n } && n == next),
            },
            !io.backing.valid(cursor.region) && cursor.offset + LEN_BYTES
                <= io.backing.meta.region_size ==> r == Err::<WalRead, IoError>(
                IoError::InvalidAddress(cursor.region),
            ),
            r matches Ok(w) ==> match w {
                WalRead::Record { next, record } => next.region == cursor.region
                    && next.collection_sequence == cursor.collection_sequence && cursor.offset
                    < next.offset && next.offset <= io.backing.meta.region_size,
                WalRead::Commit { to_region, to_offset, to_sequence, next } => next.region
                    == cursor.region && next.collection_sequence == cursor.collection_sequence
                    && cursor.offset < next.offset && next.offset
                    <= io.backing.meta.region_size,
                WalRead::EndOfRegion { next } => next.offset == 0 && next.collection_sequence.0
                    == cursor.collection_sequence.0 + 1,
                WalRead::EndOfWAL => true,
            },
    {
        let region = cursor.region;
        let offset = cursor.offset;
        let size = io.region_size();
        let ghost id = self.collection_id.0;
        if offset > size || LEN_BYTES > size - offset {
            proof {
                assert forall|e: EntryView|
                    readable_at(*io, id, cursor, e) implies read_matches(
                    Ok::<WalRead, IoError>(WalRead::EndOfWAL),
                    cursor,
                    e,
                ) by {
                    lemma_frame_fields(
                        io.backing.region_data(cursor.region.0 as int),
                        cursor.offset as int,
                        e,
                        cursor.collection_sequence.0,
                        id,
                    );
                }
            }
            return Ok(WalRead::EndOfWAL);
        }
        let len_bytes = match io.get_region_data(region, offset, LEN_RECORD_BYTES) {
            Ok(v) => v,
            Err(e) => {
                proof {
                    assert(!io.backing.valid(region));
                }
                return Err(e);
            },
        };
        let len16 = crate::bytes::read_u16_of(len_bytes[0], len_bytes[1]);
        let crc_bytes = match io.get_region_data(region, offset + LEN_RECORD_BYTES, LEN_CRC_BYTES) {
            Ok(v) => v,
            Err(e) => {
                proof {
                    assert(false);
                }
                return Err(e);
            },
        };
        let read_crc = crate::bytes::read_u16_of(crc_bytes[0], crc_bytes[1]);
        let mut crc_input: Vec<u8> = Vec::new();
        crate::bytes::push_le16(&mut crc_input, len16);
        crate::bytes::push_le64(&mut crc_input, cursor.collection_sequence.0);
        crate::bytes::push_le16(&mut crc_input, self.collection_id.0);
        proof {
            assert(crc_input@ =~= len_crc_input(len16, cursor.collection_sequence.0, id));
        }
        let len_crc = crate::checksum::crc16(crc_input.as_slice());
        proof {
            let d = io.backing.region_data(cursor.region.0 as int);
            assert(len_bytes@ =~= seq![len_bytes@[0], len_bytes@[1]]);
            assert(crc_bytes@ =~= seq![crc_bytes@[0], crc_bytes@[1]]);
            assert forall|e: EntryView| readable_at(*io, id, cursor, e) implies len16
                == frame_len(e) as u16 && read_crc == crate::checksum::crc16_of(
                len_crc_input(frame_len(e) as u16, cursor.collection_sequence.0, id),
            ) by {
                lemma_frame_fields(d, cursor.offset as int, e, cursor.collection_sequence.0, id);
                assert(len_bytes@ == crate::bytes::le16(frame_len(e) as u16));
                crate::bytes::lemma_le16_injective(len16, frame_len(e) as u16);
                assert(crc_bytes@ == crate::bytes::le16(
                    crate::checksum::crc16_of(
                        len_crc_input(frame_len(e) as u16, cursor.collection_sequence.0, id),
                    ),
                ));
                crate::bytes::lemma_le16_injective(
                    read_crc,
                    crate::checksum::crc16_of(
                        len_crc_input(frame_len(e) as u16, cursor.collection_sequence.0, id),
                    ),
                );
            }
        }
        if len_crc != read_crc {
            proof {
                assert forall|e: EntryView|
                    readable_at(*io, id, cursor, e) implies read_matches(
                    Ok::<WalRead, IoError>(WalRead::EndOfWAL),
                    cursor,
                    e,
                ) by {
                    assert(len_crc == crate::checksum::crc16_of(
                        len_crc_input(len16, cursor.collection_sequence.0, id),
                    ));
                    assert(false);
                }
            }
            return Ok(WalRead::EndOfWAL);
        }
        let len = len16 as usize;
        if len < LEN_BYTES {
            proof {
                assert forall|e: EntryView|
                    readable_at(*io, id, cursor, e) implies read_matches(
                    Err::<WalRead, IoError>(IoError::SerializationError),
                    cursor,
                    e,
                ) by {
                    lemma_frame_fields(
                        io.backing.region_data(cursor.region.0 as int),
                        cursor.offset as int,
                        e,
                        cursor.collection_sequence.0,
                        id,
                    );
                    assert(false);
                }
            }
            return Err(IoError::SerializationError);
        }
        let offset4 = offset + LEN_BYTES;
        if len > size - offset4 {
            proof {
                assert forall|e: EntryView|
                    readable_at(*io, id, cursor, e) implies read_matches(
                    Err::<WalRead, IoError>(IoError::SerializationError),
                    cursor,
                    e,
                ) by {
                    assert(false);
                }
            }
            return Err(IoError::SerializationError);
        }
        let record_len = len - LEN_BYTES;
        let body = match io.get_region_data(region, offset4, record_len) {
            Ok(v) => v,
            Err(e) => {
                proof {
                    assert(false);
                }
                return Err(e);
            },
        };
        proof {
            let d = io.backing.region_data(cursor.region.0 as int);
            assert(body@ =~= d.subrange(offset4 as int, offset4 + record_len));
            assert forall|e: EntryView| readable_at(*io, id, cursor, e) implies body@
                == body_bytes(e) && spec_decode_body(body@) == Some(e) by {
                lemma_frame_fields(d, cursor.offset as int, e, cursor.collection_sequence.0, id);
                assert(body@ == d.subrange(
                    cursor.offset + 4,
                    cursor.offset + frame_len(e),
                ));
            }
        }
        let entry = match decode_entry(body.as_slice()) {
            Some(entry) => entry,
            None => {
                proof {
                    assert forall|e: EntryView|
                        readable_at(*io, id, cursor, e) implies read_matches(
                        Err::<WalRead, IoError>(IoError::SerializationError),
                        cursor,
                        e,
                    ) by {
                        assert(false);
                    }
                }
                return Err(IoError::SerializationError);
            },
        };
        proof {
            assert(spec_decode_body(body@) == Some(entry@));
            match entry@ {
                EntryView::Data { collection_type, data } => {
                    assert(body@.len() >= 5);
                },
                EntryView::Commit { to_region, to_offset, to_sequence } => {
                    assert(body@.subrange(0, body@.len() - 4).len() == 17);
                },
                EntryView::NextRegion(a) => {
                    assert(body@.subrange(0, body@.len() - 4).len() == 5);
                },
            }
            assert(record_len >= 5);
        }
        let result = match entry {
            EntryRecord::Data(data_record) => {
                let next_offset = offset4 + record_len;
                WalRead::Record {
                    next: WalCursor {
                        region: cursor.region,
                        offset: next_offset,
                        collection_sequence: cursor.collection_sequence,
                    },
                    record: data_record,
                }
            },
            EntryRecord::Commit { to_region, to_offset, to_sequence } => {
                let next_offset = offset4 + record_len;
                WalRead::Commit {
                    to_region,
                    to_offset,
                    to_sequence,
                    next: WalCursor {
                        region: cursor.region,
                        offset: next_offset,
                        collection_sequence: cursor.collection_sequence,
                    },
                }
            },
            EntryRecord::NextRegion(next_region) => {
                let next_sequence = cursor.collection_sequence.increment();
                WalRead::EndOfRegion {
                    next: WalCursor {
                        region: next_region,
                        offset: 0,
                        collection_sequence: next_sequence,
                    },
                }
            },
        };
        proof {
            assert forall|e: EntryView| readable_at(*io, id, cursor, e) implies read_matches(
                Ok::<WalRead, IoError>(result),
                cursor,
                e,
            ) by {
                assert(spec_decode_body(body@) == Some(e));
                assert(e == entry@);
            }
        }
        Ok(result)
    }
}

/// Commit idempotence: once a cursor has been committed, committing
/// the same cursor again is rejected as already committed, whatever
/// the log held before.
pub fn commit_twice(wal: &mut Wal, io: &mut Io, cursor: WalCursor) -> (r: (
    Result<(), IoError>,
    Result<(), IoError>,
))
    requires
        old(wal).wf(*old(io)),
        old(io).wf(),
        cursor.region.0 < old(io).backing.regions@.len(),
        old(io).storage_sequence.0 < u64::MAX - 1,
        old(wal).tail_sequence.0 < u64::MAX - 1,
    ensures
        final(io).wf(),
        final(wal).wf(*final(io)),
        r.0 is Ok ==> r.1 == Err::<(), IoError>(IoError::AlreadyCommitted),
{
    let first = wal.commit(io, cursor);
    let second = wal.commit(io, cursor);
    (first, second)
}

/// Write-read round trip across a region boundary: a record that no
/// longer fits the tail region is placed in a fresh region behind a
/// region link, and reading from the old tail yields the transition
/// and then the record.  The free-list head is assumed distinct from
/// the live tail region, as the free-list discipline keeps it.
pub fn write_across_regions_then_read(
    wal: &mut Wal,
    io: &mut Io,
    collection_type: CollectionType,
    data: &[u8],
) -> (r: Result<(WalRead, WalRead), IoError>)
    requires
        old(wal).wf(*old(io)),
        old(io).wf(),
        data@.len() + 10 <= 0xffff,
        data@.len() + 10 + MAX_NEXTREGION_RECORD <= old(io).backing.meta.region_size,
        old(wal).tail_next_entry_offset + data@.len() + 10 + MAX_NEXTREGION_RECORD > old(io).backing.meta.region_size,
        old(wal).tail_next_entry_offset + 2 * MAX_NEXTREGION_RECORD <= old(io).backing.meta.region_size,
        old(io).backing.meta.region_size >= 2 * MAX_NEXTREGION_RECORD,
        old(io).free_list_head is Some,
        old(io).free_list_head != Some(old(wal).tail_region),
        !head_lookup_full(*old(io), old(wal).collection_id),
        old(io).storage_sequence.0 < u64::MAX,
        old(wal).tail_sequence.0 < u64::MAX - 1,
    ensures
        final(io).wf(),
        final(wal).wf(*final(io)),
        r matches Ok(pair) && {
            &&& pair.0 matches WalRead::EndOfRegion { next } && next.region == final(wal).tail_region && next.offset == 0 && next.collection_sequence == final(wal).tail_sequence
            &&& pair.1 matches WalRead::Record { next, record } && record.collection_type
                == collection_type && record.data@ == data@
        },
{
    let link_region = wal.tail_region;
    let link_offset = wal.tail_next_entry_offset;
    let link_sequence = wal.tail_sequence;
    let ghost e = EntryView::Data { collection_type, data: data@ };
    proof {
        assert(payload_bytes(e).len() == 2 + data@.len());
    }
    match wal.write(io, collection_type, data) {
        Ok(()) => {},
        Err(_) => {
            proof {
                assert(false);
            }
            return Err(IoError::Unreachable);
        },
    }
    let link_cursor = WalCursor {
        region: link_region,
        offset: link_offset,
        collection_sequence: link_sequence,
    };
    let ghost link = EntryView::NextRegion(wal.tail_region);
    proof {
        assert(wal.tail_region != link_region);
        assert(payload_bytes(link).len() == 5);
        assert(frame_len(link) == MAX_NEXTREGION_RECORD);
        assert(readable_at(*io, wal.collection_id.0, link_cursor, link));
    }
    let first_read = wal.read(io, link_cursor);
    proof {
        assert(read_matches(first_read, link_cursor, link));
    }
    let first = match first_read {
        Ok(w) => w,
        Err(_) => {
            proof {
                assert(false);
            }
            return Err(IoError::Unreachable);
        },
    };
    let record_cursor = match &first {
        WalRead::EndOfRegion { next } => *next,
        _ => {
            proof {
                assert(false);
            }
            return Err(IoError::Unreachable);
        },
    };
    proof {
        assert(record_cursor.region == wal.tail_region && record_cursor.offset == 0
            && record_cursor.collection_sequence == wal.tail_sequence);
        assert(readable_at(*io, wal.collection_id.0, record_cursor, e));
    }
    let second_read = wal.read(io, record_cursor);
    proof {
        assert(read_matches(second_read, record_cursor, e));
    }
    let second = match second_read {
        Ok(w) => w,
        Err(_) => {
            proof {
                assert(false);
            }
            return Err(IoError::Unreachable);
        },
    };
    Ok((first, second))
}

/// Write-read round trip for two records: two payloads appended in
/// order are read back in order, the second from the cursor the first
/// read hands out.  The reserved footer bound keeps both in the tail
/// region.
pub fn write_two_then_read_back(
    wal: &mut Wal,
    io: &mut Io,
    collection_type: CollectionType,
    first_data: &[u8],
    second_data: &[u8],
) -> (r: Result<(WalRead, WalRead), IoError>)
    requires
        old(wal).wf(*old(io)),
        old(io).wf(),
        first_data@.len() + 10 <= 0xffff,
        second_data@.len() + 10 <= 0xffff,
        old(wal).tail_next_entry_offset + first_data@.len() + second_data@.len() + 20
            + MAX_NEXTREGION_RECORD <= old(io).backing.meta.region_size,
        old(io).storage_sequence.0 < u64::MAX,
        old(wal).tail_sequence.0 < u64::MAX - 1,
    ensures
        final(io).wf(),
        final(wal).wf(*final(io)),
        r matches Ok(pair) && {
            &&& pair.0 matches WalRead::Record { next, record } && record.collection_type
                == collection_type && record.data@ == first_data@
            &&& pair.1 matches WalRead::Record { next, record } && record.collection_type
                == collection_type && record.data@ == second_data@
        },
{
    let ghost e1 = EntryView::Data { collection_type, data: first_data@ };
    let ghost e2 = EntryView::Data { collection_type, data: second_data@ };
    proof {
        assert(payload_bytes(e1).len() == 2 + first_data@.len());
        assert(payload_bytes(e2).len() == 2 + second_data@.len());
    }
    match wal.write(io, collection_type, first_data) {
        Ok(()) => {},
        Err(_) => {
            proof {
                assert(false);
            }
            return Err(IoError::Unreachable);
        },
    }
    let ghost wal1 = *wal;
    let ghost io1 = *io;
    let first_len = first_data.len() + 10;
    let first_cursor = WalCursor {
        region: wal.tail_region,
        offset: wal.tail_next_entry_offset - first_len,
        collection_sequence: wal.tail_sequence,
    };
    match wal.write(io, collection_type, second_data) {
        Ok(()) => {},
        Err(_) => {
            proof {
                assert(false);
            }
            return Err(IoError::Unreachable);
        },
    }
    proof {
        let r0 = wal1.tail_region.0 as int;
        let o1 = wal1.tail_next_entry_offset - frame_len(e1);
        assert(frame_at(
            io1.backing.region_data(r0),
            o1,
            e1,
            wal1.tail_sequence.0,
            wal1.collection_id.0,
        ));
        assert(tail_prefix_preserved(wal1, io1, *io));
        assert(io.backing.region_data(r0).subrange(o1, o1 + frame_len(e1))
            =~= io1.backing.region_data(r0).subrange(o1, o1 + frame_len(e1)));
        assert(readable_at(*io, wal.collection_id.0, first_cursor, e1));
    }
    let first_read = wal.read(io, first_cursor);
    proof {
        assert(read_matches(first_read, first_cursor, e1));
    }
    let first = match first_read {
        Ok(w) => w,
        Err(_) => {
            proof {
                assert(false);
            }
            return Err(IoError::Unreachable);
        },
    };
    let second_cursor = match &first {
        WalRead::Record { next, record: _ } => *next,
        _ => {
            proof {
                assert(false);
            }
            return Err(IoError::Unreachable);
        },
    };
    proof {
        assert(second_cursor.offset == wal.tail_next_entry_offset - frame_len(e2));
        assert(readable_at(*io, wal.collection_id.0, second_cursor, e2));
    }
    let second_read = wal.read(io, second_cursor);
    proof {
        assert(read_matches(second_read, second_cursor, e2));
    }
    let second = match second_read {
        Ok(w) => w,
        Err(_) => {
            proof {
                assert(false);
            }
            return Err(IoError::Unreachable);
        },
    };
    Ok((first, second))
}

/// Write-read round trip: a payload appended to a log stands framed at
/// the position the write chose, and reading there yields exactly that
/// payload, whatever the log and store held before.
pub fn write_then_read_back(
    wal: &mut Wal,
    io: &mut Io,
    collection_type: CollectionType,
    data: &[u8],
) -> (r: Result<WalRead, IoError>)
    requires
        old(wal).wf(*old(io)),
        old(io).wf(),
        data@.len() + 10 <= 0xffff,
        old(io).storage_sequence.0 < u64::MAX,
        old(wal).tail_sequence.0 < u64::MAX - 1,
    ensures
        final(io).wf(),
        final(wal).wf(*final(io)),
        final(io).storage_sequence.0 <= old(io).storage_sequence.0 + 1,
        final(wal).tail_sequence.0 <= old(wal).tail_sequence.0 + 1,
        final(io).backing.meta == old(io).backing.meta,
        final(io).backing.regions@.len() == old(io).backing.regions@.len(),
        r matches Ok(w) ==> (w matches WalRead::Record { next, record }
            && record.collection_type == collection_type && record.data@ == data@ && next.region
            == final(wal).tail_region && next.offset == final(wal).tail_next_entry_offset
            && next.collection_sequence == final(wal).tail_sequence),
        data@.len() + 10 + MAX_NEXTREGION_RECORD <= old(io).backing.meta.region_size && (old(wal).tail_next_entry_offset + data@.len() + 10 + MAX_NEXTREGION_RECORD <= old(io).backing.meta.region_size || ((old(io).free_list_head is Some) && old(wal).tail_next_entry_offset + 2
            * MAX_NEXTREGION_RECORD <= old(io).backing.meta.region_size && old(io).backing.meta.region_size >= 2 * MAX_NEXTREGION_RECORD && !head_lookup_full(
            *old(io),
            old(wal).collection_id,
        ))) ==> r is Ok,
{
    match wal.write(io, collection_type, data) {
        Ok(()) => {},
        Err(e) => {
            return Err(e);
        },
    }
    let flen = data.len() + 10;
    let cursor = WalCursor {
        region: wal.tail_region,
        offset: wal.tail_next_entry_offset - flen,
        collection_sequence: wal.tail_sequence,
    };
    let ghost e = EntryView::Data { collection_type, data: data@ };
    proof {
        assert(payload_bytes(e).len() == 2 + data@.len());
        assert(frame_len(e) == data@.len() + 10);
        assert(readable_at(*io, wal.collection_id.0, cursor, e));
    }
    let r = wal.read(io, cursor);
    proof {
        assert(read_matches(r, cursor, e));
    }
    r
}

/// What a successful append leaves behind: the head is untouched, the
/// framed record stands at the position the write chose (just below
/// the new tail offset, under the tail's sequence), the reserved
/// footer still fits, everything below the old tail offset in the old
/// tail region is preserved, and the tail either stayed in its region
/// or moved to a fresh one with the next collection sequence.
pub open spec fn wrote(pre_wal: Wal, pre_io: Io, post_wal: Wal, post_io: Io, e: EntryView) -> bool {
    &&& post_wal.collection_id == pre_wal.collection_id
    &&& post_wal.head_region == pre_wal.head_region
    &&& post_wal.head_region_start_offset == pre_wal.head_region_start_offset
    &&& post_wal.head_sequence == pre_wal.head_sequence
    &&& post_wal.tail_next_entry_offset >= frame_len(e)
    &&& frame_at(
        post_io.backing.region_data(post_wal.tail_region.0 as int),
        post_wal.tail_next_entry_offset - frame_len(e),
        e,
        post_wal.tail_sequence.0,
        post_wal.collection_id.0,
    )
    &&& post_wal.tail_next_entry_offset + MAX_NEXTREGION_RECORD
        <= post_io.backing.meta.region_size
    &&& post_io.backing.meta == pre_io.backing.meta
    &&& ((post_wal.tail_sequence == pre_wal.tail_sequence && post_wal.tail_region
        == pre_wal.tail_region && post_wal.tail_next_entry_offset
        == pre_wal.tail_next_entry_offset + frame_len(e) && tail_prefix_preserved(
        pre_wal,
        pre_io,
        post_io,
    )) || (post_wal.tail_sequence.0 == pre_wal.tail_sequence.0 + 1
        && post_wal.tail_next_entry_offset == frame_len(e) && (post_wal.tail_region
        != pre_wal.tail_region ==> tail_prefix_preserved(pre_wal, pre_io, post_io))))
}

/// Every byte below the old tail offset in the old tail region is
/// unchanged.
pub open spec fn tail_prefix_preserved(pre_wal: Wal, pre_io: Io, post_io: Io) -> bool {
    forall|j: int|
        0 <= j < pre_wal.tail_next_entry_offset ==> post_io.backing.region_data(
            pre_wal.tail_region.0 as int,
        )[j] == pre_io.backing.region_data(pre_wal.tail_region.0 as int)[j]
}

/// The pieces of a framed record standing in `d` at `off`: the length
/// field, the length checksum, and the body, which decodes back to the
/// entry.
proof fn lemma_frame_fields(d: Seq<u8>, off: int, e: EntryView, sequence: u64, id: u16)
    requires
        frame_at(d, off, e, sequence, id),
        entry_bounded(e),
        frame_len(e) <= 0xffff,
    ensures
        9 <= frame_len(e),
        d.subrange(off, off + 2) == crate::bytes::le16(frame_len(e) as u16),
        d.subrange(off + 2, off + 4) == crate::bytes::le16(
            crate::checksum::crc16_of(len_crc_input(frame_len(e) as u16, sequence, id)),
        ),
        d.subrange(off + 4, off + frame_len(e)) == body_bytes(e),
        spec_decode_body(d.subrange(off + 4, off + frame_len(e))) == Some(e),
{
    match e {
        EntryView::Data { collection_type, data } => {
            assert(payload_bytes(e).len() == 2 + data.len());
        },
        EntryView::Commit { to_region, to_offset, to_sequence } => {
            assert(payload_bytes(e).len() == 17);
        },
        EntryView::NextRegion(a) => {
            assert(payload_bytes(e).len() == 5);
        },
    }
    let f = frame(e, sequence, id);
    let fl = frame_len(e);
    assert(d.subrange(off, off + fl) == f);
    assert(d.subrange(off, off + 2) =~= f.subrange(0, 2));
    assert(f.subrange(0, 2) =~= crate::bytes::le16(fl as u16));
    assert(d.subrange(off + 2, off + 4) =~= f.subrange(2, 4));
    assert(f.subrange(2, 4) =~= crate::bytes::le16(
        crate::checksum::crc16_of(len_crc_input(fl as u16, sequence, id)),
    ));
    assert(d.subrange(off + 4, off + fl) =~= f.subrange(4, fl));
    assert(f.subrange(4, fl) =~= body_bytes(e));
    lemma_decode_encode(e);
}

/// What `read` yields for the framed record standing at the cursor.
pub open spec fn read_matches(r: Result<WalRead, IoError>, cursor: WalCursor, e: EntryView) -> bool {
    match e {
        EntryView::Data { collection_type, data } => r matches Ok(w) && (w matches
        WalRead::Record { next, record } && next.region == cursor.region && next.offset
            == cursor.offset + frame_len(e) && next.collection_sequence
            == cursor.collection_sequence && record.collection_type == collection_type
            && record.data@ == data),
        EntryView::Commit { to_region, to_offset, to_sequence } => r matches Ok(w) && (w matches
        WalRead::Commit { to_region: tr, to_offset: to, to_sequence: ts, next } && tr == to_region
            && to == to_offset && ts == to_sequence && next.region == cursor.region && next.offset
            == cursor.offset + frame_len(e) && next.collection_sequence
            == cursor.collection_sequence),
        EntryView::NextRegion(a) => r matches Ok(w) && (w matches WalRead::EndOfRegion { next }
            && next.region == a && next.offset == 0 && next.collection_sequence.0
            == cursor.collection_sequence.0 + 1),
    }
}

/// What one cursor step of the log yields, computed over the raw
/// region bytes: the spec-level mirror of `read`.
pub enum SpecStep {
    EndOfLog,
    Corrupt,
    DataStep { collection_type: CollectionType, data: Seq<u8>, next: WalCursor },
    CommitStep {
        to_region: MemRegionAddress,
        to_offset: usize,
        to_sequence: MemCollectionSequence,
        next: WalCursor,
    },
    TransitionStep { next: WalCursor },
}

/// One cursor step over the raw bytes of the cursor's region: the end
/// of the log past the region's tail or on a length-checksum mismatch,
/// corruption on a malformed or checksum-failing body, and otherwise
/// the decoded entry with the advanced cursor.
pub open spec fn spec_read_step(io: Io, id: u16, c: WalCursor) -> SpecStep {
    let size = io.backing.meta.region_size;
    let d = io.backing.region_data(c.region.0 as int);
    if c.offset + LEN_BYTES > size {
        SpecStep::EndOfLog
    } else {
        let len = crate::bytes::u16_of_le(d[c.offset as int], d[c.offset + 1]);
        let stored = crate::bytes::u16_of_le(d[c.offset + 2], d[c.offset + 3]);
        if stored != crate::checksum::crc16_of(len_crc_input(len, c.collection_sequence.0, id)) {
            SpecStep::EndOfLog
        } else if len < LEN_BYTES {
            SpecStep::Corrupt
        } else if c.offset + LEN_BYTES + (len as int) > size {
            SpecStep::Corrupt
        } else {
            match spec_decode_body(d.subrange(c.offset + LEN_BYTES, c.offset + len)) {
                Option::None => SpecStep::Corrupt,
                Option::Some(e) => match e {
                    EntryView::Data { collection_type, data } => SpecStep::DataStep {
                        collection_type,
                        data,
                        next: WalCursor {
                            region: c.region,
                            offset: (c.offset + len) as usize,
                            collection_sequence: c.collection_sequence,
                        },
                    },
                    EntryView::Commit { to_region, to_offset, to_sequence } => SpecStep::CommitStep {
                        to_region,
                        to_offset,
                        to_sequence,
                        next: WalCursor {
                            region: c.region,
                            offset: (c.offset + len) as usize,
                            collection_sequence: c.collection_sequence,
                        },
                    },
                    EntryView::NextRegion(a) => SpecStep::TransitionStep {
                        next: WalCursor {
                            region: a,
                            offset: 0,
                            collection_sequence: MemCollectionSequence(
                                (c.collection_sequence.0 + 1) as u64,
                            ),
                        },
                    },
                },
            }
        }
    }
}

/// The hypothesis under which `read` is exact: a bounded, framed
/// record stands at the cursor under the cursor's sequence and the
/// log's collection id, clear of the region's trailing length field.
pub open spec fn readable_at(io: Io, id: u16, cursor: WalCursor, e: EntryView) -> bool {
    &&& entry_bounded(e)
    &&& frame_len(e) <= 0xffff
    &&& io.backing.valid(cursor.region)
    &&& frame_at(
        io.backing.region_data(cursor.region.0 as int),
        cursor.offset as int,
        e,
        cursor.collection_sequence.0,
        id,
    )
    &&& cursor.offset + frame_len(e) + LEN_BYTES <= io.backing.meta.region_size
}

/// The fuel bounding a replay: more steps than any store can hold.
pub const REPLAY_FUEL: u64 = 0xffff_ffff_ffff_ffff;

/// The replay `open` performs: from `cursor`, with `head` the durable
/// point adopted so far, follow the log step by step; a commit record
/// moves the head to its cursor (rejecting one pointing outside the
/// store or ahead of the replay), a region link follows to the named
/// region, and the end of the log yields the final head and tail.
/// `None` is a replay the reopen rejects.
pub open spec fn spec_replay(
    io: Io,
    id: u16,
    head: WalCursor,
    cursor: WalCursor,
    fuel: nat,
) -> Option<(WalCursor, WalCursor)>
    decreases fuel,
{
    if fuel == 0 {
        Option::None
    } else if cursor.collection_sequence.0 == u64::MAX {
        Option::None
    } else if !io.backing.valid(cursor.region) {
        Option::None
    } else {
        match spec_read_step(io, id, cursor) {
            SpecStep::EndOfLog => Option::Some((head, cursor)),
            SpecStep::Corrupt => Option::None,
            SpecStep::DataStep { collection_type, data, next } => spec_replay(
                io,
                id,
                head,
                next,
                (fuel - 1) as nat,
            ),
            SpecStep::CommitStep { to_region, to_offset, to_sequence, next } => {
                if !io.backing.valid(to_region) || to_offset > io.backing.meta.region_size
                    || to_sequence.0 > next.collection_sequence.0 || (to_sequence.0
                    == next.collection_sequence.0 && (to_region.0 != next.region.0 || to_offset
                    > next.offset)) {
                    Option::None
                } else {
                    spec_replay(
                        io,
                        id,
                        WalCursor { region: to_region, offset: to_offset, collection_sequence: to_sequence },
                        next,
                        (fuel - 1) as nat,
                    )
                }
            },
            SpecStep::TransitionStep { next } => {
                if !io.backing.valid(next.region) {
                    Option::None
                } else {
                    spec_replay(io, id, head, next, (fuel - 1) as nat)
                }
            },
        }
    }
}

/// The whole reopen of a log rooted at `region`: replay from the
/// region's start under its header's collection sequence and id.
pub open spec fn spec_reopen(io: Io, region: MemRegionAddress) -> Option<(WalCursor, WalCursor)> {
    let header = io.backing.hdr(region.0 as int);
    let start = WalCursor {
        region,
        offset: 0,
        collection_sequence: header.collection_sequence,
    };
    spec_replay(io, header.collection_id.0, start, start, REPLAY_FUEL as nat)
}

/// The heads table has no slot left for a new collection id.
pub open spec fn head_lookup_full(io: Io, collection_id: CollectionId) -> bool {
    (crate::io::head_lookup(io.heads@, collection_id) is None) && io.heads@.len()
        == io.backing.max_heads
}

} // verus!

