//! The sorted key/value map: an in-buffer store with a split layout —
//! records growing forward from the entry count, index slots growing
//! backward from the buffer's end — binary search over the sorted
//! index, and point update by leaking the overwritten record.

use vstd::prelude::*;

use crate::bytes::{le32, le64, u32_of_le, u64_of_le};
use crate::io::{Io, IoError};
use crate::mem_io::MemRegionAddress;
use crate::wal::Wal;
use crate::CollectionId;

verus! {

/// Errors of the map.
#[derive(Debug, Clone, Copy, PartialEq, Eq, Structural)]
pub enum MapError {
    InvalidEntryCount,
    SerializationError,
    IndexOutOfBounds,
}

/// One key/value pair of the map.
#[derive(Debug, Clone, Copy, PartialEq, Eq, Structural)]
pub struct Entry {
    pub key: u64,
    pub value: u64,
}

/// The size of one index-slot pointer.
pub const ENTRY_REF_POINTER_SIZE: usize = 4;

/// The size of one index slot: a start and an end pointer.
pub const ENTRY_REF_SIZE: usize = 8;

/// The size of the entry count at the buffer's start.
pub const ENTRY_COUNT_SIZE: usize = 4;

/// The size of one serialized record: a key and a value.
pub const RECORD_SIZE: usize = 16;

/// Overwrites `buffer[offset ..]` with `data`; everything else keeps
/// its bytes.
fn splice(buffer: &mut Vec<u8>, offset: usize, data: &[u8])
    requires
        offset + data@.len() <= old(buffer)@.len(),
    ensures
        final(buffer)@.len() == old(buffer)@.len(),
        final(buffer)@ == old(buffer)@.subrange(0, offset as int) + data@ + old(buffer)@.subrange(offset + data@.len(), old(buffer)@.len() as int),
{
    let len = data.len();
    let total = buffer.len();
    let mut i: usize = 0;
    while i < len
        invariant
            i <= len,
            len == data@.len(),
            offset + len <= total,
            total == buffer@.len(),
            buffer@.len() == old(buffer)@.len(),
            forall|k: int| 0 <= k < offset ==> buffer@[k] == old(buffer)@[k],
            forall|k: int| 0 <= k < i ==> buffer@[offset + k] == data@[k],
            forall|k: int| offset + len <= k < buffer@.len() ==> buffer@[k] == old(buffer)@[k],
        decreases len - i,
    {
        buffer[offset + i] = data[i];
        i += 1;
    }
    proof {
        assert(buffer@ =~= old(buffer)@.subrange(0, offset as int) + data@ + old(buffer)@.subrange(offset + data@.len(), old(buffer)@.len() as int));
    }
}

/// The byte offset of index slot `i`: slots grow backward from the
/// buffer's end.
pub open spec fn spec_slot_offset(buffer_len: int, i: int) -> int {
    buffer_len - ENTRY_REF_SIZE * (i + 1)
}

/// The start pointer stored in index slot `i`.
pub open spec fn slot_start(buf: Seq<u8>, i: int) -> u32 {
    let o = spec_slot_offset(buf.len() as int, i);
    u32_of_le(buf[o], buf[o + 1], buf[o + 2], buf[o + 3])
}

/// The end pointer stored in index slot `i`.
pub open spec fn slot_end(buf: Seq<u8>, i: int) -> u32 {
    let o = spec_slot_offset(buf.len() as int, i);
    u32_of_le(buf[o + 4], buf[o + 5], buf[o + 6], buf[o + 7])
}

/// The key stored at byte offset `s`.
pub open spec fn key_at(buf: Seq<u8>, s: int) -> u64 {
    u64_of_le(
        buf[s],
        buf[s + 1],
        buf[s + 2],
        buf[s + 3],
        buf[s + 4],
        buf[s + 5],
        buf[s + 6],
        buf[s + 7],
    )
}

/// The value stored just after the key at byte offset `s`.
pub open spec fn value_at(buf: Seq<u8>, s: int) -> u64 {
    u64_of_le(
        buf[s + 8],
        buf[s + 9],
        buf[s + 10],
        buf[s + 11],
        buf[s + 12],
        buf[s + 13],
        buf[s + 14],
        buf[s + 15],
    )
}

/// The value an entry sequence maps a key to, if any.
pub open spec fn map_lookup(s: Seq<(u64, u64)>, key: u64) -> Option<u64> {
    if exists|i: int| 0 <= i < s.len() && (#[trigger] s[i]).0 == key {
        let i = choose|i: int| 0 <= i < s.len() && (#[trigger] s[i]).0 == key;
        Some(s[i].1)
    } else {
        None
    }
}

/// The keys of an entry sequence are strictly increasing.
pub open spec fn entries_sorted(s: Seq<(u64, u64)>) -> bool {
    forall|i: int, j: int| 0 <= i < j < s.len() ==> (#[trigger] s[i]).0 < (#[trigger] s[j]).0
}

/// A running count of the map's records, stored at the buffer's
/// start.
#[derive(Debug, Clone, Copy, PartialEq, Eq, Structural)]
pub struct EntryCount(pub u32);

impl EntryCount {
    /// Reads a count from the first four little-endian bytes.
    pub fn from_bytes(bytes: &Vec<u8>) -> (r: Result<Self, MapError>)
        ensures
            bytes@.len() < ENTRY_COUNT_SIZE ==> r == Err::<EntryCount, MapError>(
                MapError::InvalidEntryCount,
            ),
            bytes@.len() >= ENTRY_COUNT_SIZE ==> (r matches Ok(c) && le32(c.0) == bytes@.subrange(
                0,
                ENTRY_COUNT_SIZE as int,
            )),
    {
        if bytes.len() < ENTRY_COUNT_SIZE {
            return Err(MapError::InvalidEntryCount);
        }
        let count = crate::bytes::read_u32_of(bytes[0], bytes[1], bytes[2], bytes[3]);
        proof {
            assert(bytes@.subrange(0, ENTRY_COUNT_SIZE as int) =~= seq![
                bytes@[0],
                bytes@[1],
                bytes@[2],
                bytes@[3],
            ]);
        }
        Ok(Self(count))
    }

    /// The count's four little-endian bytes.
    pub fn to_bytes(&self) -> (r: [u8; 4])
        ensures
            r@ == le32(self.0),
    {
        let r = [
            (self.0 & 0xff) as u8,
            ((self.0 >> 8) & 0xff) as u8,
            ((self.0 >> 16) & 0xff) as u8,
            ((self.0 >> 24) & 0xff) as u8,
        ];
        proof {
            assert(r@ =~= le32(self.0));
        }
        r
    }

    /// Stores the count at the buffer's start.
    pub fn write(&self, buffer: &mut Vec<u8>)
        requires
            old(buffer)@.len() >= ENTRY_COUNT_SIZE,
        ensures
            final(buffer)@.len() == old(buffer)@.len(),
            final(buffer)@.subrange(0, ENTRY_COUNT_SIZE as int) == le32(self.0),
            forall|k: int|
                ENTRY_COUNT_SIZE <= k < old(buffer)@.len() ==> final(buffer)@[k] == old(buffer)@[k],
    {
        let bytes = self.to_bytes();
        splice(buffer, 0, bytes.as_slice());
        proof {
            assert(buffer@.subrange(0, ENTRY_COUNT_SIZE as int) =~= le32(self.0));
        }
    }

    /// Reads the count from the buffer's start.
    pub fn read(buffer: &Vec<u8>) -> (r: Result<Self, MapError>)
        ensures
            buffer@.len() < ENTRY_COUNT_SIZE ==> r == Err::<EntryCount, MapError>(
                MapError::InvalidEntryCount,
            ),
            buffer@.len() >= ENTRY_COUNT_SIZE ==> (r matches Ok(c) && le32(c.0)
                == buffer@.subrange(0, ENTRY_COUNT_SIZE as int)),
    {
        Self::from_bytes(buffer)
    }

    /// The next count.
    pub fn increment(&mut self)
        requires
            old(self).0 < u32::MAX,
        ensures
            final(self).0 == old(self).0 + 1,
    {
        self.0 = self.0 + 1;
    }
}

/// A byte offset into the record area.
#[derive(Debug, Clone, Copy, PartialEq, Eq, PartialOrd, Ord, Structural)]
pub struct RecordOffset(pub usize);

impl RecordOffset {
    pub fn new(offset: usize) -> (r: Self)
        ensures
            r == RecordOffset(offset),
    {
        Self(offset)
    }

    /// Advances the offset, rejecting overflow.
    pub fn increment(&mut self, amount: usize) -> (r: Result<(), MapError>)
        ensures
            old(self).0 + amount <= usize::MAX ==> r == Ok::<(), MapError>(()) && final(self).0
                == old(self).0 + amount,
            old(self).0 + amount > usize::MAX ==> r == Err::<(), MapError>(
                MapError::SerializationError,
            ) && *final(self) == *old(self),
    {
        let Some(next) = self.0.checked_add(amount) else {
            return Err(MapError::SerializationError);
        };
        self.0 = next;
        Ok(())
    }
}

/// The position of an index slot.
#[derive(Debug, Clone, Copy, PartialEq, Eq, PartialOrd, Ord, Structural)]
pub struct RecordIndex(pub usize);

impl RecordIndex {
    pub fn new(index: usize) -> (r: Self)
        ensures
            r == RecordIndex(index),
    {
        Self(index)
    }

    pub fn increment(&mut self)
        requires
            old(self).0 < usize::MAX,
        ensures
            final(self).0 == old(self).0 + 1,
    {
        self.0 = self.0 + 1;
    }

    pub fn next(&self) -> (r: Self)
        requires
            self.0 < usize::MAX,
        ensures
            r.0 == self.0 + 1,
    {
        Self(self.0 + 1)
    }

    pub fn previous(&self) -> (r: Self)
        requires
            self.0 >= 1,
        ensures
            r.0 == self.0 - 1,
    {
        Self(self.0 - 1)
    }

    /// The byte offset of this slot: the first slot sits at the end of
    /// the buffer and they grow backward.
    pub fn offset(&self, buffer: &Vec<u8>) -> (r: Result<usize, MapError>)
        requires
            self.0 < 0x1fff_ffffusize,
        ensures
            ENTRY_REF_SIZE * (self.0 + 1) <= buffer@.len() ==> r == Ok::<usize, MapError>(
                (buffer@.len() - ENTRY_REF_SIZE * (self.0 + 1)) as usize,
            ),
            ENTRY_REF_SIZE * (self.0 + 1) > buffer@.len() ==> r == Err::<usize, MapError>(
                MapError::IndexOutOfBounds,
            ),
    {
        let need = ENTRY_REF_SIZE * (self.0 + 1);
        let Some(offset) = buffer.len().checked_sub(need) else {
            return Err(MapError::IndexOutOfBounds);
        };
        Ok(offset)
    }
}

/// One index slot: the start and end of its record.
#[derive(Debug, Clone, Copy, PartialEq, Eq, PartialOrd, Ord, Structural)]
pub struct EntryRef {
    pub start: u32,
    pub end: u32,
}

impl EntryRef {
    /// Stores `(start, end)` in index slot `index`.
    pub fn write(
        buffer: &mut Vec<u8>,
        index: RecordIndex,
        start: RecordOffset,
        end: RecordOffset,
    ) -> (r: Result<(), MapError>)
        requires
            index.0 < 0x1fff_ffffusize,
            ENTRY_REF_SIZE * (index.0 + 1) <= old(buffer)@.len(),
            start.0 <= 0xffff_ffffusize,
            end.0 <= 0xffff_ffffusize,
        ensures
            r == Ok::<(), MapError>(()),
            final(buffer)@.len() == old(buffer)@.len(),
            slot_start(final(buffer)@, index.0 as int) == start.0 as u32,
            slot_end(final(buffer)@, index.0 as int) == end.0 as u32,
            forall|k: int|
                0 <= k < spec_slot_offset(old(buffer)@.len() as int, index.0 as int) ==> final(buffer)@[k] == old(buffer)@[k],
            forall|k: int|
                spec_slot_offset(old(buffer)@.len() as int, index.0 as int) + ENTRY_REF_SIZE <= k
                    < old(buffer)@.len() ==> final(buffer)@[k] == old(buffer)@[k],
    {
        let offset = match index.offset(buffer) {
            Ok(o) => o,
            Err(_) => {
                proof {
                    assert(false);
                }
                return Err(MapError::SerializationError);
            },
        };
        let mut bytes: Vec<u8> = Vec::new();
        crate::bytes::push_le32(&mut bytes, start.0 as u32);
        crate::bytes::push_le32(&mut bytes, end.0 as u32);
        proof {
            assert(bytes@ =~= le32(start.0 as u32) + le32(end.0 as u32));
        }
        let blen = buffer.len();
        splice(buffer, offset, bytes.as_slice());
        proof {
            let b = buffer@;
            let o = spec_slot_offset(old(buffer)@.len() as int, index.0 as int);
            assert(blen == old(buffer)@.len());
            assert(o == offset as int);
            assert(b.subrange(o, o + 8) =~= le32(start.0 as u32) + le32(end.0 as u32));
            assert(b[o] == le32(start.0 as u32)[0] && b[o + 1] == le32(start.0 as u32)[1] && b[o
                + 2] == le32(start.0 as u32)[2] && b[o + 3] == le32(start.0 as u32)[3]);
            assert(b[o + 4] == le32(end.0 as u32)[0] && b[o + 5] == le32(end.0 as u32)[1] && b[o
                + 6] == le32(end.0 as u32)[2] && b[o + 7] == le32(end.0 as u32)[3]);
            crate::bytes::lemma_u32_of_le32(start.0 as u32);
            crate::bytes::lemma_u32_of_le32(end.0 as u32);
        }
        Ok(())
    }

    /// Reads index slot `index`.
    pub fn read(buffer: &Vec<u8>, index: RecordIndex) -> (r: Result<Self, MapError>)
        requires
            index.0 < 0x1fff_ffffusize,
        ensures
            ENTRY_REF_SIZE * (index.0 + 1) <= buffer@.len() ==> (r matches Ok(e) && e.start
                == slot_start(buffer@, index.0 as int) && e.end == slot_end(
                buffer@,
                index.0 as int,
            )),
            ENTRY_REF_SIZE * (index.0 + 1) > buffer@.len() ==> r == Err::<EntryRef, MapError>(
                MapError::IndexOutOfBounds,
            ),
    {
        let offset = match index.offset(buffer) {
            Ok(o) => o,
            Err(e) => {
                return Err(e);
            },
        };
        let total = buffer.len();
        proof {
            assert(offset + ENTRY_REF_SIZE <= total);
        }
        let start = crate::bytes::read_u32_of(
            buffer[offset],
            buffer[offset + 1],
            buffer[offset + 2],
            buffer[offset + 3],
        );
        let end = crate::bytes::read_u32_of(
            buffer[offset + 4],
            buffer[offset + 5],
            buffer[offset + 6],
            buffer[offset + 7],
        );
        Ok(Self { start, end })
    }

    /// Shifts index slots `[index, last_index)` one slot toward the
    /// buffer's beginning, then stores `(start, end)` in slot `index`.
    pub fn insert(
        buffer: &mut Vec<u8>,
        index: RecordIndex,
        last_index: RecordIndex,
        start: RecordOffset,
        end: RecordOffset,
    ) -> (r: Result<(), MapError>)
        requires
            index.0 <= last_index.0,
            last_index.0 < 0x1fff_ffffusize,
            ENTRY_REF_SIZE * (last_index.0 + 1) <= old(buffer)@.len(),
            start.0 <= 0xffff_ffffusize,
            end.0 <= 0xffff_ffffusize,
        ensures
            r == Ok::<(), MapError>(()),
            final(buffer)@.len() == old(buffer)@.len(),
            slot_start(final(buffer)@, index.0 as int) == start.0 as u32,
            slot_end(final(buffer)@, index.0 as int) == end.0 as u32,
            forall|j: int|
                index.0 < j <= last_index.0 ==> #[trigger] slot_start(final(buffer)@, j)
                    == slot_start(old(buffer)@, j - 1) && slot_end(final(buffer)@, j) == slot_end(
                    old(buffer)@,
                    j - 1,
                ),
            forall|j: int|
                0 <= j < index.0 ==> #[trigger] slot_start(final(buffer)@, j) == slot_start(
                    old(buffer)@,
                    j,
                ) && slot_end(final(buffer)@, j) == slot_end(old(buffer)@, j),
            forall|k: int|
                0 <= k < spec_slot_offset(old(buffer)@.len() as int, last_index.0 as int) ==> final(buffer)@[k] == old(buffer)@[k],
    {
        // Move each slot one place down, from the slot nearest the
        // records back toward the insertion point.
        let mut j: usize = last_index.0;
        while j > index.0
            invariant
                index.0 <= j <= last_index.0,
                last_index.0 < 0x1fff_ffffusize,
                buffer@.len() == old(buffer)@.len(),
                ENTRY_REF_SIZE * (last_index.0 + 1) <= buffer@.len(),
                forall|t: int|
                    j < t <= last_index.0 ==> #[trigger] slot_start(buffer@, t) == slot_start(
                        old(buffer)@,
                        t - 1,
                    ) && slot_end(buffer@, t) == slot_end(old(buffer)@, t - 1),
                forall|t: int|
                    0 <= t < j ==> #[trigger] slot_start(buffer@, t) == slot_start(old(buffer)@, t)
                        && slot_end(buffer@, t) == slot_end(old(buffer)@, t),
                slot_start(buffer@, j as int) == slot_start(old(buffer)@, j as int) && slot_end(
                    buffer@,
                    j as int,
                ) == slot_end(old(buffer)@, j as int),
                forall|k: int|
                    0 <= k < spec_slot_offset(old(buffer)@.len() as int, last_index.0 as int)
                        ==> buffer@[k] == old(buffer)@[k],
            decreases j,
        {
            let source = match EntryRef::read(buffer, RecordIndex(j - 1)) {
                Ok(e) => e,
                Err(_) => {
                    proof {
                        assert(false);
                    }
                    return Err(MapError::IndexOutOfBounds);
                },
            };
            let ghost pre = buffer@;
            match EntryRef::write(
                buffer,
                RecordIndex(j),
                RecordOffset(source.start as usize),
                RecordOffset(source.end as usize),
            ) {
                Ok(()) => {},
                Err(_) => {
                    proof {
                        assert(false);
                    }
                    return Err(MapError::IndexOutOfBounds);
                },
            }
            proof {
                let blen = old(buffer)@.len() as int;
                assert forall|t: int| j - 1 < t <= last_index.0 implies slot_start(buffer@, t)
                    == slot_start(old(buffer)@, t - 1) && slot_end(buffer@, t) == slot_end(
                    old(buffer)@,
                    t - 1,
                ) by {
                    if t == j {
                    } else {
                        lemma_slot_untouched(pre, buffer@, j as int, t);
                    }
                }
                assert forall|t: int| 0 <= t < j - 1 implies slot_start(buffer@, t) == slot_start(
                    old(buffer)@,
                    t,
                ) && slot_end(buffer@, t) == slot_end(old(buffer)@, t) by {
                    lemma_slot_untouched(pre, buffer@, j as int, t);
                }
                lemma_slot_untouched(pre, buffer@, j as int, j - 1);
            }
            j -= 1;
        }
        let ghost pre = buffer@;
        match EntryRef::write(buffer, index, start, end) {
            Ok(()) => {},
            Err(_) => {
                proof {
                    assert(false);
                }
                return Err(MapError::IndexOutOfBounds);
            },
        }
        proof {
            assert forall|t: int| index.0 < t <= last_index.0 implies slot_start(buffer@, t)
                == slot_start(old(buffer)@, t - 1) && slot_end(buffer@, t) == slot_end(
                old(buffer)@,
                t - 1,
            ) by {
                lemma_slot_untouched(pre, buffer@, index.0 as int, t);
            }
            assert forall|t: int| 0 <= t < index.0 implies slot_start(buffer@, t) == slot_start(
                old(buffer)@,
                t,
            ) && slot_end(buffer@, t) == slot_end(old(buffer)@, t) by {
                lemma_slot_untouched(pre, buffer@, index.0 as int, t);
            }
        }
        Ok(())
    }
}

/// The outcome of a binary search of the index: the slot holding the
/// key, or the slot where it would be inserted.
#[derive(Debug, Clone, Copy, PartialEq, Eq, Structural)]
pub enum SearchResult {
    Found(RecordIndex),
    NotFound(RecordIndex),
}

/// Index slot `i` points at a whole record below the free span, and
/// the record stores entry `i`.
pub open spec fn slot_wf(buf: Seq<u8>, entries: Seq<(u64, u64)>, next_off: int, i: int) -> bool {
    let s = slot_start(buf, i) as int;
    &&& ENTRY_COUNT_SIZE <= s
    &&& slot_end(buf, i) as int == s + RECORD_SIZE
    &&& s + RECORD_SIZE <= next_off
    &&& key_at(buf, s) == entries[i].0
    &&& value_at(buf, s) == entries[i].1
}

/// The sorted key/value map.  Records are append-only; overwriting a
/// key leaks the prior record.  Every mutation is logged to the map's
/// write-ahead log before the buffer changes.
pub struct LsmMap {
    pub id: CollectionId,
    pub wal: Wal,
    pub record_count: EntryCount,
    pub next_record_offset: RecordOffset,
    pub next_record_index: RecordIndex,
    pub map: Vec<u8>,
    pub next: Option<MemRegionAddress>,
    pub entries: Ghost<Seq<(u64, u64)>>,
}

impl LsmMap {
    /// Well-formedness: the split layout invariant.  The entry count
    /// is stored at the buffer's start; records end below the free
    /// span; the free span ends below the index slots (the records
    /// never reach `buffer_len - 8 * next_record_index`); the index is
    /// strictly sorted by key; and each slot points at its entry's
    /// record.
    pub open spec fn wf(&self) -> bool {
        let buf = self.map@;
        let n = self.entries@.len();
        &&& ENTRY_COUNT_SIZE <= buf.len() <= 0xffff_ffffusize
        &&& self.record_count.0 == n
        &&& self.next_record_index.0 == n
        &&& n <= 0x1fff_fffdint
        &&& entries_sorted(self.entries@)
        &&& buf.subrange(0, ENTRY_COUNT_SIZE as int) == le32(self.record_count.0)
        &&& ENTRY_COUNT_SIZE <= self.next_record_offset.0
        &&& self.next_record_offset.0 + ENTRY_REF_SIZE * n <= buf.len()
        &&& forall|i: int|
            0 <= i < n ==> #[trigger] slot_wf(buf, self.entries@, self.next_record_offset.0 as int, i)
    }

    /// Creates a map over a caller-provided buffer, owning a fresh
    /// write-ahead log for its durability hooks.
    pub fn init(io: &mut Io, id: CollectionId, buffer: Vec<u8>) -> (r: Result<LsmMap, IoError>)
        requires
            old(io).wf(),
            ENTRY_COUNT_SIZE <= buffer@.len() <= 0xffff_ffffusize,
            old(io).storage_sequence.0 < u64::MAX,
        ensures
            final(io).wf(),
            old(io).free_list_head is None ==> r == Err::<LsmMap, IoError>(IoError::StorageFull),
            (old(io).free_list_head is Some) && !crate::wal::head_lookup_full(*old(io), id) ==> r
                is Ok,
            old(io).free_list_head matches Some(a) ==> (!crate::wal::head_lookup_full(
                *old(io),
                id,
            ) ==> crate::io::header_write_effect(
                crate::io::popped(*old(io), a),
                *final(io),
                a,
                id,
                crate::CollectionType::Wal,
                crate::mem_io::MemCollectionSequence(0u64),
            )),
            r matches Ok(m) ==> {
                &&& m.wf()
                &&& m.entries@.len() == 0
                &&& m.id == id
                &&& m.wal.wf(*final(io))
                &&& m.wal.collection_id == id
                &&& m.map@.len() == buffer@.len()
                &&& m.record_count.0 == 0
                &&& m.next_record_offset.0 == ENTRY_COUNT_SIZE
                &&& m.next_record_index.0 == 0
                &&& m.wal.head_sequence.0 == 0
                &&& m.wal.tail_sequence.0 == 0
                &&& m.wal.tail_next_entry_offset == 0
            },
    {
        let wal = match Wal::new(io, id) {
            Ok(w) => w,
            Err(e) => {
                return Err(e);
            },
        };
        let record_count = EntryCount(0);
        let next_record_offset = RecordOffset(ENTRY_COUNT_SIZE);
        let next_record_index = RecordIndex(0);
        let mut map = buffer;
        record_count.write(&mut map);
        let m = LsmMap {
            id,
            wal,
            record_count,
            next_record_index,
            next_record_offset,
            map,
            next: None,
            entries: Ghost(Seq::empty()),
        };
        proof {
            assert(m.wf());
        }
        Ok(m)
    }

    /// Reads the record starting at byte `start`.
    fn read_record(&self, start: usize) -> (r: Entry)
        requires
            start + RECORD_SIZE <= self.map@.len(),
        ensures
            r.key == key_at(self.map@, start as int),
            r.value == value_at(self.map@, start as int),
    {
        let b = &self.map;
        let blen = b.len();
        proof {
            assert(start + RECORD_SIZE <= blen);
        }
        let key = crate::bytes::read_u64_of(
            b[start],
            b[start + 1],
            b[start + 2],
            b[start + 3],
            b[start + 4],
            b[start + 5],
            b[start + 6],
            b[start + 7],
        );
        let value = crate::bytes::read_u64_of(
            b[start + 8],
            b[start + 9],
            b[start + 10],
            b[start + 11],
            b[start + 12],
            b[start + 13],
            b[start + 14],
            b[start + 15],
        );
        Entry { key, value }
    }

    /// Binary search of the sorted index for a key: the slot holding
    /// it, or the slot where inserting it keeps the index sorted.
    fn find_index(&self, key: u64) -> (r: Result<SearchResult, MapError>)
        requires
            self.wf(),
        ensures
            r matches Ok(sr) && match sr {
                SearchResult::Found(i) => i.0 < self.entries@.len() && self.entries@[i.0 as int].0
                    == key,
                SearchResult::NotFound(i) => {
                    &&& i.0 <= self.entries@.len()
                    &&& forall|k: int| 0 <= k < i.0 ==> (#[trigger] self.entries@[k]).0 < key
                    &&& forall|k: int|
                        i.0 <= k < self.entries@.len() ==> (#[trigger] self.entries@[k]).0 > key
                },
            },
    {
        let n = self.record_count.0 as usize;
        let mut left: usize = 0;
        let mut right: usize = n;
        while left < right
            invariant
                self.wf(),
                n == self.entries@.len(),
                left <= right <= n,
                forall|k: int| 0 <= k < left ==> (#[trigger] self.entries@[k]).0 < key,
                forall|k: int| right <= k < n ==> (#[trigger] self.entries@[k]).0 > key,
            decreases right - left,
        {
            let mid = left + (right - left) / 2;
            let slot = match EntryRef::read(&self.map, RecordIndex(mid)) {
                Ok(s) => s,
                Err(_) => {
                    proof {
                        assert(false);
                    }
                    return Err(MapError::IndexOutOfBounds);
                },
            };
            proof {
                assert(slot_wf(
                    self.map@,
                    self.entries@,
                    self.next_record_offset.0 as int,
                    mid as int,
                ));
            }
            let entry = self.read_record(slot.start as usize);
            if key == entry.key {
                return Ok(SearchResult::Found(RecordIndex(mid)));
            } else if key < entry.key {
                right = mid;
            } else {
                left = mid + 1;
            }
        }
        Ok(SearchResult::NotFound(RecordIndex(left)))
    }

    /// Looks a key up: the value of the last insert for that key.
    pub fn get(&self, key: u64) -> (r: Result<Option<u64>, MapError>)
        requires
            self.wf(),
        ensures
            r == Ok::<Option<u64>, MapError>(map_lookup(self.entries@, key)),
    {
        let search_result = match self.find_index(key) {
            Ok(sr) => sr,
            Err(e) => {
                proof {
                    assert(false);
                }
                return Err(e);
            },
        };
        match search_result {
            SearchResult::NotFound(_) => {
                proof {
                    lemma_map_lookup_none(self.entries@, key);
                }
                Ok(None)
            },
            SearchResult::Found(index) => {
                let slot = match EntryRef::read(&self.map, index) {
                    Ok(s) => s,
                    Err(_) => {
                        proof {
                            assert(false);
                        }
                        return Err(MapError::IndexOutOfBounds);
                    },
                };
                proof {
                    assert(slot_wf(
                        self.map@,
                        self.entries@,
                        self.next_record_offset.0 as int,
                        index.0 as int,
                    ));
                }
                let entry = self.read_record(slot.start as usize);
                proof {
                    lemma_map_lookup_some(self.entries@, key, index.0 as int);
                }
                Ok(Some(entry.value))
            },
        }
    }

    /// Serializes `(key, value)` into the free span; the record's span
    /// is returned and the layout is otherwise untouched.
    fn add_entry(&mut self, entry: &Entry) -> (r: Result<(RecordOffset, RecordOffset), MapError>)
        requires
            old(self).wf(),
        ensures
            final(self).id == old(self).id,
            final(self).wal == old(self).wal,
            final(self).record_count == old(self).record_count,
            final(self).next_record_offset == old(self).next_record_offset,
            final(self).next_record_index == old(self).next_record_index,
            final(self).next == old(self).next,
            final(self).entries == old(self).entries,
            final(self).map@.len() == old(self).map@.len(),
            old(self).next_record_offset.0 + RECORD_SIZE + ENTRY_REF_SIZE * old(
                self,
            ).entries@.len() > old(self).map@.len() ==> r == Err::<
                (RecordOffset, RecordOffset),
                MapError,
            >(MapError::SerializationError) && *final(self) == *old(self),
            old(self).next_record_offset.0 + RECORD_SIZE + ENTRY_REF_SIZE * old(
                self,
            ).entries@.len() <= old(self).map@.len() ==> {
                &&& r == Ok::<(RecordOffset, RecordOffset), MapError>(
                    (
                        old(self).next_record_offset,
                        RecordOffset((old(self).next_record_offset.0 + RECORD_SIZE) as usize),
                    ),
                )
                &&& final(self).map@ == old(self).map@.subrange(
                    0,
                    old(self).next_record_offset.0 as int,
                ) + le64(entry.key) + le64(entry.value) + old(self).map@.subrange(
                    old(self).next_record_offset.0 + RECORD_SIZE,
                    old(self).map@.len() as int,
                )
            },
    {
        let start = self.next_record_offset;
        let blen = self.map.len();
        // The record must fit the free span, below the index slots.
        let slot_area = ENTRY_REF_SIZE * (self.record_count.0 as usize);
        if start.0 > blen || RECORD_SIZE > blen - start.0 || slot_area > blen - start.0
            - RECORD_SIZE {
            return Err(MapError::SerializationError);
        }
        let mut bytes: Vec<u8> = Vec::new();
        crate::bytes::push_le64(&mut bytes, entry.key);
        crate::bytes::push_le64(&mut bytes, entry.value);
        proof {
            assert(bytes@ =~= le64(entry.key) + le64(entry.value));
        }
        splice(&mut self.map, start.0, bytes.as_slice());
        let mut end = start;
        match end.increment(RECORD_SIZE) {
            Ok(()) => {},
            Err(_) => {
                proof {
                    assert(false);
                }
                return Err(MapError::SerializationError);
            },
        }
        Ok((start, end))
    }

    /// Inserts or overwrites a key: the record is first logged to the
    /// map's write-ahead log, then serialized into the free span; a
    /// present key's index slot is rewritten (the prior record leaks),
    /// an absent key's slot is spliced into the sorted index.  After
    /// every insert the records still end below the index slots.
    #[verifier::rlimit(100)]
    pub fn insert(&mut self, io: &mut Io, key: u64, value: u64) -> (r: Result<(), MapError>)
        requires
            old(self).wf(),
            old(io).wf(),
            old(self).wal.wf(*old(io)),
            old(io).storage_sequence.0 < u64::MAX,
            old(self).wal.tail_sequence.0 < u64::MAX,
        ensures
            final(io).wf(),
            final(self).wal.wf(*final(io)),
            final(self).wf(),
            final(self).id == old(self).id,
            final(self).map@.len() == old(self).map@.len(),
            final(io).storage_sequence.0 <= old(io).storage_sequence.0 + 1,
            final(self).wal.tail_sequence.0 <= old(self).wal.tail_sequence.0 + 1,
            final(io).backing.meta == old(io).backing.meta,
            final(io).backing.regions@.len() == old(io).backing.regions@.len(),
            r is Ok ==> {
                &&& final(self).next_record_offset.0 == old(self).next_record_offset.0
                    + RECORD_SIZE
                &&& map_lookup(final(self).entries@, key) == Some(value)
                &&& forall|k2: u64|
                    k2 != key ==> #[trigger] map_lookup(final(self).entries@, k2) == map_lookup(
                        old(self).entries@,
                        k2,
                    )
                &&& ((map_lookup(old(self).entries@, key) is Some) ==> final(self).entries@.len()
                    == old(self).entries@.len())
                &&& ((map_lookup(old(self).entries@, key) is None) ==> final(self).entries@.len()
                    == old(self).entries@.len() + 1)
                &&& crate::wal::wrote(
                    old(self).wal,
                    *old(io),
                    final(self).wal,
                    *final(io),
                    crate::wal::EntryView::Data {
                        collection_type: crate::CollectionType::KvMap,
                        data: le64(key) + le64(value),
                    },
                )
            },
            r is Err ==> final(self).map == old(self).map && final(self).entries == old(self).entries && final(self).record_count == old(self).record_count && final(self).next_record_offset == old(self).next_record_offset,
            (map_lookup(old(self).entries@, key) is Some) && old(self).next_record_offset.0
                + RECORD_SIZE + ENTRY_REF_SIZE * old(self).entries@.len() <= old(self).map@.len()
                && old(self).wal.tail_next_entry_offset + RECORD_SIZE + 10
                + crate::wal::MAX_NEXTREGION_RECORD <= old(io).backing.meta.region_size ==> r
                is Ok,
            (map_lookup(old(self).entries@, key) is None) && old(self).next_record_offset.0
                + RECORD_SIZE + ENTRY_REF_SIZE * (old(self).entries@.len() + 1) <= old(self).map@.len() && old(self).wal.tail_next_entry_offset + RECORD_SIZE + 10
                + crate::wal::MAX_NEXTREGION_RECORD <= old(io).backing.meta.region_size ==> r
                is Ok,
    {
        let search = match self.find_index(key) {
            Ok(sr) => sr,
            Err(e) => {
                proof {
                    assert(false);
                }
                return Err(e);
            },
        };
        let n = self.record_count.0 as usize;
        let blen = self.map.len();
        let start = self.next_record_offset.0;
        // The record, and for a new key its index slot, must fit the
        // free span.
        let fits = match search {
            SearchResult::Found(_) => start <= blen && RECORD_SIZE <= blen - start
                && ENTRY_REF_SIZE * n <= blen - start - RECORD_SIZE,
            SearchResult::NotFound(_) => start <= blen && RECORD_SIZE <= blen - start
                && ENTRY_REF_SIZE * (n + 1) <= blen - start - RECORD_SIZE,
        };
        if !fits {
            proof {
                match search {
                    SearchResult::Found(i) => {
                        lemma_map_lookup_some(self.entries@, key, i.0 as int);
                    },
                    SearchResult::NotFound(_) => {
                        lemma_map_lookup_none(self.entries@, key);
                    },
                }
            }
            return Err(MapError::SerializationError);
        }
        // Log the mutation before touching the buffer.
        let mut record_bytes: Vec<u8> = Vec::new();
        crate::bytes::push_le64(&mut record_bytes, key);
        crate::bytes::push_le64(&mut record_bytes, value);
        proof {
            assert(record_bytes@ =~= le64(key) + le64(value));
        }
        match self.wal.write(io, crate::CollectionType::KvMap, record_bytes.as_slice()) {
            Ok(()) => {},
            Err(_) => {
                return Err(MapError::SerializationError);
            },
        }
        let entry = Entry { key, value };
        let ghost map0 = self.map@;
        let ghost entries0 = self.entries@;
        match search {
            SearchResult::Found(index) => {
                let (rec_start, rec_end) = match self.add_entry(&entry) {
                    Ok(span) => span,
                    Err(_) => {
                        proof {
                            assert(false);
                        }
                        return Err(MapError::SerializationError);
                    },
                };
                let ghost map1 = self.map@;
                match EntryRef::write(&mut self.map, index, rec_start, rec_end) {
                    Ok(()) => {},
                    Err(_) => {
                        proof {
                            assert(false);
                        }
                        return Err(MapError::SerializationError);
                    },
                }
                self.next_record_offset = rec_end;
                proof {
                    self.entries@ = entries0.update(index.0 as int, (key, value));
                }
                proof {
                    let i = index.0 as int;
                    let nn = entries0.len() as int;
                    let st = start as int;
                    let buf = self.map@;
                    lemma_entries_update(entries0, i, key, value);
                    assert(buf.subrange(0, ENTRY_COUNT_SIZE as int) =~= map0.subrange(
                        0,
                        ENTRY_COUNT_SIZE as int,
                    ));
                    assert(map1.subrange(st, st + RECORD_SIZE) =~= le64(key) + le64(value));
                    assert forall|j: int| 0 <= j < nn implies #[trigger] slot_wf(
                        buf,
                        self.entries@,
                        self.next_record_offset.0 as int,
                        j,
                    ) by {
                        assert(slot_wf(map0, entries0, st, j));
                        if j == i {
                            assert(buf.subrange(st, st + RECORD_SIZE) =~= map1.subrange(
                                st,
                                st + RECORD_SIZE,
                            ));
                            lemma_record_at_written(buf, st, key, value);
                        } else {
                            lemma_slot_bytes_eq(map0, map1, j);
                            lemma_slot_untouched(map1, buf, i, j);
                            let sj = slot_start(map0, j) as int;
                            lemma_record_bytes_eq(map0, map1, sj);
                            lemma_record_bytes_eq(map1, buf, sj);
                        }
                    }
                    assert(self.wf());
                }
                Ok(())
            },
            SearchResult::NotFound(index) => {
                let (rec_start, rec_end) = match self.add_entry(&entry) {
                    Ok(span) => span,
                    Err(_) => {
                        proof {
                            assert(false);
                        }
                        return Err(MapError::SerializationError);
                    },
                };
                let ghost map1 = self.map@;
                if self.record_count.0 == 0 {
                    match EntryRef::write(&mut self.map, index, rec_start, rec_end) {
                        Ok(()) => {},
                        Err(_) => {
                            proof {
                                assert(false);
                            }
                            return Err(MapError::SerializationError);
                        },
                    }
                } else {
                    match EntryRef::insert(
                        &mut self.map,
                        index,
                        self.next_record_index,
                        rec_start,
                        rec_end,
                    ) {
                        Ok(()) => {},
                        Err(_) => {
                            proof {
                                assert(false);
                            }
                            return Err(MapError::SerializationError);
                        },
                    }
                }
                let ghost map2 = self.map@;
                self.next_record_index.increment();
                self.next_record_offset = rec_end;
                self.record_count.increment();
                let count = self.record_count;
                count.write(&mut self.map);
                proof {
                    self.entries@ = entries0.insert(index.0 as int, (key, value));
                }
                proof {
                    let i = index.0 as int;
                    let nn = entries0.len() as int;
                    let st = start as int;
                    let buf = self.map@;
                    lemma_entries_insert(entries0, i, key, value);
                    assert(map1.subrange(st, st + RECORD_SIZE) =~= le64(key) + le64(value));
                    assert forall|j: int| 0 <= j < nn + 1 implies #[trigger] slot_wf(
                        buf,
                        self.entries@,
                        self.next_record_offset.0 as int,
                        j,
                    ) by {
                        assert(forall|k: int|
                            0 <= k < spec_slot_offset(map2.len() as int, nn) ==> buf[k] == map2[k]
                                || k < ENTRY_COUNT_SIZE);
                        if j == i {
                            lemma_slot_bytes_eq(map2, buf, j);
                            assert(slot_start(map2, i) == rec_start.0 as u32);
                            assert(buf.subrange(st, st + RECORD_SIZE) =~= map1.subrange(
                                st,
                                st + RECORD_SIZE,
                            ));
                            lemma_record_at_written(buf, st, key, value);
                        } else {
                            let jold = if j < i {
                                j
                            } else {
                                j - 1
                            };
                            assert(slot_wf(map0, entries0, st, jold));
                            lemma_slot_bytes_eq(map0, map1, jold);
                            lemma_slot_bytes_eq(map2, buf, j);
                            let sj = slot_start(map0, jold) as int;
                            lemma_record_bytes_eq(map0, map1, sj);
                            lemma_record_bytes_eq(map1, map2, sj);
                            lemma_record_bytes_eq(map2, buf, sj);
                        }
                    }
                    assert(buf.subrange(0, ENTRY_COUNT_SIZE as int) == le32(self.record_count.0));
                    assert(self.entries@.len() == nn + 1);
                    assert(self.record_count.0 == nn + 1);
                    assert(self.next_record_index.0 == nn + 1);
                    assert(nn + 1 <= 0x1fff_fffdint) by {
                        assert(ENTRY_REF_SIZE * (nn + 1) <= map0.len() - st - RECORD_SIZE);
                    }
                    assert(entries_sorted(self.entries@));
                    assert(ENTRY_COUNT_SIZE <= self.next_record_offset.0);
                    assert(self.next_record_offset.0 + ENTRY_REF_SIZE * (nn + 1) <= buf.len());
                    assert(self.wf());
                }
                Ok(())
            },
        }
    }
}

/// Map layout law: after every mutation the records end below the
/// index slots — the next record offset never passes
/// `buffer_len - 8 * next_record_index`.
pub proof fn lemma_map_layout(m: &LsmMap)
    requires
        m.wf(),
    ensures
        m.next_record_offset.0 + ENTRY_REF_SIZE * m.next_record_index.0 <= m.map@.len(),
{
}

/// If no entry carries `key`, the lookup is empty.
proof fn lemma_map_lookup_none(s: Seq<(u64, u64)>, key: u64)
    requires
        forall|k: int| 0 <= k < s.len() ==> (#[trigger] s[k]).0 != key,
    ensures
        map_lookup(s, key) is None,
{
}

/// If entry `i` carries `key` in a sorted sequence, the lookup is its
/// value.
proof fn lemma_map_lookup_some(s: Seq<(u64, u64)>, key: u64, i: int)
    requires
        entries_sorted(s),
        0 <= i < s.len(),
        s[i].0 == key,
    ensures
        map_lookup(s, key) == Some(s[i].1),
{
    let j = choose|j: int| 0 <= j < s.len() && (#[trigger] s[j]).0 == key;
    if i != j {
        if i < j {
            assert(s[i].0 < s[j].0);
        } else {
            assert(s[j].0 < s[i].0);
        }
    }
}

/// Updating the entry at a found index rewrites exactly that key's
/// mapping and keeps the index sorted.
proof fn lemma_entries_update(s: Seq<(u64, u64)>, i: int, key: u64, value: u64)
    requires
        entries_sorted(s),
        0 <= i < s.len(),
        s[i].0 == key,
    ensures
        entries_sorted(s.update(i, (key, value))),
        map_lookup(s.update(i, (key, value)), key) == Some(value),
        forall|k2: u64|
            k2 != key ==> #[trigger] map_lookup(s.update(i, (key, value)), k2) == map_lookup(
                s,
                k2,
            ),
{
    let t = s.update(i, (key, value));
    assert(forall|k: int| 0 <= k < s.len() && k != i ==> t[k] == s[k]);
    assert(t[i] == (key, value));
    lemma_map_lookup_some(t, key, i);
    assert forall|k2: u64| k2 != key implies #[trigger] map_lookup(t, k2) == map_lookup(s, k2) by {
        if exists|k: int| 0 <= k < s.len() && (#[trigger] s[k]).0 == k2 {
            let k = choose|k: int| 0 <= k < s.len() && (#[trigger] s[k]).0 == k2;
            assert(k != i);
            lemma_map_lookup_some(s, k2, k);
            lemma_map_lookup_some(t, k2, k);
        } else {
            assert(forall|k: int| 0 <= k < s.len() ==> (#[trigger] s[k]).0 != k2);
            assert(forall|k: int| 0 <= k < t.len() ==> (#[trigger] t[k]).0 != k2);
            lemma_map_lookup_none(s, k2);
            lemma_map_lookup_none(t, k2);
        }
    }
}

/// Inserting at the search slot keeps the index sorted and adds
/// exactly the new key's mapping.
proof fn lemma_entries_insert(s: Seq<(u64, u64)>, i: int, key: u64, value: u64)
    requires
        entries_sorted(s),
        0 <= i <= s.len(),
        forall|k: int| 0 <= k < i ==> (#[trigger] s[k]).0 < key,
        forall|k: int| i <= k < s.len() ==> (#[trigger] s[k]).0 > key,
    ensures
        entries_sorted(s.insert(i, (key, value))),
        map_lookup(s.insert(i, (key, value)), key) == Some(value),
        forall|k2: u64|
            k2 != key ==> #[trigger] map_lookup(s.insert(i, (key, value)), k2) == map_lookup(
                s,
                k2,
            ),
{
    let t = s.insert(i, (key, value));
    assert(t.len() == s.len() + 1);
    assert(forall|k: int| 0 <= k < i ==> t[k] == s[k]);
    assert(t[i] == (key, value));
    assert(forall|k: int| i < k < t.len() ==> t[k] == s[k - 1]);
    assert forall|a: int, b: int| 0 <= a < b < t.len() implies (#[trigger] t[a]).0 < (
    #[trigger] t[b]).0 by {
        if a < i && b < i {
        } else if a < i && b == i {
        } else if a < i && b > i {
            assert(s[a].0 < key);
            assert(s[b - 1].0 > key);
        } else if a == i {
            assert(s[b - 1].0 > key);
        } else {
            assert(t[a] == s[a - 1] && t[b] == s[b - 1]);
        }
    }
    lemma_map_lookup_some(t, key, i);
    assert forall|k2: u64| k2 != key implies #[trigger] map_lookup(t, k2) == map_lookup(s, k2) by {
        if exists|k: int| 0 <= k < s.len() && (#[trigger] s[k]).0 == k2 {
            let k = choose|k: int| 0 <= k < s.len() && (#[trigger] s[k]).0 == k2;
            if k < i {
                assert(t[k].0 == k2);
                lemma_map_lookup_some(s, k2, k);
                lemma_map_lookup_some(t, k2, k);
            } else {
                assert(t[k + 1].0 == k2);
                lemma_map_lookup_some(s, k2, k);
                lemma_map_lookup_some(t, k2, k + 1);
            }
        } else {
            assert(forall|k: int| 0 <= k < s.len() ==> (#[trigger] s[k]).0 != k2);
            assert forall|k: int| 0 <= k < t.len() implies (#[trigger] t[k]).0 != k2 by {
                if k < i {
                    assert(t[k] == s[k]);
                } else if k == i {
                } else {
                    assert(t[k] == s[k - 1]);
                }
            }
            lemma_map_lookup_none(s, k2);
            lemma_map_lookup_none(t, k2);
        }
    }
}

/// A record's key and value depend only on its sixteen bytes.
proof fn lemma_record_bytes_eq(pre: Seq<u8>, post: Seq<u8>, s: int)
    requires
        0 <= s,
        s + RECORD_SIZE <= pre.len(),
        pre.len() == post.len(),
        forall|k: int| s <= k < s + RECORD_SIZE ==> post[k] == pre[k],
    ensures
        key_at(post, s) == key_at(pre, s),
        value_at(post, s) == value_at(pre, s),
{
}

/// A slot's pointers depend only on its eight bytes.
proof fn lemma_slot_bytes_eq(pre: Seq<u8>, post: Seq<u8>, t: int)
    requires
        pre.len() == post.len(),
        0 <= t,
        ENTRY_REF_SIZE * (t + 1) <= pre.len(),
        forall|k: int|
            spec_slot_offset(pre.len() as int, t) <= k < spec_slot_offset(pre.len() as int, t)
                + ENTRY_REF_SIZE ==> post[k] == pre[k],
    ensures
        slot_start(post, t) == slot_start(pre, t),
        slot_end(post, t) == slot_end(pre, t),
{
}

/// A record freshly serialized at `s` reads back as its key and
/// value.
proof fn lemma_record_at_written(buf: Seq<u8>, s: int, key: u64, value: u64)
    requires
        0 <= s,
        s + RECORD_SIZE <= buf.len(),
        buf.subrange(s, s + RECORD_SIZE) == le64(key) + le64(value),
    ensures
        key_at(buf, s) == key,
        value_at(buf, s) == value,
{
    let w = buf.subrange(s, s + RECORD_SIZE);
    assert(forall|k: int| 0 <= k < RECORD_SIZE ==> buf[s + k] == w[k]);
    crate::bytes::lemma_u64_of_le64(key);
    crate::bytes::lemma_u64_of_le64(value);
    assert(w[0] == le64(key)[0] && w[1] == le64(key)[1] && w[2] == le64(key)[2] && w[3] == le64(
        key,
    )[3] && w[4] == le64(key)[4] && w[5] == le64(key)[5] && w[6] == le64(key)[6] && w[7] == le64(
        key,
    )[7]);
    assert(w[8] == le64(value)[0] && w[9] == le64(value)[1] && w[10] == le64(value)[2] && w[11]
        == le64(value)[3] && w[12] == le64(value)[4] && w[13] == le64(value)[5] && w[14] == le64(
        value,
    )[6] && w[15] == le64(value)[7]);
}

/// A write of slot `w` leaves every other slot's bytes, and so its
/// pointers, unchanged.
proof fn lemma_slot_untouched(pre: Seq<u8>, post: Seq<u8>, w: int, t: int)
    requires
        pre.len() == post.len(),
        0 <= t,
        0 <= w,
        t != w,
        ENTRY_REF_SIZE * (t + 1) <= pre.len(),
        forall|k: int| 0 <= k < spec_slot_offset(pre.len() as int, w) ==> post[k] == pre[k],
        forall|k: int|
            spec_slot_offset(pre.len() as int, w) + ENTRY_REF_SIZE <= k < pre.len() ==> post[k]
                == pre[k],
    ensures
        slot_start(post, t) == slot_start(pre, t),
        slot_end(post, t) == slot_end(pre, t),
{
    let ow = spec_slot_offset(pre.len() as int, w);
    let ot = spec_slot_offset(pre.len() as int, t);
    if t > w {
        assert(ot + ENTRY_REF_SIZE <= ow);
    } else {
        assert(ow + ENTRY_REF_SIZE <= ot);
    }
}

} // verus!
