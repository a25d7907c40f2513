//! An append-only queue of pointer records kept in a memory mapping.
//!
//! Records are stored back to back on 16-byte boundaries. An index vector
//! remembers where each one lies, so a record is found in constant time.

use crate::error::ErrorKind;
use crate::pointer_scan::types::lemma_pointer_data_round_trip;
use crate::pointer_scan::types::PointerData;
use memmap2::MmapMut;
use vstd::prelude::*;

verus! {

/// The writable mapping of the `memmap2` crate, taken as it is: nothing of
/// its inside is known here.
#[verifier::external_type_specification]
#[verifier::external_body]
pub struct ExMmapMut(memmap2::MmapMut);

/// The bytes of a mapping, from its first to its last.
pub uninterp spec fn mapped_bytes(map: MmapMut) -> Seq<u8>;

/// `bytes` with the part from `offset` on replaced by `data`.
pub open spec fn overwrite(bytes: Seq<u8>, offset: int, data: Seq<u8>) -> Seq<u8> {
    bytes.subrange(0, offset) + data + bytes.subrange(offset + data.len(), bytes.len() as int)
}

/// Calls `MmapMut::map_anon`. Trusted: a mapping that was granted is exactly
/// `length` bytes long. Nothing is promised about whether one is granted.
#[verifier::external_body]
fn map_anonymous(length: usize) -> (r: Option<MmapMut>)
    ensures
        r matches Some(m) ==> mapped_bytes(m).len() == length,
{
    MmapMut::map_anon(length).ok()
}

/// Length of the byte slice that `MmapMut` dereferences to. Trusted: it is
/// the number of mapped bytes.
#[verifier::external_body]
fn map_len(map: &MmapMut) -> (r: usize)
    ensures
        r == mapped_bytes(*map).len(),
{
    map.len()
}

/// Copies `data` into the slice that `MmapMut` dereferences to mutably.
/// Trusted: the bytes from `offset` on take the values of `data`, and every
/// other byte of the mapping keeps its value.
#[verifier::external_body]
fn map_write(map: &mut MmapMut, offset: usize, data: &[u8])
    requires
        offset + data@.len() <= mapped_bytes(*old(map)).len(),
    ensures
        mapped_bytes(*final(map)) == overwrite(mapped_bytes(*old(map)), offset as int, data@),
{
    map[offset..offset + data.len()].copy_from_slice(data);
}

/// Copies `len` bytes out of the slice that `MmapMut` dereferences to.
/// Trusted: they are the mapped bytes from `offset` on.
#[verifier::external_body]
fn map_read(map: &MmapMut, offset: usize, len: usize) -> (r: Vec<u8>)
    requires
        offset + len <= mapped_bytes(*map).len(),
    ensures
        r@ == mapped_bytes(*map).subrange(offset as int, offset + len),
{
    map[offset..offset + len].to_vec()
}

/// Calls `MmapMut::flush` and reports whether it succeeded. The mapped bytes
/// are not touched.
#[verifier::external_body]
fn map_flush(map: &MmapMut) -> (r: bool) {
    map.flush().is_ok()
}

/// A record that was pushed is the last record of the queue: what `push`
/// makes of the records, `get` at the last index reads back.
pub proof fn lemma_push_then_get_last(records: Seq<PointerData>, item: PointerData)
    ensures
        records.push(item).len() == records.len() + 1,
        records.push(item)[records.push(item).len() - 1] == item,
        forall|i: int| 0 <= i < records.len() ==> records.push(item)[i] == records[i],
{
}

/// Boundary that every record starts on.
pub const ALIGNMENT: usize = 16;

/// Size of the mapping that a new queue asks for: 128 MiB.
pub const INITIAL_SIZE: usize = 134_217_728;

/// What the mapping grows by whenever it is full: 64 MiB.
pub const GROW_SIZE: usize = 67_108_864;

/// Bytes to skip from `offset` to reach the next record boundary.
pub open spec fn spec_padding(offset: int) -> int {
    (ALIGNMENT - offset % (ALIGNMENT as int)) % (ALIGNMENT as int)
}

/// Bytes that are missing where `needed` are asked for and `free` are left.
pub open spec fn spec_shortfall(needed: int, free: int) -> nat {
    if free < needed {
        (needed - free) as nat
    } else {
        0
    }
}

/// An append-only queue of [`PointerData`] with random access.
pub struct MmapQueue {
    map: MmapMut,
    capacity: usize,
    count: usize,
    write_offset: usize,
    indices: Vec<(usize, usize)>,
}

impl View for MmapQueue {
    type V = Seq<PointerData>;

    /// The records, in the order in which they were pushed.
    closed spec fn view(&self) -> Seq<PointerData> {
        Seq::new(self.count as nat, |i: int| self.record_at(i))
    }
}

impl MmapQueue {
    /// The record that the bytes under index entry `i` decode to.
    closed spec fn record_at(self, i: int) -> PointerData {
        PointerData::spec_from_bytes(
            mapped_bytes(self.map).subrange(
                self.indices@[i].0 as int,
                self.indices@[i].0 + self.indices@[i].1,
            ),
        ).unwrap()
    }

    /// What holds of every queue between calls: the bookkeeping agrees with
    /// the mapping; the records lie back to back from the mapping's first
    /// byte on, sixteen bytes each; and the write offset is where the last
    /// one ends.
    pub closed spec fn well_formed(self) -> bool {
        &&& self.capacity == mapped_bytes(self.map).len()
        &&& self.count == self.indices@.len()
        &&& self.write_offset == 16 * self.count
        &&& self.write_offset <= self.capacity
        &&& forall|i: int|
            0 <= i < self.indices@.len() ==> {
                &&& (#[trigger] self.indices@[i]).0 == 16 * i
                &&& self.indices@[i].1 == 16
            }
    }

    /// The capacity is that of a queue that was made by [`Self::new`] and
    /// grew by itself: the initial size and a whole number of growth steps.
    pub open spec fn spec_capacity_in_steps(self) -> bool {
        exists|steps: nat| self.spec_capacity() == INITIAL_SIZE + #[trigger] (steps * GROW_SIZE)
    }

    /// The bytes of the mapping.
    pub closed spec fn spec_mapped(self) -> Seq<u8> {
        mapped_bytes(self.map)
    }

    /// Where in the mapping record `i` starts.
    pub closed spec fn spec_offset_of(self, i: int) -> int {
        self.indices@[i].0 as int
    }

    /// Where a well-formed queue writes: the write offset is sixteen times
    /// the number of records, and lies inside the mapping.
    pub proof fn lemma_write_offset(self)
        requires
            self.well_formed(),
        ensures
            self.spec_write_offset() == 16 * self@.len(),
            self.spec_write_offset() <= self.spec_capacity(),
            self.spec_capacity() == self.spec_mapped().len(),
            spec_padding(self.spec_write_offset() as int) == 0,
            self.spec_has_room() == (16 * self@.len() + 16 <= self.spec_capacity()),
    {
    }

    /// How the records lie in the mapping: record `i` starts at byte
    /// `16 * i`, as its sixteen stored bytes, below the write offset.
    pub proof fn lemma_record_layout(self, i: int)
        requires
            self.well_formed(),
            0 <= i < self@.len(),
        ensures
            self.spec_offset_of(i) == 16 * i,
            self.spec_offset_of(i) + 16 <= self.spec_write_offset() <= self.spec_capacity(),
            self.spec_capacity() == self.spec_mapped().len(),
            self.spec_mapped().subrange(self.spec_offset_of(i), self.spec_offset_of(i) + 16)
                == self@[i].spec_to_bytes(),
    {
        vstd::bytes::lemma_auto_spec_u64_to_from_le_bytes();
        let offset = self.indices@[i].0 as int;
        let stored = mapped_bytes(self.map).subrange(offset, offset + 16);
        assert(self.indices@[i].1 == 16);
        assert(self@[i] == self.record_at(i));
        assert(self@[i].spec_to_bytes() =~= stored) by {
            assert(stored.subrange(0, 8) + stored.subrange(8, 16) =~= stored);
        }
    }

    /// Size of the mapping in bytes.
    pub closed spec fn spec_capacity(self) -> nat {
        self.capacity as nat
    }

    /// Where the next record's padding starts.
    pub closed spec fn spec_write_offset(self) -> nat {
        self.write_offset as nat
    }

    /// The mapping has room for one more record without growing.
    pub open spec fn spec_has_room(self) -> bool {
        self.spec_write_offset() + spec_padding(self.spec_write_offset() as int) + 16
            <= self.spec_capacity()
    }

    /// A queue over a fresh anonymous mapping of [`INITIAL_SIZE`] bytes.
    /// Fails with `IoFailure` if the system grants no mapping.
    pub fn new() -> (r: Result<MmapQueue, ErrorKind>)
        ensures
            match r {
                Ok(q) => q.well_formed() && q@ == Seq::<PointerData>::empty()
                    && q.spec_capacity() == INITIAL_SIZE && q.spec_write_offset() == 0
                    && q.spec_capacity_in_steps(),
                Err(e) => e == ErrorKind::IoFailure,
            },
    {
        match map_anonymous(INITIAL_SIZE) {
            Some(map) => {
                let queue = Self::from_mapping(map);
                assert(queue.spec_capacity() == INITIAL_SIZE + 0nat * GROW_SIZE);
                Ok(queue)
            },
            None => Err(ErrorKind::IoFailure),
        }
    }

    /// An empty queue over a mapping that the caller made. The queue writes
    /// from the mapping's first byte on, whatever it held.
    pub fn from_mapping(map: MmapMut) -> (r: MmapQueue)
        ensures
            r.well_formed(),
            r@ == Seq::<PointerData>::empty(),
            r.spec_capacity() == mapped_bytes(map).len(),
            r.spec_write_offset() == 0,
    {
        let capacity = map_len(&map);
        let q = MmapQueue { map, capacity, count: 0, write_offset: 0, indices: Vec::new() };
        assert(q@ =~= Seq::<PointerData>::empty());
        q
    }

    /// Number of records in the queue.
    pub fn len(&self) -> (r: usize)
        requires
            self.well_formed(),
        ensures
            r == self@.len(),
    {
        self.count
    }

    /// Whether the queue holds no record.
    pub fn is_empty(&self) -> (r: bool)
        requires
            self.well_formed(),
        ensures
            r == (self@.len() == 0),
    {
        self.count == 0
    }

    /// Size of the mapping in bytes.
    pub fn capacity(&self) -> (r: usize)
        ensures
            r == self.spec_capacity(),
    {
        self.capacity
    }

    /// The record at `index`, or `None` past the end.
    pub fn get(&self, index: usize) -> (r: Option<PointerData>)
        requires
            self.well_formed(),
        ensures
            r == if index < self@.len() {
                Some(self@[index as int])
            } else {
                None
            },
    {
        if index >= self.count {
            return None;
        }
        let (offset, length) = self.indices[index];
        let bytes = map_read(&self.map, offset, length);
        PointerData::from_bytes(bytes.as_slice())
    }

    /// The record at `index` as an owned value; the same as [`Self::get`].
    pub fn get_deserialized(&self, index: usize) -> (r: Option<PointerData>)
        requires
            self.well_formed(),
        ensures
            r == if index < self@.len() {
                Some(self@[index as int])
            } else {
                None
            },
    {
        self.get(index)
    }

    /// Forgets every record. The mapping keeps its size.
    pub fn clear(&mut self)
        requires
            old(self).well_formed(),
        ensures
            final(self).well_formed(),
            final(self)@ == Seq::<PointerData>::empty(),
            final(self).spec_capacity() == old(self).spec_capacity(),
            final(self).spec_write_offset() == 0,
    {
        self.count = 0;
        self.write_offset = 0;
        self.indices.clear();
        assert(self@ =~= Seq::<PointerData>::empty());
    }

    /// Whether the mapping has room for one more record without growing.
    pub fn has_room(&self) -> (r: bool)
        requires
            self.well_formed(),
        ensures
            r == self.spec_has_room(),
    {
        let padding = (ALIGNMENT - (self.write_offset % ALIGNMENT)) % ALIGNMENT;
        self.capacity - self.write_offset >= padding + 16
    }

    /// Moves the queue to a mapping that the caller made: the records are
    /// copied over, and the old mapping is let go. Fails with
    /// `InvalidArgument`, and changes nothing, where the new mapping is too
    /// small to hold what has been written.
    pub fn replace_mapping(&mut self, map: MmapMut) -> (r: Result<(), ErrorKind>)
        requires
            old(self).well_formed(),
        ensures
            final(self).well_formed(),
            final(self)@ == old(self)@,
            final(self).spec_write_offset() == old(self).spec_write_offset(),
            match r {
                Ok(()) => final(self).spec_capacity() == mapped_bytes(map).len(),
                Err(e) => e == ErrorKind::InvalidArgument && final(self).spec_capacity() == old(
                    self,
                ).spec_capacity(),
            },
            r is Ok <==> old(self).spec_write_offset() <= mapped_bytes(map).len(),
    {
        let mut new_map = map;
        let new_size = map_len(&new_map);
        if new_size < self.write_offset {
            return Err(ErrorKind::InvalidArgument);
        }
        let used = map_read(&self.map, 0, self.write_offset);
        map_write(&mut new_map, 0, used.as_slice());
        proof {
            let before = mapped_bytes(self.map);
            let after = mapped_bytes(new_map);
            assert forall|i: int| 0 <= i < self.indices@.len() implies after.subrange(
                self.indices@[i].0 as int,
                self.indices@[i].0 + self.indices@[i].1,
            ) == before.subrange(
                self.indices@[i].0 as int,
                self.indices@[i].0 + self.indices@[i].1,
            ) by {
                assert(after.subrange(
                    self.indices@[i].0 as int,
                    self.indices@[i].0 + self.indices@[i].1,
                ) =~= before.subrange(
                    self.indices@[i].0 as int,
                    self.indices@[i].0 + self.indices@[i].1,
                ));
            }
        }
        self.map = new_map;
        self.capacity = new_size;
        assert(self@ =~= old(self)@);
        Ok(())
    }

    /// Moves the records to a fresh anonymous mapping that is
    /// [`GROW_SIZE`] bytes larger. On failure the queue is as it was.
    fn grow_old(&mut self) -> (r: Result<(), ErrorKind>)
        requires
            old(self).well_formed(),
        ensures
            final(self).well_formed(),
            final(self)@ == old(self)@,
            final(self).spec_write_offset() == old(self).spec_write_offset(),
            match r {
                Ok(()) => final(self).spec_capacity() == old(self).spec_capacity() + GROW_SIZE,
                Err(e) => e == ErrorKind::IoFailure && final(self).spec_capacity() == old(
                    self,
                ).spec_capacity(),
            },
    {
        let new_size = match self.capacity.checked_add(GROW_SIZE) {
            Some(n) => n,
            None => {
                return Err(ErrorKind::IoFailure);
            },
        };
        match map_anonymous(new_size) {
            Some(map) => {
                match self.replace_mapping(map) {
                    Ok(()) => Ok(()),
                    Err(_) => Err(ErrorKind::IoFailure),
                }
            },
            None => Err(ErrorKind::IoFailure),
        }
    }

    /// Appends a record, growing the mapping by [`GROW_SIZE`] bytes first
    /// where it is full. Fails with `IoFailure`, and leaves the queue as it
    /// was, only if the mapping had to grow and the system granted no larger
    /// one.
    pub fn push(&mut self, item: &PointerData) -> (r: Result<(), ErrorKind>)
        requires
            old(self).well_formed(),
        ensures
            final(self).well_formed(),
            match r {
                Ok(()) => {
                    &&& final(self)@ == old(self)@.push(*item)
                    &&& final(self).spec_write_offset() == old(self).spec_write_offset() + 16
                    &&& final(self).spec_offset_of(old(self)@.len() as int) == old(
                        self,
                    ).spec_write_offset()
                },
                Err(e) => {
                    &&& e == ErrorKind::IoFailure
                    &&& final(self)@ == old(self)@
                    &&& final(self).spec_write_offset() == old(self).spec_write_offset()
                },
            },
            final(self).spec_capacity() == old(self).spec_capacity() + if old(
                self,
            ).spec_has_room() || r is Err {
                0nat
            } else {
                GROW_SIZE as nat
            },
            old(self).spec_has_room() ==> r is Ok,
            old(self).spec_capacity_in_steps() ==> final(self).spec_capacity_in_steps(),
    {
        let bytes = item.to_bytes();
        let size = bytes.len();
        let padding = (ALIGNMENT - (self.write_offset % ALIGNMENT)) % ALIGNMENT;
        let required_space = size + padding;

        while self.capacity - self.write_offset < required_space
            invariant
                self.well_formed(),
                self@ == old(self)@,
                self.write_offset == old(self).write_offset,
                self.capacity == old(self).capacity || self.capacity == old(self).capacity
                    + GROW_SIZE,
                self.capacity == old(self).capacity ==> old(self).spec_has_room() == (
                self.capacity - self.write_offset >= required_space),
                self.capacity != old(self).capacity ==> !old(self).spec_has_room()
                    && self.capacity - self.write_offset >= required_space,
                required_space == 16 + spec_padding(self.write_offset as int),
                required_space < 32,
            decreases spec_shortfall(required_space as int, self.capacity - self.write_offset),
        {
            match self.grow_old() {
                Ok(()) => {},
                Err(e) => {
                    return Err(e);
                },
            }
        }

        let data_offset = self.write_offset + padding;
        let ghost before = mapped_bytes(self.map);
        let ghost old_view = self@;
        map_write(&mut self.map, data_offset, bytes.as_slice());
        self.indices.push((data_offset, size));
        self.write_offset = self.write_offset + required_space;
        self.count = self.indices.len();
        proof {
            let after = mapped_bytes(self.map);
            lemma_pointer_data_round_trip(*item);
            assert(after.subrange(data_offset as int, data_offset + 16) =~= bytes@);
            assert forall|i: int| 0 <= i < old_view.len() implies #[trigger] self.record_at(i)
                == old_view[i] by {
                assert(after.subrange(
                    self.indices@[i].0 as int,
                    self.indices@[i].0 + self.indices@[i].1,
                ) =~= before.subrange(
                    self.indices@[i].0 as int,
                    self.indices@[i].0 + self.indices@[i].1,
                ));
            }
            assert(self@ =~= old(self)@.push(*item));
            if old(self).spec_capacity_in_steps() && self.capacity != old(self).capacity {
                let steps = choose|steps: nat|
                    old(self).spec_capacity() == INITIAL_SIZE + #[trigger] (steps * GROW_SIZE);
                let more = steps + 1;
                assert(more * GROW_SIZE == steps * GROW_SIZE + GROW_SIZE) by (nonlinear_arith)
                    requires
                        more == steps + 1,
                ;
                assert(self.spec_capacity() == INITIAL_SIZE + more * GROW_SIZE);
            }
        }
        Ok(())
    }

    /// Appends the records of `items` in order, stopping at the first that
    /// cannot be stored. On failure the records before that one are in the
    /// queue.
    pub fn push_batch(&mut self, items: &[PointerData]) -> (r: Result<(), ErrorKind>)
        requires
            old(self).well_formed(),
        ensures
            final(self).well_formed(),
            match r {
                Ok(()) => final(self)@ == old(self)@ + items@,
                Err(e) => e == ErrorKind::IoFailure && exists|k: int|
                    0 <= k < items@.len() && final(self)@ == old(self)@ + #[trigger] items@.subrange(
                        0,
                        k,
                    ),
            },
            old(self).spec_write_offset() + spec_padding(old(self).spec_write_offset() as int) + 16
                * items@.len() <= old(self).spec_capacity() ==> r is Ok,
            old(self).spec_capacity_in_steps() ==> final(self).spec_capacity_in_steps(),
    {
        let ghost fits = old(self).spec_write_offset() + spec_padding(
            old(self).spec_write_offset() as int,
        ) + 16 * items@.len() <= old(self).spec_capacity();
        let mut i: usize = 0;
        assert(items@.subrange(0, 0) =~= Seq::<PointerData>::empty());
        assert(old(self)@ + Seq::<PointerData>::empty() =~= old(self)@);
        while i < items.len()
            invariant
                0 <= i <= items@.len(),
                self.well_formed(),
                old(self).spec_capacity_in_steps() ==> self.spec_capacity_in_steps(),
                self@ == old(self)@ + items@.subrange(0, i as int),
                fits == (old(self).spec_write_offset() + spec_padding(
                    old(self).spec_write_offset() as int,
                ) + 16 * items@.len() <= old(self).spec_capacity()),
                fits ==> self.spec_capacity() == old(self).spec_capacity(),
                fits && i == 0 ==> self.spec_write_offset() == old(self).spec_write_offset(),
                fits && i > 0 ==> self.spec_write_offset() == old(self).spec_write_offset()
                    + spec_padding(old(self).spec_write_offset() as int) + 16 * i
                    && self.spec_write_offset() % 16 == 0,
            decreases items@.len() - i,
        {
            let ghost before = self@;
            match self.push(&items[i]) {
                Ok(()) => {},
                Err(e) => {
                    return Err(e);
                },
            }
            assert(items@.subrange(0, i + 1) =~= items@.subrange(0, i as int).push(items@[i as int]));
            assert(before.push(items@[i as int]) =~= old(self)@ + items@.subrange(0, i + 1));
            i = i + 1;
        }
        assert(items@.subrange(0, i as int) =~= items@);
        Ok(())
    }

    /// Asks the system to write the mapping out. `IoFailure` if it refuses.
    /// The records are the same either way.
    pub fn flush(&self) -> (r: Result<(), ErrorKind>)
        ensures
            r matches Err(e) ==> e == ErrorKind::IoFailure,
    {
        if map_flush(&self.map) {
            Ok(())
        } else {
            Err(ErrorKind::IoFailure)
        }
    }
}

} // verus!
