//! Slotted pages: variable-length records inside a fixed-size byte block.
//!
//! A block starts with an eight-byte header (record count, start of the
//! record area, padding).  After it comes the body: an array of four-byte
//! pointers (offset and length, relative to the body) that grows from the
//! front, while the records themselves are packed from the back.  The
//! space in between is free.

use vstd::prelude::*;
use vstd::bytes::{
    lemma_auto_spec_u16_to_from_le_bytes, spec_u16_from_le_bytes, spec_u16_to_le_bytes,
};
use crate::bytes::{get_u16, put_range, put_u16};

verus! {

/// Bytes taken by the header in front of the body.
pub const HEADER_SIZE: usize = 8;

/// Bytes taken by one slot pointer.
pub const POINTER_SIZE: usize = 4;

/// The largest block a slotted page can manage: offsets are 16 bits wide.
pub const MAX_BLOCK_SIZE: usize = 0xffff;

/// Number of records, as written in the header of block `b`.
pub open spec fn num_slots_of(b: Seq<u8>) -> int {
    spec_u16_from_le_bytes(b.subrange(0, 2)) as int
}

/// Where the record area starts inside the body of block `b`.
pub open spec fn free_offset_of(b: Seq<u8>) -> int {
    spec_u16_from_le_bytes(b.subrange(2, 4)) as int
}

/// Bytes available to pointers and records in block `b`.
pub open spec fn capacity_of(b: Seq<u8>) -> int {
    b.len() - 8
}

/// Offset, inside the body, of record `i`.
pub open spec fn slot_offset(b: Seq<u8>, i: int) -> int {
    spec_u16_from_le_bytes(b.subrange(8 + 4 * i, 10 + 4 * i)) as int
}

/// Length of record `i`.
pub open spec fn slot_len(b: Seq<u8>, i: int) -> int {
    spec_u16_from_le_bytes(b.subrange(10 + 4 * i, 12 + 4 * i)) as int
}

/// The bytes of record `i`.
pub open spec fn slot_data(b: Seq<u8>, i: int) -> Seq<u8> {
    b.subrange(8 + slot_offset(b, i), 8 + slot_offset(b, i) + slot_len(b, i))
}

/// Sum of the lengths of the first `n` records.
pub open spec fn total_len(b: Seq<u8>, n: int) -> int
    decreases n,
{
    if n <= 0 {
        0
    } else {
        total_len(b, n - 1) + slot_len(b, n - 1)
    }
}

/// Block `b` is a consistent slotted page: the pointer array ends before
/// the record area starts, every record lies inside the record area, and
/// the record area is exactly as large as the records it holds.
pub open spec fn wf(b: Seq<u8>) -> bool {
    &&& 8 <= b.len() <= 0xffff
    &&& 4 * num_slots_of(b) <= free_offset_of(b) <= capacity_of(b)
    &&& forall|i: int|
        0 <= i < num_slots_of(b) ==> free_offset_of(b) <= #[trigger] slot_offset(b, i)
            && slot_offset(b, i) + slot_len(b, i) <= capacity_of(b)
    &&& total_len(b, num_slots_of(b)) + free_offset_of(b) == capacity_of(b)
}

/// The records of block `b`, in slot order.
pub open spec fn slots_of(b: Seq<u8>) -> Seq<Seq<u8>> {
    Seq::new(num_slots_of(b) as nat, |i: int| slot_data(b, i))
}

/// Bytes neither used by pointers nor by records.
pub open spec fn free_space_of(b: Seq<u8>) -> int {
    free_offset_of(b) - 4 * num_slots_of(b)
}

/// Bytes that `n` records of the listed sizes occupy, pointers included.
pub open spec fn used_by(records: Seq<Seq<u8>>) -> int
    decreases records.len(),
{
    if records.len() == 0 {
        0
    } else {
        used_by(records.drop_last()) + 4 + records.last().len()
    }
}

/// The byte strings held by a vector of records.
pub open spec fn views(records: Seq<Vec<u8>>) -> Seq<Seq<u8>> {
    records.map_values(|r: Vec<u8>| r@)
}

/// `used_by` grows with every record added.
pub proof fn lemma_used_by_monotone(records: Seq<Seq<u8>>, n: int)
    requires
        0 <= n <= records.len(),
    ensures
        0 <= used_by(records.subrange(0, n)) <= used_by(records),
    decreases records.len(),
{
    if n == records.len() {
        assert(records.subrange(0, n) =~= records);
        if n > 0 {
            lemma_used_by_monotone(records.drop_last(), n - 1);
        }
    } else {
        assert(records.drop_last().subrange(0, n) =~= records.subrange(0, n));
        lemma_used_by_monotone(records.drop_last(), n);
    }
}

/// `used_by` of a sequence cut in two is the sum over the parts.
pub proof fn lemma_used_by_split(records: Seq<Seq<u8>>, n: int)
    requires
        0 <= n <= records.len(),
    ensures
        used_by(records) == used_by(records.subrange(0, n)) + used_by(
            records.subrange(n, records.len() as int),
        ),
    decreases records.len(),
{
    let tail = records.subrange(n, records.len() as int);
    if n == records.len() {
        assert(records.subrange(0, n) =~= records);
    } else {
        assert(records.drop_last().subrange(0, n) =~= records.subrange(0, n));
        assert(records.drop_last().subrange(n, records.len() - 1) =~= tail.drop_last());
        lemma_used_by_split(records.drop_last(), n);
    }
}

/// `used_by` after one more record was put in.
pub proof fn lemma_used_by_insert(records: Seq<Seq<u8>>, i: int, data: Seq<u8>)
    requires
        0 <= i <= records.len(),
    ensures
        used_by(records.insert(i, data)) == used_by(records) + 4 + data.len(),
    decreases records.len(),
{
    let out = records.insert(i, data);
    if i == records.len() {
        assert(out.drop_last() =~= records);
    } else {
        assert(out.drop_last() =~= records.drop_last().insert(i, data));
        lemma_used_by_insert(records.drop_last(), i, data);
    }
}

/// A block of bytes laid out as a slotted page.  Its view is the block.
pub struct Slotted {
    bytes: Vec<u8>,
}

impl View for Slotted {
    type V = Seq<u8>;

    closed spec fn view(&self) -> Seq<u8> {
        self.bytes@
    }
}

proof fn lemma_total_len_same(a: Seq<u8>, b: Seq<u8>, n: int)
    requires
        forall|i: int| 0 <= i < n ==> slot_len(a, i) == slot_len(b, i),
    ensures
        total_len(a, n) == total_len(b, n),
    decreases n,
{
    if n > 0 {
        lemma_total_len_same(a, b, n - 1);
    }
}

proof fn lemma_total_len_insert(a: Seq<u8>, b: Seq<u8>, n: int, index: int, len: int)
    requires
        0 <= index <= n,
        forall|i: int| 0 <= i < index ==> slot_len(b, i) == slot_len(a, i),
        slot_len(b, index) == len,
        forall|i: int| index < i <= n ==> slot_len(b, i) == slot_len(a, i - 1),
    ensures
        total_len(b, n + 1) == total_len(a, n) + len,
    decreases n,
{
    if index == n {
        lemma_total_len_same(a, b, n);
    } else {
        lemma_total_len_insert(a, b, n - 1, index, len);
    }
}

/// The records of a consistent page, with their pointers, fit its body:
/// `used_by(slots_of(b)) + free_space_of(b) == capacity_of(b)`.
pub proof fn lemma_used_by_slots(b: Seq<u8>)
    requires
        wf(b),
    ensures
        used_by(slots_of(b)) + free_space_of(b) == capacity_of(b),
{
    lemma_used_prefix(b, num_slots_of(b));
    assert(slots_of(b).subrange(0, num_slots_of(b)) =~= slots_of(b));
}

proof fn lemma_used_prefix(b: Seq<u8>, n: int)
    requires
        wf(b),
        0 <= n <= num_slots_of(b),
    ensures
        used_by(slots_of(b).subrange(0, n)) == total_len(b, n) + 4 * n,
    decreases n,
{
    let s = slots_of(b).subrange(0, n);
    if n > 0 {
        lemma_used_prefix(b, n - 1);
        assert(s.drop_last() =~= slots_of(b).subrange(0, n - 1));
        assert(s.last() == slot_data(b, n - 1));
        assert(slot_offset(b, n - 1) + slot_len(b, n - 1) <= capacity_of(b));
    }
}

impl Slotted {
    /// Takes a copy of `bytes` to work on.
    pub fn new(bytes: &[u8]) -> (r: Slotted)
        ensures
            r@ == bytes@,
    {
        Slotted { bytes: vstd::slice::slice_to_vec(bytes) }
    }

    /// The block as it stands.
    pub fn as_bytes(&self) -> (r: &[u8])
        ensures
            r@ == self@,
    {
        self.bytes.as_slice()
    }

    /// Bytes available to pointers and records.
    pub fn capacity(&self) -> (r: usize)
        requires
            self@.len() >= 8,
        ensures
            r == capacity_of(self@),
    {
        self.bytes.len() - HEADER_SIZE
    }

    /// Number of records.
    pub fn num_slots(&self) -> (r: usize)
        requires
            self@.len() >= 8,
        ensures
            r == num_slots_of(self@),
    {
        get_u16(self.bytes.as_slice(), 0) as usize
    }

    /// Bytes neither used by pointers nor by records.
    pub fn free_space(&self) -> (r: usize)
        requires
            wf(self@),
        ensures
            r == free_space_of(self@),
    {
        let offset = get_u16(self.bytes.as_slice(), 2) as usize;
        let count = get_u16(self.bytes.as_slice(), 0) as usize;
        offset - POINTER_SIZE * count
    }

    /// Makes the page empty: no records, the whole body free.
    pub fn initialize(&mut self)
        requires
            8 <= old(self)@.len() <= 0xffff,
        ensures
            wf(final(self)@),
            final(self)@.len() == old(self)@.len(),
            slots_of(final(self)@) == Seq::<Seq<u8>>::empty(),
            free_space_of(final(self)@) == capacity_of(old(self)@),
    {
        let capacity = self.bytes.len() - HEADER_SIZE;
        let mut out: Vec<u8> = Vec::new();
        put_u16(&mut out, 0);
        put_u16(&mut out, capacity as u16);
        put_range(&mut out, self.bytes.as_slice(), 4, self.bytes.len());
        proof {
            lemma_auto_spec_u16_to_from_le_bytes();
            assert(out@.subrange(0, 2) =~= spec_u16_to_le_bytes(0));
            assert(out@.subrange(2, 4) =~= spec_u16_to_le_bytes(capacity as u16));
            assert(slots_of(out@) =~= Seq::<Seq<u8>>::empty());
        }
        self.bytes = out;
    }

    /// The bytes of record `index`.
    pub fn slot(&self, index: usize) -> (r: &[u8])
        requires
            wf(self@),
            index < num_slots_of(self@),
        ensures
            r@ == slots_of(self@)[index as int],
    {
        let offset = get_u16(self.bytes.as_slice(), HEADER_SIZE + POINTER_SIZE * index) as usize;
        let len = get_u16(self.bytes.as_slice(), HEADER_SIZE + POINTER_SIZE * index + 2) as usize;
        assert(offset == slot_offset(self@, index as int));
        assert(len == slot_len(self@, index as int));
        vstd::slice::slice_subrange(
            self.bytes.as_slice(),
            HEADER_SIZE + offset,
            HEADER_SIZE + offset + len,
        )
    }

    /// Copies of all records, in slot order.
    pub fn records(&self) -> (r: Vec<Vec<u8>>)
        requires
            wf(self@),
        ensures
            views(r@) == slots_of(self@),
    {
        let count = self.num_slots();
        let mut out: Vec<Vec<u8>> = Vec::new();
        let mut i: usize = 0;
        while i < count
            invariant
                wf(self@),
                count == num_slots_of(self@),
                i <= count,
                out@.len() == i,
                views(out@) == slots_of(self@).subrange(0, i as int),
            decreases count - i,
        {
            let record = vstd::slice::slice_to_vec(self.slot(i));
            let ghost before = out@;
            out.push(record);
            i += 1;
            proof {
                let want = slots_of(self@).subrange(0, i as int);
                assert forall|j: int| 0 <= j < i implies views(out@)[j] == want[j] by {
                    if j < i - 1 {
                        assert(out@[j] == before[j]);
                        assert(views(before)[j] == slots_of(self@).subrange(0, i - 1)[j]);
                    }
                }
                assert(views(out@) =~= want);
            }
        }
        assert(slots_of(self@).subrange(0, count as int) =~= slots_of(self@));
        out
    }

    /// Whether `records[from..to]`, with their pointers, fit into the body
    /// of this page.
    pub fn fits(&self, records: &Vec<Vec<u8>>, from: usize, to: usize) -> (r: bool)
        requires
            self@.len() >= 8,
            from <= to <= records@.len(),
        ensures
            r == (used_by(views(records@).subrange(from as int, to as int)) <= capacity_of(self@)),
    {
        let capacity = self.capacity();
        let ghost part = views(records@).subrange(from as int, to as int);
        assert(views(records@).len() == records@.len());
        assert(part.subrange(0, 0) =~= Seq::<Seq<u8>>::empty());
        let mut used: usize = 0;
        let mut i: usize = from;
        while i < to
            invariant
                from <= i <= to <= records@.len(),
                part == views(records@).subrange(from as int, to as int),
                part.len() == to - from,
                capacity == capacity_of(self@),
                used == used_by(part.subrange(0, i - from)),
                used <= capacity,
            decreases to - i,
        {
            let len = records[i].len();
            proof {
                let next = part.subrange(0, i + 1 - from);
                assert(next.drop_last() =~= part.subrange(0, i - from));
                assert(next.last() == records@[i as int]@);
                assert(used_by(next) == used_by(next.drop_last()) + 4 + next.last().len());
                lemma_used_by_monotone(part, i + 1 - from);
            }
            if len > capacity - used || capacity - used - len < POINTER_SIZE {
                return false;
            }
            used = used + POINTER_SIZE + len;
            i += 1;
        }
        assert(part.subrange(0, to - from) =~= part);
        true
    }

    /// Empties the page and stores `records[from..to]` in it, in order.
    pub fn assign(&mut self, records: &Vec<Vec<u8>>, from: usize, to: usize)
        requires
            8 <= old(self)@.len() <= 0xffff,
            from <= to <= records@.len(),
            used_by(views(records@).subrange(from as int, to as int)) <= capacity_of(old(self)@),
        ensures
            wf(final(self)@),
            final(self)@.len() == old(self)@.len(),
            slots_of(final(self)@) == views(records@).subrange(from as int, to as int),
    {
        self.initialize();
        let ghost part = views(records@).subrange(from as int, to as int);
        let ghost capacity = capacity_of(self@);
        assert(views(records@).len() == records@.len());
        assert(part.subrange(0, 0) =~= Seq::<Seq<u8>>::empty());
        let mut i: usize = from;
        while i < to
            invariant
                from <= i <= to <= records@.len(),
                part == views(records@).subrange(from as int, to as int),
                part.len() == to - from,
                wf(self@),
                self@.len() == old(self)@.len(),
                capacity == capacity_of(self@),
                used_by(part) <= capacity,
                slots_of(self@) == part.subrange(0, i - from),
                free_space_of(self@) == capacity - used_by(part.subrange(0, i - from)),
            decreases to - i,
        {
            proof {
                let next = part.subrange(0, i + 1 - from);
                assert(next.drop_last() =~= part.subrange(0, i - from));
                assert(next.last() == records@[i as int]@);
                assert(used_by(next) == used_by(next.drop_last()) + 4 + next.last().len());
                lemma_used_by_monotone(part, i + 1 - from);
                assert(num_slots_of(self@) == slots_of(self@).len());
            }
            let done = self.insert(i - from, records[i].as_slice());
            assert(done is Some);
            i += 1;
            assert(slots_of(self@) =~= part.subrange(0, i - from));
        }
        assert(part.subrange(0, to - from) =~= part);
    }

    /// Inserts `data` as record `index`, moving the records from `index`
    /// on one slot up.  Returns `None`, and changes nothing, when the page
    /// has no room for the record and its pointer.
    pub fn insert(&mut self, index: usize, data: &[u8]) -> (r: Option<()>)
        requires
            wf(old(self)@),
            index <= num_slots_of(old(self)@),
        ensures
            r is Some <==> free_space_of(old(self)@) >= 4 + data@.len(),
            r is None ==> final(self)@ == old(self)@,
            r is Some ==> {
                &&& wf(final(self)@)
                &&& final(self)@.len() == old(self)@.len()
                &&& final(self)@.subrange(4, 8) == old(self)@.subrange(4, 8)
                &&& slots_of(final(self)@) == slots_of(old(self)@).insert(index as int, data@)
                &&& free_space_of(final(self)@) == free_space_of(old(self)@) - 4 - data@.len()
            },
    {
        let free = self.free_space();
        if data.len() > free || free - data.len() < POINTER_SIZE {
            return None;
        }
        let count = get_u16(self.bytes.as_slice(), 0);
        let old_offset = get_u16(self.bytes.as_slice(), 2);
        let new_offset: u16 = old_offset - data.len() as u16;
        let split: usize = HEADER_SIZE + POINTER_SIZE * index;
        let ghost before = self.bytes@;
        let mut out: Vec<u8> = Vec::new();
        put_u16(&mut out, count + 1);
        put_u16(&mut out, new_offset);
        put_range(&mut out, self.bytes.as_slice(), 4, split);
        put_u16(&mut out, new_offset);
        put_u16(&mut out, data.len() as u16);
        put_range(&mut out, self.bytes.as_slice(), split, HEADER_SIZE + new_offset as usize - 4);
        put_range(&mut out, data, 0, data.len());
        put_range(
            &mut out,
            self.bytes.as_slice(),
            HEADER_SIZE + old_offset as usize,
            self.bytes.len(),
        );
        proof {
            lemma_insert_layout(
                before,
                out@,
                index as int,
                data@,
            );
        }
        self.bytes = out;
        Some(())
    }
}

/// The block that `insert` builds, written out piece by piece.
pub open spec fn inserted(b: Seq<u8>, index: int, data: Seq<u8>) -> Seq<u8> {
    let n = num_slots_of(b);
    let f = free_offset_of(b);
    spec_u16_to_le_bytes((n + 1) as u16) + spec_u16_to_le_bytes((f - data.len()) as u16)
        + b.subrange(4, 8 + 4 * index) + spec_u16_to_le_bytes((f - data.len()) as u16)
        + spec_u16_to_le_bytes(data.len() as u16) + b.subrange(
        8 + 4 * index,
        8 + f - data.len() - 4,
    ) + data.subrange(0, data.len() as int) + b.subrange(8 + f, b.len() as int)
}

proof fn lemma_insert_layout(b: Seq<u8>, out: Seq<u8>, index: int, data: Seq<u8>)
    requires
        wf(b),
        0 <= index <= num_slots_of(b),
        free_space_of(b) >= 4 + data.len(),
        out == inserted(b, index, data),
    ensures
        wf(out),
        out.len() == b.len(),
        out.subrange(4, 8) == b.subrange(4, 8),
        slots_of(out) == slots_of(b).insert(index, data),
        free_space_of(out) == free_space_of(b) - 4 - data.len(),
{
    lemma_auto_spec_u16_to_from_le_bytes();
    let n = num_slots_of(b);
    let f = free_offset_of(b);
    let nf = f - data.len();
    let len = data.len() as int;
    assert(spec_u16_to_le_bytes((n + 1) as u16).len() == 2);
    assert(spec_u16_to_le_bytes(nf as u16).len() == 2);
    assert(spec_u16_to_le_bytes(len as u16).len() == 2);
    assert(out.len() == b.len());
    assert(out.subrange(0, 2) =~= spec_u16_to_le_bytes((n + 1) as u16));
    assert(out.subrange(2, 4) =~= spec_u16_to_le_bytes(nf as u16));
    assert(num_slots_of(out) == n + 1);
    assert(free_offset_of(out) == nf);
    assert(out.subrange(4, 8) =~= b.subrange(4, 8));
    assert forall|i: int| 0 <= i < index implies slot_offset(out, i) == slot_offset(b, i)
        && slot_len(out, i) == slot_len(b, i) by {
        assert(out.subrange(8 + 4 * i, 10 + 4 * i) =~= b.subrange(8 + 4 * i, 10 + 4 * i));
        assert(out.subrange(10 + 4 * i, 12 + 4 * i) =~= b.subrange(10 + 4 * i, 12 + 4 * i));
    }
    assert(out.subrange(8 + 4 * index, 10 + 4 * index) =~= spec_u16_to_le_bytes(nf as u16));
    assert(out.subrange(10 + 4 * index, 12 + 4 * index) =~= spec_u16_to_le_bytes(len as u16));
    assert(slot_offset(out, index) == nf);
    assert(slot_len(out, index) == len);
    assert forall|i: int| index < i <= n implies slot_offset(out, i) == slot_offset(b, i - 1)
        && slot_len(out, i) == slot_len(b, i - 1) by {
        assert(out.subrange(8 + 4 * i, 10 + 4 * i) =~= b.subrange(4 + 4 * i, 6 + 4 * i));
        assert(out.subrange(10 + 4 * i, 12 + 4 * i) =~= b.subrange(6 + 4 * i, 8 + 4 * i));
        assert(b.subrange(4 + 4 * i, 6 + 4 * i) == b.subrange(8 + 4 * (i - 1), 10 + 4 * (i - 1)));
        assert(b.subrange(6 + 4 * i, 8 + 4 * i) == b.subrange(10 + 4 * (i - 1), 12 + 4 * (i - 1)));
    }
    lemma_total_len_insert(b, out, n, index, len);
    assert forall|i: int| 0 <= i < n + 1 implies #[trigger] slot_data(out, i) == slots_of(
        b,
    ).insert(index, data)[i] by {
        if i < index {
            assert(slot_offset(b, i) >= f);
            assert(slot_data(out, i) =~= slot_data(b, i));
        } else if i == index {
            assert(slot_data(out, i) =~= data);
        } else {
            assert(slot_offset(b, i - 1) >= f);
            assert(slot_data(out, i) =~= slot_data(b, i - 1));
        }
    }
    assert(slots_of(out) =~= slots_of(b).insert(index, data));
    assert forall|i: int| 0 <= i < num_slots_of(out) implies nf <= #[trigger] slot_offset(out, i)
        && slot_offset(out, i) + slot_len(out, i) <= capacity_of(out) by {
        if i < index {
            assert(slot_offset(b, i) >= f);
        } else if i > index {
            assert(slot_offset(b, i - 1) >= f);
        }
    }
}

} // verus!
