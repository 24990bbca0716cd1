//! Leaf nodes: sorted key/value records and the links to the neighbouring
//! leaves.

use vstd::prelude::*;
use vstd::bytes::{
    lemma_auto_spec_u64_to_from_le_bytes, spec_u64_from_le_bytes, spec_u64_to_le_bytes,
};
use crate::btree::pair::{pair_encoding, Pair};
use crate::btree::records::{
    all_encoded, decode_all, keys_of, lemma_decode_insert, max_pair_size_of, record_at, Record,
};
use crate::bytes::{get_u64, put_range, put_u64};
use crate::disk::{PageId, INVALID_PAGE_ID};
use crate::order::{
    lemma_search_result, lemma_sorted_insert, lower_bound, search_result, sorted,
};
use crate::slotted::{
    capacity_of, free_space_of, lemma_used_by_insert, lemma_used_by_slots, lemma_used_by_split, slots_of, used_by, views, Slotted,
};

verus! {

/// Bytes taken by the header of a leaf, in front of its slotted block.
pub const HEADER_SIZE: usize = 16;

/// The leaf before this one in key order, as written in leaf body `b`.
pub open spec fn prev_of(b: Seq<u8>) -> Option<PageId> {
    PageId(spec_u64_from_le_bytes(b.subrange(0, 8))).spec_valid()
}

/// The leaf after this one in key order, as written in leaf body `b`.
pub open spec fn next_of(b: Seq<u8>) -> Option<PageId> {
    PageId(spec_u64_from_le_bytes(b.subrange(8, 16))).spec_valid()
}

/// The slotted block of leaf body `b`.
pub open spec fn block_of(b: Seq<u8>) -> Seq<u8> {
    b.subrange(16, b.len() as int)
}

/// The records of leaf body `b`, in slot order.
pub open spec fn pairs_of(b: Seq<u8>) -> Seq<Record> {
    decode_all(slots_of(block_of(b)))
}

/// Leaf body `b` is consistent: its slots hold encoded records, none
/// larger than half the block, in strictly ascending key order.
pub open spec fn wf(b: Seq<u8>) -> bool {
    &&& b.len() >= 32
    &&& crate::btree::records::wf(block_of(b))
}

/// Whether a record of `size` encoded bytes can be added to leaf body `b`
/// as it stands.
pub open spec fn has_room(b: Seq<u8>, size: int) -> bool {
    size <= max_pair_size_of(block_of(b)) && free_space_of(block_of(b)) >= size + 4
}

/// The links at the start of a leaf.
pub struct Header {
    prev_page_id: PageId,
    next_page_id: PageId,
}

/// A leaf, taken apart into header and slotted block.  Its view is the
/// node body it was read from or will be written to.
pub struct Leaf {
    header: Header,
    body: Slotted,
}

/// The key is already in the leaf.
#[derive(Clone, Copy, Debug, PartialEq, Eq, Structural)]
pub struct DuplicateKey;

impl View for Leaf {
    type V = Seq<u8>;

    closed spec fn view(&self) -> Seq<u8> {
        spec_u64_to_le_bytes(self.header.prev_page_id.0) + spec_u64_to_le_bytes(
            self.header.next_page_id.0,
        ) + self.body@
    }
}

impl Leaf {
    proof fn lemma_parts(&self)
        ensures
            self@.len() == 16 + self.body@.len(),
            block_of(self@) == self.body@,
            prev_of(self@) == self.header.prev_page_id.spec_valid(),
            next_of(self@) == self.header.next_page_id.spec_valid(),
    {
        lemma_auto_spec_u64_to_from_le_bytes();
        assert(self@.subrange(0, 8) =~= spec_u64_to_le_bytes(self.header.prev_page_id.0));
        assert(self@.subrange(8, 16) =~= spec_u64_to_le_bytes(self.header.next_page_id.0));
        assert(block_of(self@) =~= self.body@);
    }

    /// Reads a leaf from the body of a node page.
    pub fn new(bytes: &[u8]) -> (r: Leaf)
        requires
            bytes@.len() >= 16,
        ensures
            r@ == bytes@,
    {
        let prev = get_u64(bytes, 0);
        let next = get_u64(bytes, 8);
        let block = vstd::slice::slice_subrange(bytes, HEADER_SIZE, bytes.len());
        let r = Leaf {
            header: Header { prev_page_id: PageId(prev), next_page_id: PageId(next) },
            body: Slotted::new(block),
        };
        proof {
            lemma_auto_spec_u64_to_from_le_bytes();
            assert(bytes@.subrange(0, 8).len() == 8);
            assert(bytes@.subrange(8, 16).len() == 8);
            assert(r@ =~= bytes@);
        }
        r
    }

    /// The node body that stands for this leaf.
    pub fn to_bytes(&self) -> (r: Vec<u8>)
        ensures
            r@ == self@,
    {
        let mut out: Vec<u8> = Vec::new();
        put_u64(&mut out, self.header.prev_page_id.0);
        put_u64(&mut out, self.header.next_page_id.0);
        let block = self.body.as_bytes();
        put_range(&mut out, block, 0, block.len());
        assert(out@ =~= self@);
        out
    }

    /// Number of records.
    pub fn num_pairs(&self) -> (r: usize)
        requires
            wf(self@),
        ensures
            r == pairs_of(self@).len(),
    {
        proof {
            self.lemma_parts();
        }
        self.body.num_slots()
    }

    /// The record in slot `slot_id`.
    pub fn pair_at(&self, slot_id: usize) -> (r: Pair<'_>)
        requires
            wf(self@),
            slot_id < pairs_of(self@).len(),
        ensures
            (r.key@, r.value@) == pairs_of(self@)[slot_id as int],
    {
        proof {
            self.lemma_parts();
        }
        record_at(&self.body, slot_id)
    }

    /// The largest encoded record the leaf accepts.
    pub fn max_pair_size(&self) -> (r: usize)
        requires
            self@.len() >= 32,
        ensures
            r == max_pair_size_of(block_of(self@)),
    {
        proof {
            self.lemma_parts();
        }
        self.body.capacity() / 2 - crate::slotted::POINTER_SIZE
    }

    /// Bytes still free for records and their pointers.
    pub fn free_space(&self) -> (r: usize)
        requires
            wf(self@),
        ensures
            r == free_space_of(block_of(self@)),
    {
        proof {
            self.lemma_parts();
        }
        self.body.free_space()
    }

    /// Searches for `key`: `Ok` with its slot, or `Err` with the slot where
    /// it would have to go.
    pub fn search_slot_id(&self, key: &[u8]) -> (r: Result<usize, usize>)
        requires
            wf(self@),
        ensures
            r == search_result(keys_of(pairs_of(self@)), key@),
    {
        proof {
            self.lemma_parts();
        }
        crate::btree::records::search(&self.body, key)
    }

    /// The leaf before this one in key order.
    pub fn prev_page_id(&self) -> (r: Option<PageId>)
        ensures
            r == prev_of(self@),
    {
        proof {
            self.lemma_parts();
        }
        self.header.prev_page_id.valid()
    }

    /// The leaf after this one in key order.
    pub fn next_page_id(&self) -> (r: Option<PageId>)
        ensures
            r == next_of(self@),
    {
        proof {
            self.lemma_parts();
        }
        self.header.next_page_id.valid()
    }

    /// Sets the link to the leaf before this one.
    pub fn set_prev_page_id(&mut self, prev_page_id: Option<PageId>)
        requires
            prev_page_id matches Some(id) ==> id.0 != INVALID_PAGE_ID,
        ensures
            prev_of(final(self)@) == prev_page_id,
            next_of(final(self)@) == next_of(old(self)@),
            block_of(final(self)@) == block_of(old(self)@),
            final(self)@.len() == old(self)@.len(),
    {
        proof {
            self.lemma_parts();
        }
        self.header.prev_page_id = PageId::from_link(prev_page_id);
        proof {
            self.lemma_parts();
        }
    }

    /// Sets the link to the leaf after this one.
    pub fn set_next_page_id(&mut self, next_page_id: Option<PageId>)
        requires
            next_page_id matches Some(id) ==> id.0 != INVALID_PAGE_ID,
        ensures
            next_of(final(self)@) == next_page_id,
            prev_of(final(self)@) == prev_of(old(self)@),
            block_of(final(self)@) == block_of(old(self)@),
            final(self)@.len() == old(self)@.len(),
    {
        proof {
            self.lemma_parts();
        }
        self.header.next_page_id = PageId::from_link(next_page_id);
        proof {
            self.lemma_parts();
        }
    }

    /// Makes the leaf empty and unlinked.
    pub fn initialize(&mut self)
        requires
            32 <= old(self)@.len() <= 16 + 0xffff,
        ensures
            wf(final(self)@),
            final(self)@.len() == old(self)@.len(),
            pairs_of(final(self)@) == Seq::<Record>::empty(),
            prev_of(final(self)@) is None,
            next_of(final(self)@) is None,
            free_space_of(block_of(final(self)@)) == capacity_of(block_of(final(self)@)),
    {
        proof {
            self.lemma_parts();
        }
        self.header.prev_page_id = PageId::invalid();
        self.header.next_page_id = PageId::invalid();
        self.body.initialize();
        proof {
            self.lemma_parts();
            assert(pairs_of(self@) =~= Seq::<Record>::empty());
        }
    }

    /// Adds the record `(key, value)` at its place in key order.
    ///
    /// Fails with `DuplicateKey` when the key is already there.  Returns
    /// `Ok(false)` when the encoded record is larger than `max_pair_size`
    /// or the leaf has no room left for it; the leaf then has to be split.
    /// In both cases the leaf is unchanged.
    pub fn insert(&mut self, key: &[u8], value: &[u8]) -> (r: Result<bool, DuplicateKey>)
        requires
            wf(old(self)@),
        ensures
            r is Err <==> keys_of(pairs_of(old(self)@)).contains(key@),
            r == Ok::<bool, DuplicateKey>(true) <==> !keys_of(pairs_of(old(self)@)).contains(key@)
                && has_room(old(self)@, pair_encoding(key@, value@).len() as int),
            r != Ok::<bool, DuplicateKey>(true) ==> final(self)@ == old(self)@,
            r == Ok::<bool, DuplicateKey>(true) ==> {
                &&& wf(final(self)@)
                &&& final(self)@.len() == old(self)@.len()
                &&& prev_of(final(self)@) == prev_of(old(self)@)
                &&& next_of(final(self)@) == next_of(old(self)@)
                &&& pairs_of(final(self)@) == pairs_of(old(self)@).insert(
                    lower_bound(keys_of(pairs_of(old(self)@)), key@),
                    (key@, value@),
                )
                &&& free_space_of(block_of(final(self)@)) == free_space_of(block_of(old(self)@))
                    - 4 - pair_encoding(key@, value@).len()
            },
    {
        proof {
            self.lemma_parts();
            lemma_search_result(keys_of(pairs_of(self@)), key@);
        }
        let slot_id = match self.search_slot_id(key) {
            Ok(_) => {
                return Err(DuplicateKey);
            },
            Err(slot_id) => slot_id,
        };
        let bytes = (Pair { key, value }).to_bytes();
        if bytes.len() > self.max_pair_size() {
            return Ok(false);
        }
        let ghost raw = slots_of(self.body@);
        match self.body.insert(slot_id, bytes.as_slice()) {
            Some(_) => {
                proof {
                    self.lemma_parts();
                    lemma_decode_insert(raw, slot_id as int, key@, value@);
                    lemma_sorted_insert(keys_of(decode_all(raw)), key@);
                    assert(all_encoded(slots_of(self.body@), max_pair_size_of(self.body@)));
                }
                Ok(true)
            },
            None => Ok(false),
        }
    }

    /// Splits the leaf while adding the record `(key, value)`.
    ///
    /// The records, the new one among them at its place in key order, are
    /// divided between this leaf, which keeps the lower keys, and
    /// `new_leaf`, which gets the upper keys.  This leaf keeps records up
    /// to the first one with which they fill half of it, but leaves at
    /// least one to `new_leaf`.  Returns the smallest key of `new_leaf`.
    /// Links are left as they are.
    pub fn split_insert(&mut self, new_leaf: &mut Leaf, key: &[u8], value: &[u8]) -> (r: Vec<u8>)
        requires
            wf(old(self)@),
            wf(old(new_leaf)@),
            old(new_leaf)@.len() == old(self)@.len(),
            pairs_of(old(self)@).len() > 0,
            !keys_of(pairs_of(old(self)@)).contains(key@),
            pair_encoding(key@, value@).len() <= max_pair_size_of(block_of(old(self)@)),
        ensures
            wf(final(self)@),
            wf(final(new_leaf)@),
            final(self)@.len() == old(self)@.len(),
            final(new_leaf)@.len() == old(new_leaf)@.len(),
            prev_of(final(self)@) == prev_of(old(self)@),
            next_of(final(self)@) == next_of(old(self)@),
            prev_of(final(new_leaf)@) == prev_of(old(new_leaf)@),
            next_of(final(new_leaf)@) == next_of(old(new_leaf)@),
            pairs_of(final(self)@).len() > 0,
            pairs_of(final(new_leaf)@).len() > 0,
            pairs_of(final(self)@) + pairs_of(final(new_leaf)@) == pairs_of(old(self)@).insert(
                lower_bound(keys_of(pairs_of(old(self)@)), key@),
                (key@, value@),
            ),
            r@ == pairs_of(final(new_leaf)@)[0].0,
            used_by(slots_of(block_of(final(self)@)).drop_last()) < capacity_of(
                block_of(old(self)@),
            ) / 2,
            used_by(slots_of(block_of(final(self)@))) >= capacity_of(block_of(old(self)@)) / 2
                || pairs_of(final(new_leaf)@).len() == 1,
    {
        proof {
            self.lemma_parts();
            new_leaf.lemma_parts();
            lemma_search_result(keys_of(pairs_of(self@)), key@);
        }
        let slot_id = match self.search_slot_id(key) {
            Ok(slot_id) => slot_id,
            Err(slot_id) => slot_id,
        };
        let bytes = (Pair { key, value }).to_bytes();
        let mut records = self.body.records();
        let ghost raw = slots_of(self.body@);
        let ghost limit = max_pair_size_of(self.body@);
        records.insert(slot_id, bytes);
        let ghost all = views(records@);
        let capacity = self.body.capacity();
        let half = capacity / 2;
        proof {
            assert(all =~= raw.insert(slot_id as int, pair_encoding(key@, value@)));
            lemma_used_by_slots(self.body@);
            lemma_used_by_insert(raw, slot_id as int, pair_encoding(key@, value@));
            lemma_decode_insert(raw, slot_id as int, key@, value@);
            lemma_sorted_insert(keys_of(decode_all(raw)), key@);
            assert(all_encoded(all, limit));
            assert(all.subrange(0, 0) =~= Seq::<Seq<u8>>::empty());
        }
        let mut count: usize = 0;
        let mut used: usize = 0;
        let ghost mut last: int = 0;
        while count < records.len() - 1 && used < half
            invariant
                all == views(records@),
                all.len() == records@.len(),
                all.len() >= 2,
                all_encoded(all, limit),
                limit == capacity / 2 - 4,
                half == capacity / 2,
                capacity <= 0xffff,
                count + 1 <= all.len(),
                used == used_by(all.subrange(0, count as int)),
                count == 0 ==> used == 0,
                count > 0 ==> used - last < half && last <= half && last == 4 + all[count
                    - 1].len(),
                last >= 0,
            decreases all.len() - count,
        {
            proof {
                let next = all.subrange(0, count + 1);
                assert(next.drop_last() =~= all.subrange(0, count as int));
                assert(next.last() == all[count as int]);
                assert(used_by(next) == used_by(next.drop_last()) + 4 + next.last().len());
                last = 4 + all[count as int].len() as int;
            }
            used = used + crate::slotted::POINTER_SIZE + records[count].len();
            count = count + 1;
        }
        proof {
            let kept = all.subrange(0, count as int);
            assert(used_by(kept) == used_by(kept.drop_last()) + 4 + kept.last().len());
            assert(kept.last() == all[count - 1]);
            lemma_used_by_split(all, count as int);
            let rest = all.subrange(count as int, all.len() as int);
            if count + 1 == all.len() {
                assert(rest.drop_last() =~= Seq::<Seq<u8>>::empty());
                assert(rest.last() == all[count as int]);
                assert(used_by(rest) == used_by(rest.drop_last()) + 4 + rest.last().len());
            }
        }
        self.body.assign(&records, 0, count);
        new_leaf.body.assign(&records, count, records.len());
        proof {
            self.lemma_parts();
            new_leaf.lemma_parts();
            let low = all.subrange(0, count as int);
            let high = all.subrange(count as int, all.len() as int);
            assert(decode_all(low) + decode_all(high) =~= decode_all(all));
            assert(keys_of(decode_all(low)) =~= keys_of(decode_all(all)).subrange(0, count as int));
            assert(keys_of(decode_all(high)) =~= keys_of(decode_all(all)).subrange(
                count as int,
                all.len() as int,
            ));
            assert(all_encoded(low, limit));
            assert(all_encoded(high, limit));
        }
        let first = record_at(&new_leaf.body, 0);
        vstd::slice::slice_to_vec(first.key)
    }
}

} // verus!
