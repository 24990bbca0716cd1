//! Branch nodes: sorted separator keys, each paired with the child to its
//! left, and one more child to the right of them all.

use vstd::prelude::*;
use vstd::bytes::{
    lemma_auto_spec_u64_to_from_le_bytes, spec_u64_from_le_bytes, spec_u64_to_le_bytes,
};
use crate::btree::pair::{
    lemma_decoding_encodes, lemma_pair_decoding, lemma_pair_encoding_len, lemma_pair_encoding_longer, is_pair_encoding, pair_encoding, pair_size, Pair,
};
use crate::btree::records::{
    all_encoded, decode_all, keys_of, max_pair_size_of, record_at, Record,
};
use crate::bytes::{get_u64, put_range, put_u64, write_u64};
use crate::disk::PageId;
use crate::order::{child_index_of, lemma_search_result, search_result, sorted};
use crate::slotted::{
    capacity_of, free_space_of, lemma_used_by_insert, lemma_used_by_monotone, lemma_used_by_slots,
    lemma_used_by_split, slots_of, used_by, views, Slotted,
};

verus! {

/// Bytes taken by the header of a branch, in front of its slotted block.
pub const HEADER_SIZE: usize = 8;

/// The rightmost child, as written in branch body `b`.
pub open spec fn right_child_of(b: Seq<u8>) -> PageId {
    PageId(spec_u64_from_le_bytes(b.subrange(0, 8)))
}

/// The slotted block of branch body `b`.
pub open spec fn block_of(b: Seq<u8>) -> Seq<u8> {
    b.subrange(8, b.len() as int)
}

/// The entries of branch body `b`: separator keys with the encoded
/// identifier of the child to their left.
pub open spec fn pairs_of(b: Seq<u8>) -> Seq<Record> {
    decode_all(slots_of(block_of(b)))
}

/// The separator keys of branch body `b`, in order.
pub open spec fn separators_of(b: Seq<u8>) -> Seq<Seq<u8>> {
    keys_of(pairs_of(b))
}

/// The children that `pairs` and a rightmost child stand for, left to right.
pub open spec fn children_from(pairs: Seq<Record>, right_child: PageId) -> Seq<PageId> {
    Seq::new(
        pairs.len() + 1,
        |i: int|
            if i < pairs.len() {
                PageId(spec_u64_from_le_bytes(pairs[i].1))
            } else {
                right_child
            },
    )
}

/// The children of branch body `b`, left to right: one more than it has
/// separators.
pub open spec fn children_of(b: Seq<u8>) -> Seq<PageId> {
    children_from(pairs_of(b), right_child_of(b))
}

/// Every value of `pairs` has the eight bytes of a page identifier.
pub open spec fn values_are_ids(pairs: Seq<Record>) -> bool {
    forall|i: int| 0 <= i < pairs.len() ==> (#[trigger] pairs[i]).1.len() == 8
}

/// Branch body `b` is consistent: its slots hold encoded entries, none
/// larger than half the block, with separators in strictly ascending
/// order and page identifiers as values.
pub open spec fn wf(b: Seq<u8>) -> bool {
    &&& b.len() >= 24
    &&& crate::btree::records::wf(block_of(b))
    &&& values_are_ids(pairs_of(b))
}

/// The fixed field at the start of a branch.
pub struct Header {
    right_child: PageId,
}

/// A branch, taken apart into header and slotted block.  Its view is the
/// node body it was read from or will be written to.
pub struct Branch {
    header: Header,
    body: Slotted,
}

impl View for Branch {
    type V = Seq<u8>;

    closed spec fn view(&self) -> Seq<u8> {
        spec_u64_to_le_bytes(self.header.right_child.0) + self.body@
    }
}

/// Entries and rightmost child of a branch that is about to be rewritten.
struct Entries {
    records: Vec<Vec<u8>>,
    right_child: PageId,
}

impl Branch {
    proof fn lemma_parts(&self)
        ensures
            self@.len() == 8 + self.body@.len(),
            block_of(self@) == self.body@,
            right_child_of(self@) == self.header.right_child,
    {
        lemma_auto_spec_u64_to_from_le_bytes();
        assert(self@.subrange(0, 8) =~= spec_u64_to_le_bytes(self.header.right_child.0));
        assert(block_of(self@) =~= self.body@);
    }

    /// Reads a branch from the body of a node page.
    pub fn new(bytes: &[u8]) -> (r: Branch)
        requires
            bytes@.len() >= 8,
        ensures
            r@ == bytes@,
    {
        let right_child = get_u64(bytes, 0);
        let block = vstd::slice::slice_subrange(bytes, HEADER_SIZE, bytes.len());
        let r = Branch {
            header: Header { right_child: PageId(right_child) },
            body: Slotted::new(block),
        };
        proof {
            lemma_auto_spec_u64_to_from_le_bytes();
            assert(bytes@.subrange(0, 8).len() == 8);
            assert(r@ =~= bytes@);
        }
        r
    }

    /// The node body that stands for this branch.
    pub fn to_bytes(&self) -> (r: Vec<u8>)
        ensures
            r@ == self@,
    {
        let mut out: Vec<u8> = Vec::new();
        put_u64(&mut out, self.header.right_child.0);
        let block = self.body.as_bytes();
        put_range(&mut out, block, 0, block.len());
        assert(out@ =~= self@);
        out
    }

    /// Number of separators.
    pub fn num_pairs(&self) -> (r: usize)
        requires
            wf(self@),
        ensures
            r == pairs_of(self@).len(),
            r + 1 == children_of(self@).len(),
    {
        proof {
            self.lemma_parts();
        }
        self.body.num_slots()
    }

    /// Searches the separators for `key`: `Ok` with its slot, or `Err`
    /// with the slot where it would have to go.
    pub fn search_slot_id(&self, key: &[u8]) -> (r: Result<usize, usize>)
        requires
            wf(self@),
        ensures
            r == search_result(separators_of(self@), key@),
    {
        proof {
            self.lemma_parts();
        }
        crate::btree::records::search(&self.body, key)
    }

    /// The child that a search for `key` descends into.
    pub fn search_child(&self, key: &[u8]) -> (r: PageId)
        requires
            wf(self@),
        ensures
            r == children_of(self@)[child_index_of(separators_of(self@), key@) as int],
    {
        let child_idx = self.search_child_idx(key);
        self.child_at(child_idx)
    }

    /// Index of the child that a search for `key` descends into: a key
    /// equal to a separator goes to the right of it.
    pub fn search_child_idx(&self, key: &[u8]) -> (r: usize)
        requires
            wf(self@),
        ensures
            r == child_index_of(separators_of(self@), key@),
            r <= pairs_of(self@).len(),
    {
        proof {
            self.lemma_parts();
            lemma_search_result(separators_of(self@), key@);
        }
        match self.search_slot_id(key) {
            Ok(slot_id) => slot_id + 1,
            Err(slot_id) => slot_id,
        }
    }

    /// The child at `child_idx`, counted from the left.
    pub fn child_at(&self, child_idx: usize) -> (r: PageId)
        requires
            wf(self@),
            child_idx <= pairs_of(self@).len(),
        ensures
            r == children_of(self@)[child_idx as int],
    {
        proof {
            self.lemma_parts();
        }
        if child_idx == self.num_pairs() {
            self.header.right_child
        } else {
            let pair = self.pair_at(child_idx);
            assert(pair.value@.subrange(0, 8) =~= pair.value@);
            PageId(get_u64(pair.value, 0))
        }
    }

    /// The entry in slot `slot_id`.
    pub fn pair_at(&self, slot_id: usize) -> (r: Pair<'_>)
        requires
            wf(self@),
            slot_id < pairs_of(self@).len(),
        ensures
            (r.key@, r.value@) == pairs_of(self@)[slot_id as int],
    {
        proof {
            self.lemma_parts();
        }
        record_at(&self.body, slot_id)
    }

    /// The largest encoded entry the branch accepts.
    pub fn max_pair_size(&self) -> (r: usize)
        requires
            self@.len() >= 24,
        ensures
            r == max_pair_size_of(block_of(self@)),
    {
        proof {
            self.lemma_parts();
        }
        self.body.capacity() / 2 - crate::slotted::POINTER_SIZE
    }

    /// Makes this a branch with the single separator `key` between
    /// `left_child` and `right_child`.
    pub fn initialize(&mut self, key: &[u8], left_child: PageId, right_child: PageId)
        requires
            24 <= old(self)@.len() <= 8 + 0xffff,
            pair_size(key@.len(), 8) <= max_pair_size_of(block_of(old(self)@)),
        ensures
            wf(final(self)@),
            final(self)@.len() == old(self)@.len(),
            separators_of(final(self)@) == seq![key@],
            children_of(final(self)@) == seq![left_child, right_child],
    {
        proof {
            self.lemma_parts();
            lemma_auto_spec_u64_to_from_le_bytes();
            lemma_pair_encoding_len(key@, spec_u64_to_le_bytes(left_child.0));
            lemma_pair_decoding(key@, spec_u64_to_le_bytes(left_child.0));
        }
        let ghost capacity = capacity_of(self.body@);
        self.body.initialize();
        let id_bytes = write_u64(left_child.0);
        let bytes = (Pair { key, value: id_bytes.as_slice() }).to_bytes();
        let done = self.body.insert(0, bytes.as_slice());
        self.header.right_child = right_child;
        proof {
            self.lemma_parts();
            let raw = slots_of(self.body@);
            assert(raw =~= seq![bytes@]);
            assert(pairs_of(self@) =~= seq![(key@, spec_u64_to_le_bytes(left_child.0))]);
            assert(separators_of(self@) =~= seq![key@]);
            assert(children_of(self@) =~= seq![left_child, right_child]);
        }
    }

    /// The entries as they will be once `key` separates the child at
    /// `child_idx` from a new child `right` next to it.
    fn expanded(&self, child_idx: usize, key: &[u8], right: PageId) -> (r: Entries)
        requires
            wf(self@),
            child_idx <= pairs_of(self@).len(),
            pair_size(key@.len(), 8) <= max_pair_size_of(block_of(self@)),
        ensures
            all_encoded(views(r.records@), max_pair_size_of(block_of(self@))),
            values_are_ids(decode_all(views(r.records@))),
            keys_of(decode_all(views(r.records@))) == separators_of(self@).insert(
                child_idx as int,
                key@,
            ),
            children_from(decode_all(views(r.records@)), r.right_child) == children_of(
                self@,
            ).insert(child_idx + 1, right),
            used_by(views(r.records@)) == used_by(slots_of(block_of(self@))) + 4 + pair_size(
                key@.len(),
                8,
            ),
            r.records@.len() == pairs_of(self@).len() + 1,
    {
        proof {
            self.lemma_parts();
            lemma_auto_spec_u64_to_from_le_bytes();
        }
        let ghost raw = slots_of(self.body@);
        let ghost pairs = decode_all(raw);
        let ghost limit = max_pair_size_of(self.body@);
        let count = self.num_pairs();
        let mut records = self.body.records();
        let right_bytes = write_u64(right.0);
        if child_idx == count {
            let left_bytes = write_u64(self.header.right_child.0);
            let entry = (Pair { key, value: left_bytes.as_slice() }).to_bytes();
            records.push(entry);
            proof {
                lemma_pair_encoding_len(key@, left_bytes@);
                lemma_pair_decoding(key@, left_bytes@);
                let all = views(records@);
                assert(all =~= raw.push(entry@));
                assert(all =~= raw.insert(count as int, entry@));
                lemma_used_by_insert(raw, count as int, entry@);
                let out = decode_all(all);
                assert(out =~= pairs.push((key@, left_bytes@)));
                assert(keys_of(out) =~= keys_of(pairs).insert(child_idx as int, key@));
                assert(children_from(out, right) =~= children_of(self@).insert(
                    child_idx + 1,
                    right,
                ));
            }
            Entries { records, right_child: right }
        } else {
            let old = self.pair_at(child_idx);
            let first = (Pair { key, value: old.value }).to_bytes();
            let second = (Pair { key: old.key, value: right_bytes.as_slice() }).to_bytes();
            let ghost old_key = old.key@;
            let ghost old_value = old.value@;
            records.set(child_idx, second);
            records.insert(child_idx, first);
            proof {
                let i = child_idx as int;
                assert(is_pair_encoding(raw[i]));
                lemma_decoding_encodes(raw[i]);
                assert(raw[i] == pair_encoding(old_key, old_value));
                lemma_pair_encoding_longer(old_key, old_value);
                lemma_pair_encoding_len(old_key, old_value);
                lemma_pair_encoding_len(old_key, right_bytes@);
                lemma_pair_encoding_len(key@, old_value);
                lemma_pair_decoding(old_key, right_bytes@);
                lemma_pair_decoding(key@, old_value);
                let all = views(records@);
                let mid = raw.update(i, second@);
                assert(all =~= mid.insert(i, first@));
                lemma_used_by_update(raw, i, second@);
                lemma_used_by_insert(mid, i, first@);
                let out = decode_all(all);
                assert forall|j: int| 0 <= j < out.len() implies #[trigger] out[j] == (if j < i {
                    pairs[j]
                } else if j == i {
                    (key@, old_value)
                } else if j == i + 1 {
                    (old_key, right_bytes@)
                } else {
                    pairs[j - 1]
                }) by {}
                assert(keys_of(out) =~= keys_of(pairs).insert(i, key@));
                assert(children_from(out, self.header.right_child) =~= children_of(self@).insert(
                    i + 1,
                    right,
                ));
                assert(all_encoded(all, limit));
                assert(values_are_ids(out));
            }
            Entries { records, right_child: self.header.right_child }
        }
    }

    /// Records that `key` separates the child at `child_idx` from a new
    /// child `right` next to it.  Returns `false`, and changes nothing,
    /// when the branch has no room for one more entry.
    pub fn insert(&mut self, child_idx: usize, key: &[u8], right: PageId) -> (r: bool)
        requires
            wf(old(self)@),
            child_idx <= pairs_of(old(self)@).len(),
            pair_size(key@.len(), 8) <= max_pair_size_of(block_of(old(self)@)),
            sorted(separators_of(old(self)@).insert(child_idx as int, key@)),
        ensures
            r <==> free_space_of(block_of(old(self)@)) >= 4 + pair_size(key@.len(), 8),
            !r ==> final(self)@ == old(self)@,
            r ==> {
                &&& wf(final(self)@)
                &&& final(self)@.len() == old(self)@.len()
                &&& separators_of(final(self)@) == separators_of(old(self)@).insert(
                    child_idx as int,
                    key@,
                )
                &&& children_of(final(self)@) == children_of(old(self)@).insert(
                    child_idx + 1,
                    right,
                )
            },
    {
        proof {
            self.lemma_parts();
            lemma_used_by_slots(self.body@);
        }
        let entries = self.expanded(child_idx, key, right);
        if !self.body.fits(&entries.records, 0, entries.records.len()) {
            proof {
                assert(views(entries.records@).subrange(0, entries.records@.len() as int) =~= views(
                    entries.records@,
                ));
            }
            return false;
        }
        proof {
            assert(views(entries.records@).subrange(0, entries.records@.len() as int) =~= views(
                entries.records@,
            ));
        }
        self.body.assign(&entries.records, 0, entries.records.len());
        self.header.right_child = entries.right_child;
        proof {
            self.lemma_parts();
        }
        true
    }

    /// Splits the branch while recording that `key` separates the child at
    /// `child_idx` from a new child `right` next to it.
    ///
    /// One separator is taken out and returned: the first one with which
    /// the entries before it would fill more than half of the branch, or
    /// the last one.  This branch keeps the separators and children to its
    /// left, `new_branch` gets those to its right.
    pub fn split_insert(
        &mut self,
        new_branch: &mut Branch,
        child_idx: usize,
        key: &[u8],
        right: PageId,
    ) -> (r: Vec<u8>)
        requires
            wf(old(self)@),
            old(new_branch)@.len() == old(self)@.len(),
            old(self)@.len() <= 8 + 0xffff,
            child_idx <= pairs_of(old(self)@).len(),
            pair_size(key@.len(), 8) <= max_pair_size_of(block_of(old(self)@)),
            sorted(separators_of(old(self)@).insert(child_idx as int, key@)),
        ensures
            wf(final(self)@),
            wf(final(new_branch)@),
            final(self)@.len() == old(self)@.len(),
            final(new_branch)@.len() == old(new_branch)@.len(),
            separators_of(final(self)@) + seq![r@] + separators_of(final(new_branch)@)
                == separators_of(old(self)@).insert(child_idx as int, key@),
            children_of(final(self)@) + children_of(final(new_branch)@) == children_of(
                old(self)@,
            ).insert(child_idx + 1, right),
            used_by(slots_of(block_of(final(self)@))) <= capacity_of(block_of(old(self)@)) / 2,
            used_by(slots_of(block_of(final(self)@))) + 4 + pair_size(r@.len(), 8) > capacity_of(
                block_of(old(self)@),
            ) / 2 || pairs_of(final(new_branch)@).len() == 0,
    {
        proof {
            self.lemma_parts();
            new_branch.lemma_parts();
            lemma_used_by_slots(self.body@);
        }
        let entries = self.expanded(child_idx, key, right);
        let ghost all = views(entries.records@);
        let ghost limit = max_pair_size_of(self.body@);
        let ghost old_children = children_of(self@).insert(child_idx + 1, right);
        let capacity = self.body.capacity();
        let half = capacity / 2;
        let mut count: usize = 0;
        let mut used: usize = 0;
        proof {
            assert(all.subrange(0, 0) =~= Seq::<Seq<u8>>::empty());
        }
        while count < entries.records.len() - 1
            invariant
                all == views(entries.records@),
                all.len() == entries.records@.len(),
                all.len() >= 1,
                all_encoded(all, limit),
                limit == capacity / 2 - 4,
                half == capacity / 2,
                capacity <= 0xffff,
                count + 1 <= all.len(),
                used == used_by(all.subrange(0, count as int)),
                used <= half,
            ensures
                count + 1 == all.len() || used + 4 + all[count as int].len() > half,
            decreases all.len() - count,
        {
            let size = entries.records[count].len();
            assert(all[count as int].len() <= limit);
            if used + crate::slotted::POINTER_SIZE + size > half {
                break;
            }
            proof {
                let next = all.subrange(0, count + 1);
                assert(next.drop_last() =~= all.subrange(0, count as int));
                assert(next.last() == all[count as int]);
                assert(used_by(next) == used_by(next.drop_last()) + 4 + next.last().len());
            }
            used = used + crate::slotted::POINTER_SIZE + entries.records[count].len();
            count = count + 1;
        }
        proof {
            let next = all.subrange(0, count + 1);
            assert(next.drop_last() =~= all.subrange(0, count as int));
            assert(next.last() == all[count as int]);
            assert(used_by(next) == used_by(next.drop_last()) + 4 + next.last().len());
            lemma_used_by_split(all, count + 1);
            lemma_used_by_monotone(all.subrange(count + 1, all.len() as int), 0);
        }
        assert(is_pair_encoding(all[count as int]));
        let promoted = Pair::from_bytes(entries.records[count].as_slice());
        assert(decode_all(all)[count as int] == (promoted.key@, promoted.value@));
        assert(promoted.value@.len() == 8);
        proof {
            lemma_decoding_encodes(all[count as int]);
            lemma_pair_encoding_longer(promoted.key@, promoted.value@);
            lemma_pair_encoding_len(promoted.key@, promoted.value@);
        }
        assert(promoted.value@.subrange(0, 8) =~= promoted.value@);
        let separator = vstd::slice::slice_to_vec(promoted.key);
        let middle_child = PageId(get_u64(promoted.value, 0));
        self.body.assign(&entries.records, 0, count);
        self.header.right_child = middle_child;
        new_branch.body.assign(&entries.records, count + 1, entries.records.len());
        new_branch.header.right_child = entries.right_child;
        proof {
            self.lemma_parts();
            new_branch.lemma_parts();
            lemma_split_entries(all, count as int, entries.right_child, limit);
        }
        separator
    }
}

/// Taking entry `m` out of a consistent list of entries leaves two
/// consistent lists: the separators and children to its left, closed by
/// its own child, and those to its right.
proof fn lemma_split_entries(all: Seq<Seq<u8>>, m: int, right_child: PageId, limit: int)
    requires
        0 <= m < all.len(),
        all_encoded(all, limit),
        values_are_ids(decode_all(all)),
        sorted(keys_of(decode_all(all))),
    ensures
        ({
            let low = all.subrange(0, m);
            let high = all.subrange(m + 1, all.len() as int);
            let taken = decode_all(all)[m];
            &&& all_encoded(low, limit)
            &&& all_encoded(high, limit)
            &&& values_are_ids(decode_all(low))
            &&& values_are_ids(decode_all(high))
            &&& sorted(keys_of(decode_all(low)))
            &&& sorted(keys_of(decode_all(high)))
            &&& keys_of(decode_all(low)) + seq![taken.0] + keys_of(decode_all(high)) == keys_of(
                decode_all(all),
            )
            &&& children_from(decode_all(low), PageId(spec_u64_from_le_bytes(taken.1)))
                + children_from(decode_all(high), right_child) == children_from(
                decode_all(all),
                right_child,
            )
        }),
{
    let low = all.subrange(0, m);
    let high = all.subrange(m + 1, all.len() as int);
    let pairs = decode_all(all);
    let taken = pairs[m];
    let keys = keys_of(pairs);
    assert forall|i: int| 0 <= i < low.len() implies is_pair_encoding(#[trigger] low[i])
        && low[i].len() <= limit && decode_all(low)[i] == pairs[i] by {
        assert(low[i] == all[i]);
    }
    assert forall|i: int| 0 <= i < high.len() implies is_pair_encoding(#[trigger] high[i])
        && high[i].len() <= limit && decode_all(high)[i] == pairs[i + m + 1] by {
        assert(high[i] == all[i + m + 1]);
    }
    assert forall|i: int| 0 <= i < decode_all(low).len() implies (#[trigger] decode_all(
        low,
    )[i]).1.len() == 8 by {
        assert(low[i] == all[i]);
        assert(decode_all(low)[i] == pairs[i]);
    }
    assert forall|i: int| 0 <= i < decode_all(high).len() implies (#[trigger] decode_all(
        high,
    )[i]).1.len() == 8 by {
        assert(high[i] == all[i + m + 1]);
        assert(decode_all(high)[i] == pairs[i + m + 1]);
    }
    assert(keys_of(decode_all(low)) =~= keys.subrange(0, m)) by {
        assert forall|i: int| 0 <= i < m implies keys_of(decode_all(low))[i] == keys[i] by {
            assert(low[i] == all[i]);
        }
    }
    assert(keys_of(decode_all(high)) =~= keys.subrange(m + 1, all.len() as int)) by {
        assert forall|i: int| 0 <= i < high.len() implies keys_of(decode_all(high))[i] == keys[i
            + m + 1] by {
            assert(high[i] == all[i + m + 1]);
        }
    }
    assert(keys.subrange(0, m) + seq![taken.0] + keys.subrange(m + 1, all.len() as int) =~= keys);
    let left = children_from(decode_all(low), PageId(spec_u64_from_le_bytes(taken.1)));
    let right = children_from(decode_all(high), right_child);
    let whole = children_from(pairs, right_child);
    assert forall|i: int| 0 <= i < whole.len() implies (left + right)[i] == whole[i] by {
        if i < m {
            assert(low[i] == all[i]);
            assert(left[i] == whole[i]);
        } else if i == m {
            assert(left[i] == whole[i]);
        } else if i < all.len() {
            assert(high[i - m - 1] == all[i]);
            assert(right[i - m - 1] == whole[i]);
        } else {
            assert(right[i - m - 1] == whole[i]);
        }
    }
    assert(left + right =~= whole);
}

/// `used_by` after one record was replaced.
pub proof fn lemma_used_by_update(records: Seq<Seq<u8>>, i: int, data: Seq<u8>)
    requires
        0 <= i < records.len(),
    ensures
        used_by(records.update(i, data)) == used_by(records) - records[i].len() + data.len(),
    decreases records.len(),
{
    let out = records.update(i, data);
    if i == records.len() - 1 {
        assert(out.drop_last() =~= records.drop_last());
    } else {
        assert(out.drop_last() =~= records.drop_last().update(i, data));
        lemma_used_by_update(records.drop_last(), i, data);
    }
}

} // verus!
