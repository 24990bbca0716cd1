//! Pages whose slots hold encoded key/value records, sorted by key.

use vstd::prelude::*;
use crate::btree::pair::{is_pair_encoding, lemma_pair_decoding, pair_decoding, pair_encoding, Pair};
use crate::order::{
    compare, key_le, key_lt, lemma_key_lt_asymmetric, lemma_key_lt_transitive, lemma_lower_bound_unique, search_result, sorted, Rank,
};
use crate::slotted::{capacity_of, slots_of, Slotted};

verus! {

/// A key with its value.
pub type Record = (Seq<u8>, Seq<u8>);

/// The records that the slots `raw` encode.
pub open spec fn decode_all(raw: Seq<Seq<u8>>) -> Seq<Record> {
    raw.map_values(|bytes: Seq<u8>| pair_decoding(bytes))
}

/// The keys of `pairs`, in order.
pub open spec fn keys_of(pairs: Seq<Record>) -> Seq<Seq<u8>> {
    pairs.map_values(|pair: Record| pair.0)
}

/// The largest record that a slotted block `block` accepts: half its body
/// less one pointer, so that two records always fit.
pub open spec fn max_pair_size_of(block: Seq<u8>) -> int {
    capacity_of(block) / 2 - 4
}

/// Every slot of `raw` encodes a record and is no longer than `limit`.
pub open spec fn all_encoded(raw: Seq<Seq<u8>>, limit: int) -> bool {
    forall|i: int|
        0 <= i < raw.len() ==> is_pair_encoding(#[trigger] raw[i]) && raw[i].len() <= limit
}

/// The slotted block `block` holds encoded records in ascending key order.
pub open spec fn wf(block: Seq<u8>) -> bool {
    &&& crate::slotted::wf(block)
    &&& all_encoded(slots_of(block), max_pair_size_of(block))
    &&& sorted(keys_of(decode_all(slots_of(block))))
}

/// Decoding slots after one more encoded record was put in.
pub proof fn lemma_decode_insert(raw: Seq<Seq<u8>>, i: int, key: Seq<u8>, value: Seq<u8>)
    requires
        0 <= i <= raw.len(),
        pair_encoding(key, value).len() < 0x1_0000,
    ensures
        decode_all(raw.insert(i, pair_encoding(key, value))) == decode_all(raw).insert(
            i,
            (key, value),
        ),
        keys_of(decode_all(raw).insert(i, (key, value))) == keys_of(decode_all(raw)).insert(i, key),
{
    lemma_pair_decoding(key, value);
    assert(decode_all(raw.insert(i, pair_encoding(key, value))) =~= decode_all(raw).insert(
        i,
        (key, value),
    ));
    assert(keys_of(decode_all(raw).insert(i, (key, value))) =~= keys_of(decode_all(raw)).insert(
        i,
        key,
    ));
}

/// The record in slot `index` of `body`.
pub fn record_at<'a>(body: &'a Slotted, index: usize) -> (r: Pair<'a>)
    requires
        wf(body@),
        index < slots_of(body@).len(),
    ensures
        (r.key@, r.value@) == decode_all(slots_of(body@))[index as int],
{
    Pair::from_bytes(body.slot(index))
}

/// Binary search for `key` among the records of `body`.
pub fn search(body: &Slotted, key: &[u8]) -> (r: Result<usize, usize>)
    requires
        wf(body@),
    ensures
        r == search_result(keys_of(decode_all(slots_of(body@))), key@),
{
    let ghost keys = keys_of(decode_all(slots_of(body@)));
    let mut low: usize = 0;
    let mut high: usize = body.num_slots();
    while low < high
        invariant
            wf(body@),
            keys == keys_of(decode_all(slots_of(body@))),
            low <= high <= keys.len(),
            forall|j: int| 0 <= j < low ==> key_lt(#[trigger] keys[j], key@),
            forall|j: int| high <= j < keys.len() ==> key_lt(key@, #[trigger] keys[j]),
        decreases high - low,
    {
        let mid: usize = low + (high - low) / 2;
        let pair = record_at(body, mid);
        assert(pair.key@ == keys[mid as int]);
        match compare(pair.key, key) {
            Rank::Less => {
                proof {
                    assert forall|j: int| 0 <= j < mid + 1 implies key_lt(
                        #[trigger] keys[j],
                        key@,
                    ) by {
                        if j < mid {
                            lemma_key_lt_transitive(keys[j], keys[mid as int], key@);
                        }
                    }
                }
                low = mid + 1;
            },
            Rank::Equal => {
                proof {
                    assert forall|j: int| mid < j < keys.len() implies key_le(
                        key@,
                        #[trigger] keys[j],
                    ) by {}
                    lemma_lower_bound_unique(keys, key@, mid as int);
                }
                return Ok(mid);
            },
            Rank::Greater => {
                proof {
                    crate::order::lemma_key_lt_total(keys[mid as int], key@);
                    assert forall|j: int| mid <= j < keys.len() implies key_lt(
                        key@,
                        #[trigger] keys[j],
                    ) by {
                        if j > mid {
                            lemma_key_lt_transitive(key@, keys[mid as int], keys[j]);
                        }
                    }
                }
                high = mid;
            },
        }
    }
    proof {
        lemma_lower_bound_unique(keys, key@, low as int);
        if low < keys.len() {
            lemma_key_lt_asymmetric(key@, keys[low as int]);
        }
    }
    Err(low)
}

} // verus!
