//! The order of keys: byte strings compared lexicographically.

use vstd::prelude::*;

verus! {

/// Outcome of comparing two keys.
#[derive(Clone, Copy, Debug, PartialEq, Eq, Structural)]
pub enum Rank {
    Less,
    Equal,
    Greater,
}

/// `a` sorts before `b` when only the bytes from index `i` on are looked at.
pub open spec fn lt_from(a: Seq<u8>, b: Seq<u8>, i: int) -> bool
    decreases a.len() - i,
{
    if i < 0 || i >= b.len() {
        false
    } else if i >= a.len() {
        true
    } else if a[i] != b[i] {
        a[i] < b[i]
    } else {
        lt_from(a, b, i + 1)
    }
}

/// `a` sorts strictly before `b` in lexicographic byte order: at the first
/// index where they differ `a` has the smaller byte, or `a` is a proper
/// prefix of `b`.
pub open spec fn key_lt(a: Seq<u8>, b: Seq<u8>) -> bool {
    lt_from(a, b, 0)
}

/// `a` sorts before `b` or equals it.
pub open spec fn key_le(a: Seq<u8>, b: Seq<u8>) -> bool {
    a == b || key_lt(a, b)
}

/// The rank of `a` relative to `b`.
pub open spec fn rank_of(a: Seq<u8>, b: Seq<u8>) -> Rank {
    if key_lt(a, b) {
        Rank::Less
    } else if a == b {
        Rank::Equal
    } else {
        Rank::Greater
    }
}

proof fn lemma_trans_from(a: Seq<u8>, b: Seq<u8>, c: Seq<u8>, i: int)
    requires
        0 <= i,
        lt_from(a, b, i),
        lt_from(b, c, i),
    ensures
        lt_from(a, c, i),
    decreases a.len() - i,
{
    if i < a.len() && a[i] == b[i] && b[i] == c[i] {
        lemma_trans_from(a, b, c, i + 1);
    }
}

proof fn lemma_asym_from(a: Seq<u8>, b: Seq<u8>, i: int)
    requires
        0 <= i,
        lt_from(a, b, i),
    ensures
        !lt_from(b, a, i),
    decreases a.len() - i,
{
    if i < a.len() && a[i] == b[i] {
        lemma_asym_from(a, b, i + 1);
    }
}

proof fn lemma_total_from(a: Seq<u8>, b: Seq<u8>, i: int)
    requires
        0 <= i <= a.len(),
        i <= b.len(),
        !lt_from(a, b, i),
        !lt_from(b, a, i),
    ensures
        a.len() == b.len(),
        forall|j: int| i <= j < a.len() ==> a[j] == b[j],
    decreases a.len() - i,
{
    if i < a.len() && i < b.len() {
        lemma_total_from(a, b, i + 1);
    }
}

/// The order is transitive.
pub proof fn lemma_key_lt_transitive(a: Seq<u8>, b: Seq<u8>, c: Seq<u8>)
    requires
        key_lt(a, b),
        key_lt(b, c),
    ensures
        key_lt(a, c),
{
    lemma_trans_from(a, b, c, 0);
}

/// No key sorts before itself, and two keys never sort before each other.
pub proof fn lemma_key_lt_asymmetric(a: Seq<u8>, b: Seq<u8>)
    requires
        key_lt(a, b),
    ensures
        !key_lt(b, a),
        a != b,
{
    lemma_asym_from(a, b, 0);
}

/// Any two keys are equal or one sorts before the other.
pub proof fn lemma_key_lt_total(a: Seq<u8>, b: Seq<u8>)
    ensures
        key_lt(a, b) || a == b || key_lt(b, a),
{
    if !key_lt(a, b) && !key_lt(b, a) {
        lemma_total_from(a, b, 0);
        assert(a =~= b);
    }
}

/// `a <= b < c` gives `a < c`.
pub proof fn lemma_key_le_lt(a: Seq<u8>, b: Seq<u8>, c: Seq<u8>)
    requires
        key_le(a, b),
        key_lt(b, c),
    ensures
        key_lt(a, c),
{
    if a != b {
        lemma_key_lt_transitive(a, b, c);
    }
}

/// `a < b <= c` gives `a < c`.
pub proof fn lemma_key_lt_le(a: Seq<u8>, b: Seq<u8>, c: Seq<u8>)
    requires
        key_lt(a, b),
        key_le(b, c),
    ensures
        key_lt(a, c),
{
    if b != c {
        lemma_key_lt_transitive(a, b, c);
    }
}

/// `a <= b <= c` gives `a <= c`.
pub proof fn lemma_key_le_transitive(a: Seq<u8>, b: Seq<u8>, c: Seq<u8>)
    requires
        key_le(a, b),
        key_le(b, c),
    ensures
        key_le(a, c),
{
    if a != b && b != c {
        lemma_key_lt_transitive(a, b, c);
    }
}

/// `a` does not sort before `b` exactly when `b <= a`.
pub proof fn lemma_not_lt_is_ge(a: Seq<u8>, b: Seq<u8>)
    ensures
        !key_lt(a, b) <==> key_le(b, a),
{
    lemma_key_lt_total(a, b);
    if key_lt(a, b) {
        lemma_key_lt_asymmetric(a, b);
    }
}

/// The empty key is the least key.
pub proof fn lemma_empty_is_least(a: Seq<u8>)
    ensures
        key_le(Seq::<u8>::empty(), a),
{
    if a.len() == 0 {
        assert(a =~= Seq::<u8>::empty());
    }
}

/// The keys are in strictly ascending order.
pub open spec fn sorted(keys: Seq<Seq<u8>>) -> bool {
    forall|i: int, j: int| 0 <= i < j < keys.len() ==> key_lt(#[trigger] keys[i], #[trigger] keys[j])
}

/// Number of keys at the front of `keys` that sort before `key`; in a
/// sorted sequence, the position of the first key that does not.
pub open spec fn lower_bound(keys: Seq<Seq<u8>>, key: Seq<u8>) -> int
    decreases keys.len(),
{
    if keys.len() == 0 {
        0
    } else if key_lt(keys.last(), key) {
        keys.len() as int
    } else {
        lower_bound(keys.drop_last(), key)
    }
}

/// What a search for `key` among sorted `keys` finds: `Ok` with the
/// position of `key`, or `Err` with the position where it would go.
pub open spec fn search_result(keys: Seq<Seq<u8>>, key: Seq<u8>) -> Result<usize, usize> {
    let i = lower_bound(keys, key);
    if i < keys.len() && keys[i] == key {
        Ok(i as usize)
    } else {
        Err(i as usize)
    }
}

/// Index of the child that a search for `key` descends into, in a branch
/// with separators `keys`: a key equal to a separator goes to its right.
pub open spec fn child_index_of(keys: Seq<Seq<u8>>, key: Seq<u8>) -> usize {
    match search_result(keys, key) {
        Ok(i) => (i + 1) as usize,
        Err(i) => i,
    }
}

/// The lower bound is a position in the sequence or its end.
pub proof fn lemma_lower_bound_range(keys: Seq<Seq<u8>>, key: Seq<u8>)
    ensures
        0 <= lower_bound(keys, key) <= keys.len(),
    decreases keys.len(),
{
    if keys.len() > 0 && !key_lt(keys.last(), key) {
        lemma_lower_bound_range(keys.drop_last(), key);
    }
}

/// In a sorted sequence the lower bound splits the keys into those that
/// sort before `key` and those that do not.
pub proof fn lemma_lower_bound(keys: Seq<Seq<u8>>, key: Seq<u8>)
    requires
        sorted(keys),
    ensures
        0 <= lower_bound(keys, key) <= keys.len(),
        forall|j: int| 0 <= j < lower_bound(keys, key) ==> key_lt(#[trigger] keys[j], key),
        forall|j: int| lower_bound(keys, key) <= j < keys.len() ==> key_le(key, #[trigger] keys[j]),
    decreases keys.len(),
{
    if keys.len() > 0 {
        if key_lt(keys.last(), key) {
            assert forall|j: int| 0 <= j < keys.len() implies key_lt(#[trigger] keys[j], key) by {
                if j < keys.len() - 1 {
                    lemma_key_lt_transitive(keys[j], keys.last(), key);
                }
            }
        } else {
            let front = keys.drop_last();
            assert(forall|i: int| 0 <= i < front.len() ==> front[i] == keys[i]);
            lemma_lower_bound(front, key);
            lemma_not_lt_is_ge(keys.last(), key);
        }
    }
}

/// A position that splits sorted keys the way the lower bound does is the
/// lower bound.
pub proof fn lemma_lower_bound_unique(keys: Seq<Seq<u8>>, key: Seq<u8>, i: int)
    requires
        sorted(keys),
        0 <= i <= keys.len(),
        forall|j: int| 0 <= j < i ==> key_lt(#[trigger] keys[j], key),
        forall|j: int| i <= j < keys.len() ==> key_le(key, #[trigger] keys[j]),
    ensures
        lower_bound(keys, key) == i,
{
    lemma_lower_bound(keys, key);
    let b = lower_bound(keys, key);
    if b < i {
        lemma_not_lt_is_ge(keys[b], key);
    } else if i < b {
        lemma_not_lt_is_ge(keys[i], key);
    }
}

/// A search among sorted keys says `Ok` exactly when the key is there, and
/// then with its position.
pub proof fn lemma_search_result(keys: Seq<Seq<u8>>, key: Seq<u8>)
    requires
        sorted(keys),
        keys.len() <= usize::MAX,
    ensures
        search_result(keys, key) is Ok <==> keys.contains(key),
        search_result(keys, key) matches Ok(i) ==> i < keys.len() && keys[i as int] == key && i
            == lower_bound(keys, key),
        search_result(keys, key) matches Err(i) ==> i <= keys.len() && i == lower_bound(keys, key),
{
    lemma_lower_bound(keys, key);
    let b = lower_bound(keys, key);
    if keys.contains(key) {
        let j = choose|j: int| 0 <= j < keys.len() && keys[j] == key;
        if j < b {
            lemma_key_lt_asymmetric(keys[j], key);
        } else if j > b {
            lemma_key_le_lt(key, keys[b], keys[j]);
            lemma_key_lt_asymmetric(key, keys[j]);
        }
    }
}

/// A key is among sorted keys exactly when it stands at its lower bound.
pub proof fn lemma_contains_at_lower_bound(keys: Seq<Seq<u8>>, key: Seq<u8>)
    requires
        sorted(keys),
    ensures
        keys.contains(key) <==> lower_bound(keys, key) < keys.len() && keys[lower_bound(keys, key)]
            == key,
{
    lemma_lower_bound(keys, key);
    let b = lower_bound(keys, key);
    if keys.contains(key) {
        let j = choose|j: int| 0 <= j < keys.len() && keys[j] == key;
        if j < b {
            lemma_key_lt_asymmetric(keys[j], key);
        } else if j > b {
            lemma_key_le_lt(key, keys[b], keys[j]);
            lemma_key_lt_asymmetric(key, keys[j]);
        }
    }
}

/// Putting a new key at its lower bound keeps the keys sorted.
pub proof fn lemma_sorted_insert(keys: Seq<Seq<u8>>, key: Seq<u8>)
    requires
        sorted(keys),
        !keys.contains(key),
    ensures
        sorted(keys.insert(lower_bound(keys, key), key)),
{
    lemma_lower_bound(keys, key);
    let i = lower_bound(keys, key);
    let out = keys.insert(i, key);
    assert forall|a: int, b: int| 0 <= a < b < out.len() implies key_lt(
        #[trigger] out[a],
        #[trigger] out[b],
    ) by {
        if b == i {
            assert(out[a] == keys[a]);
        } else if a == i {
            assert(out[b] == keys[b - 1]);
            assert(keys.contains(keys[b - 1]));
        } else {
            let a0 = if a < i { a } else { a - 1 };
            let b0 = if b < i { b } else { b - 1 };
            assert(out[a] == keys[a0]);
            assert(out[b] == keys[b0]);
        }
    }
}

/// Putting a key between its two neighbours keeps the keys sorted.
pub proof fn lemma_sorted_insert_at(keys: Seq<Seq<u8>>, i: int, key: Seq<u8>)
    requires
        sorted(keys),
        0 <= i <= keys.len(),
        i > 0 ==> key_lt(keys[i - 1], key),
        i < keys.len() ==> key_lt(key, keys[i]),
    ensures
        sorted(keys.insert(i, key)),
{
    let out = keys.insert(i, key);
    assert forall|a: int, b: int| 0 <= a < b < out.len() implies key_lt(
        #[trigger] out[a],
        #[trigger] out[b],
    ) by {
        if b == i {
            assert(out[a] == keys[a]);
            if a < i - 1 {
                lemma_key_lt_transitive(keys[a], keys[i - 1], key);
            }
        } else if a == i {
            assert(out[b] == keys[b - 1]);
            if b - 1 > i {
                lemma_key_lt_transitive(key, keys[i], keys[b - 1]);
            }
        } else {
            let a0 = if a < i { a } else { a - 1 };
            let b0 = if b < i { b } else { b - 1 };
            assert(out[a] == keys[a0]);
            assert(out[b] == keys[b0]);
        }
    }
}

/// Compares two keys byte by byte.
pub fn compare(a: &[u8], b: &[u8]) -> (r: Rank)
    ensures
        r == rank_of(a@, b@),
{
    let mut i: usize = 0;
    while i < a.len() && i < b.len()
        invariant
            i <= a@.len(),
            i <= b@.len(),
            forall|j: int| 0 <= j < i ==> a@[j] == b@[j],
            lt_from(a@, b@, 0) == lt_from(a@, b@, i as int),
            lt_from(b@, a@, 0) == lt_from(b@, a@, i as int),
        decreases a@.len() - i,
    {
        if a[i] < b[i] {
            proof {
                lemma_key_lt_asymmetric(a@, b@);
            }
            return Rank::Less;
        }
        if a[i] > b[i] {
            proof {
                lemma_key_lt_asymmetric(b@, a@);
            }
            return Rank::Greater;
        }
        i += 1;
    }
    if i < b.len() {
        proof {
            lemma_key_lt_asymmetric(a@, b@);
        }
        Rank::Less
    } else if i < a.len() {
        proof {
            lemma_key_lt_asymmetric(b@, a@);
        }
        Rank::Greater
    } else {
        assert(a@ =~= b@);
        proof {
            if key_lt(a@, b@) {
                lemma_key_lt_asymmetric(a@, b@);
            }
        }
        Rank::Equal
    }
}

} // verus!
