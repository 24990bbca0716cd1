//! Key/value records and their byte encoding.
//!
//! A record is stored in a slot as the key followed by the value, each
//! preceded by its length as a variable-width integer.

use vstd::prelude::*;
use vstd::bytes::{
    lemma_auto_spec_u16_to_from_le_bytes, spec_u16_to_le_bytes, spec_u32_to_le_bytes,
    spec_u64_to_le_bytes,
};
use bincode::Options;

verus! {

/// The variable-width encoding of a length: one byte below 251, otherwise
/// a marker byte followed by the little-endian integer of the smallest
/// width (16, 32 or 64 bits) that holds it.
pub open spec fn varint(n: nat) -> Seq<u8> {
    if n < 251 {
        seq![n as u8]
    } else if n < 0x1_0000 {
        seq![251u8] + spec_u16_to_le_bytes(n as u16)
    } else if n < 0x1_0000_0000 {
        seq![252u8] + spec_u32_to_le_bytes(n as u32)
    } else {
        seq![253u8] + spec_u64_to_le_bytes(n as u64)
    }
}

/// A byte string preceded by its length.
pub open spec fn length_prefixed(s: Seq<u8>) -> Seq<u8> {
    varint(s.len()) + s
}

/// The bytes that stand for the record `(key, value)`.
pub open spec fn pair_encoding(key: Seq<u8>, value: Seq<u8>) -> Seq<u8> {
    length_prefixed(key) + length_prefixed(value)
}

/// `bytes` is the encoding of some record.
pub open spec fn is_pair_encoding(bytes: Seq<u8>) -> bool {
    exists|key: Seq<u8>, value: Seq<u8>| bytes == #[trigger] pair_encoding(key, value)
}

/// The record that `bytes` encodes, if it encodes one.
pub open spec fn pair_decoding(bytes: Seq<u8>) -> (Seq<u8>, Seq<u8>) {
    choose|kv: (Seq<u8>, Seq<u8>)| bytes == #[trigger] pair_encoding(kv.0, kv.1)
}

/// Number of bytes in the encoding of a length below 65536.
pub open spec fn varint_len(n: nat) -> nat {
    if n < 251 {
        1
    } else {
        3
    }
}

/// Number of bytes in the encoding of a record whose key and value are
/// both shorter than 65536 bytes.
pub open spec fn pair_size(key_len: nat, value_len: nat) -> nat {
    varint_len(key_len) + key_len + varint_len(value_len) + value_len
}

/// The encoding of a record of short strings has `pair_size` bytes.
pub proof fn lemma_pair_encoding_len(key: Seq<u8>, value: Seq<u8>)
    requires
        key.len() < 0x1_0000,
        value.len() < 0x1_0000,
    ensures
        pair_encoding(key, value).len() == pair_size(key.len(), value.len()),
{
    lemma_auto_spec_u16_to_from_le_bytes();
}

/// The encoding of a record is at least two bytes longer than the record.
pub proof fn lemma_pair_encoding_longer(key: Seq<u8>, value: Seq<u8>)
    ensures
        pair_encoding(key, value).len() >= key.len() + value.len() + 2,
{
}

proof fn lemma_length_prefixed_injective(a: Seq<u8>, ra: Seq<u8>, b: Seq<u8>, rb: Seq<u8>)
    requires
        length_prefixed(a) + ra == length_prefixed(b) + rb,
        a.len() < 0x1_0000,
        b.len() < 0x1_0000,
    ensures
        a == b,
        ra == rb,
{
    lemma_auto_spec_u16_to_from_le_bytes();
    let s = length_prefixed(a) + ra;
    let t = length_prefixed(b) + rb;
    assert(s[0] == varint(a.len())[0]);
    assert(t[0] == varint(b.len())[0]);
    if a.len() >= 251 {
        assert(b.len() >= 251);
        let ea = spec_u16_to_le_bytes(a.len() as u16);
        let eb = spec_u16_to_le_bytes(b.len() as u16);
        assert(s.subrange(1, 3) =~= ea);
        assert(t.subrange(1, 3) =~= eb);
        assert(a.len() as u16 == b.len() as u16);
    }
    assert(a.len() == b.len());
    let w = varint_len(a.len()) as int;
    assert(s.subrange(w, w + a.len()) =~= a);
    assert(t.subrange(w, w + b.len()) =~= b);
    assert(s.subrange(w + a.len(), s.len() as int) =~= ra);
    assert(t.subrange(w + b.len(), t.len() as int) =~= rb);
}

/// Two records with the same encoding are the same record, for encodings
/// short enough to be stored in a page.
pub proof fn lemma_pair_encoding_injective(k1: Seq<u8>, v1: Seq<u8>, k2: Seq<u8>, v2: Seq<u8>)
    requires
        pair_encoding(k1, v1) == pair_encoding(k2, v2),
        pair_encoding(k1, v1).len() < 0x1_0000,
    ensures
        k1 == k2,
        v1 == v2,
{
    lemma_pair_encoding_longer(k1, v1);
    lemma_pair_encoding_longer(k2, v2);
    lemma_length_prefixed_injective(k1, length_prefixed(v1), k2, length_prefixed(v2));
    assert(length_prefixed(v1) + Seq::<u8>::empty() =~= length_prefixed(v1));
    assert(length_prefixed(v2) + Seq::<u8>::empty() =~= length_prefixed(v2));
    lemma_length_prefixed_injective(v1, Seq::<u8>::empty(), v2, Seq::<u8>::empty());
}

/// Decoding the encoding of a record gives the record back.
pub proof fn lemma_pair_decoding(key: Seq<u8>, value: Seq<u8>)
    requires
        pair_encoding(key, value).len() < 0x1_0000,
    ensures
        is_pair_encoding(pair_encoding(key, value)),
        pair_decoding(pair_encoding(key, value)) == (key, value),
{
    let bytes = pair_encoding(key, value);
    let kv = pair_decoding(bytes);
    assert(bytes == pair_encoding((key, value).0, (key, value).1));
    lemma_pair_encoding_injective(key, value, kv.0, kv.1);
}

/// What `pair_decoding` gives for the encoding of a record encodes back
/// to the same bytes.
pub proof fn lemma_decoding_encodes(bytes: Seq<u8>)
    requires
        is_pair_encoding(bytes),
    ensures
        bytes == pair_encoding(pair_decoding(bytes).0, pair_decoding(bytes).1),
{
    let (key, value) = choose|key: Seq<u8>, value: Seq<u8>|
        bytes == #[trigger] pair_encoding(key, value);
    assert(bytes == pair_encoding((key, value).0, (key, value).1));
}

/// Encodes the record `(key, value)`.
///
/// Trusted: `bincode::Options::serialize` under `bincode::options()`
/// (no size limit, little-endian, variable-width integers) writes a tuple
/// as its elements in order and a byte slice as its length followed by
/// its bytes.  Writing into a `Vec` without a size limit does not fail.
#[verifier::external_body]
fn serialize(key: &[u8], value: &[u8]) -> (r: Option<Vec<u8>>)
    ensures
        r is Some,
        r->0@ == pair_encoding(key@, value@),
{
    bincode::options().serialize(&(key, value)).ok()
}

/// Decodes a record.
///
/// Trusted: `bincode::Options::deserialize` under `bincode::options()`
/// reads back what `serialize` wrote, borrowing key and value from
/// `bytes`, and rejects input with bytes left over.  No two records of
/// byte slices share an encoding, so the record read is the one that was
/// written.  Nothing is promised for input that is not the encoding of a
/// record.
#[verifier::external_body]
fn deserialize<'a>(bytes: &'a [u8]) -> (r: Option<(&'a [u8], &'a [u8])>)
    ensures
        is_pair_encoding(bytes@) ==> r is Some && ((r->0).0@, (r->0).1@) == pair_decoding(bytes@),
{
    bincode::options().deserialize::<(&[u8], &[u8])>(bytes).ok()
}

/// One key/value record, borrowed from the bytes it was read from.
pub struct Pair<'a> {
    pub key: &'a [u8],
    pub value: &'a [u8],
}

impl<'a> Pair<'a> {
    /// The bytes under which the record is stored in a slot.
    pub fn to_bytes(&self) -> (r: Vec<u8>)
        ensures
            r@ == pair_encoding(self.key@, self.value@),
    {
        match serialize(self.key, self.value) {
            Some(bytes) => bytes,
            None => vstd::pervasive::unreached(),
        }
    }

    /// Reads a record back from the bytes of a slot.
    pub fn from_bytes(bytes: &'a [u8]) -> (r: Pair<'a>)
        requires
            is_pair_encoding(bytes@),
        ensures
            (r.key@, r.value@) == pair_decoding(bytes@),
    {
        match deserialize(bytes) {
            Some((key, value)) => Pair { key, value },
            None => vstd::pervasive::unreached(),
        }
    }
}

} // verus!
