//! Fixed-width little-endian integers inside a page.
//!
//! Page headers and slot pointers are stored as little-endian integers at
//! byte offsets that need not be aligned.  The four functions here read
//! and write them through `zerocopy`'s byte-order aware integer types.

use vstd::prelude::*;
use vstd::bytes::{
    spec_u16_from_le_bytes, spec_u16_to_le_bytes, spec_u64_from_le_bytes, spec_u64_to_le_bytes,
};
use byteorder::LittleEndian;
use zerocopy::{AsBytes, LayoutVerified, U16, U64};

verus! {

/// Reads a little-endian `u64` from the first eight bytes of `bytes`.
///
/// Trusted: `zerocopy::LayoutVerified::new_unaligned_from_prefix` splits
/// off the first `size_of::<U64<LittleEndian>>()` = 8 bytes when there are
/// that many and returns `None` otherwise; `U64::<LittleEndian>::get`
/// decodes them as a little-endian integer.
#[verifier::external_body]
pub(crate) fn read_u64(bytes: &[u8]) -> (r: Option<u64>)
    ensures
        bytes@.len() < 8 ==> r is None,
        bytes@.len() >= 8 ==> r == Some(spec_u64_from_le_bytes(bytes@.subrange(0, 8))),
{
    match LayoutVerified::<&[u8], U64<LittleEndian>>::new_unaligned_from_prefix(bytes) {
        Some((number, _)) => Some(number.get()),
        None => None,
    }
}

/// The eight bytes of `n` in little-endian order.
///
/// Trusted: `zerocopy::U64::<LittleEndian>::new` stores `n` in
/// little-endian byte order and `zerocopy::AsBytes::as_bytes` exposes
/// those eight bytes.
#[verifier::external_body]
pub(crate) fn write_u64(n: u64) -> (r: Vec<u8>)
    ensures
        r@ == spec_u64_to_le_bytes(n),
{
    U64::<LittleEndian>::new(n).as_bytes().to_vec()
}

/// Reads a little-endian `u16` from the first two bytes of `bytes`.
///
/// Trusted: `zerocopy::LayoutVerified::new_unaligned_from_prefix` splits
/// off the first two bytes when there are that many and returns `None`
/// otherwise; `U16::<LittleEndian>::get` decodes them as a little-endian
/// integer.
#[verifier::external_body]
pub(crate) fn read_u16(bytes: &[u8]) -> (r: Option<u16>)
    ensures
        bytes@.len() < 2 ==> r is None,
        bytes@.len() >= 2 ==> r == Some(spec_u16_from_le_bytes(bytes@.subrange(0, 2))),
{
    match LayoutVerified::<&[u8], U16<LittleEndian>>::new_unaligned_from_prefix(bytes) {
        Some((number, _)) => Some(number.get()),
        None => None,
    }
}

/// The two bytes of `n` in little-endian order.
///
/// Trusted: `zerocopy::U16::<LittleEndian>::new` stores `n` in
/// little-endian byte order and `zerocopy::AsBytes::as_bytes` exposes
/// those two bytes.
#[verifier::external_body]
pub(crate) fn write_u16(n: u16) -> (r: Vec<u8>)
    ensures
        r@ == spec_u16_to_le_bytes(n),
{
    U16::<LittleEndian>::new(n).as_bytes().to_vec()
}

/// Reads the little-endian `u64` stored at `offset`.
pub fn get_u64(bytes: &[u8], offset: usize) -> (r: u64)
    requires
        offset + 8 <= bytes@.len(),
    ensures
        r == spec_u64_from_le_bytes(bytes@.subrange(offset as int, offset + 8)),
{
    let tail = vstd::slice::slice_subrange(bytes, offset, bytes.len());
    assert(tail@.subrange(0, 8) =~= bytes@.subrange(offset as int, offset + 8));
    match read_u64(tail) {
        Some(n) => n,
        None => vstd::pervasive::unreached(),
    }
}

/// Reads the little-endian `u16` stored at `offset`.
pub fn get_u16(bytes: &[u8], offset: usize) -> (r: u16)
    requires
        offset + 2 <= bytes@.len(),
    ensures
        r == spec_u16_from_le_bytes(bytes@.subrange(offset as int, offset + 2)),
{
    let tail = vstd::slice::slice_subrange(bytes, offset, bytes.len());
    assert(tail@.subrange(0, 2) =~= bytes@.subrange(offset as int, offset + 2));
    match read_u16(tail) {
        Some(n) => n,
        None => vstd::pervasive::unreached(),
    }
}

/// Appends the eight little-endian bytes of `n` to `out`.
pub fn put_u64(out: &mut Vec<u8>, n: u64)
    ensures
        final(out)@ == old(out)@ + spec_u64_to_le_bytes(n),
{
    let encoded = write_u64(n);
    out.extend_from_slice(encoded.as_slice());
    assert(out@ =~= old(out)@ + spec_u64_to_le_bytes(n));
}

/// Appends the two little-endian bytes of `n` to `out`.
pub fn put_u16(out: &mut Vec<u8>, n: u16)
    ensures
        final(out)@ == old(out)@ + spec_u16_to_le_bytes(n),
{
    let encoded = write_u16(n);
    out.extend_from_slice(encoded.as_slice());
    assert(out@ =~= old(out)@ + spec_u16_to_le_bytes(n));
}

/// Appends the bytes `src[from..to]` to `out`.
pub fn put_range(out: &mut Vec<u8>, src: &[u8], from: usize, to: usize)
    requires
        from <= to <= src@.len(),
    ensures
        final(out)@ == old(out)@ + src@.subrange(from as int, to as int),
{
    let part = vstd::slice::slice_subrange(src, from, to);
    out.extend_from_slice(part);
    assert(out@ =~= old(out)@ + src@.subrange(from as int, to as int));
}

} // verus!
