//! Reading bytes as pages of 64 bytes, pages as bytes, and bytes as colors.

use vstd::prelude::*;

verus! {

/// Reads bytes as pages, by `bytemuck::cast_slice` from `u8` to `[u8; 64]`.
///
/// The call is trusted to split the bytes into consecutive pages. It panics where the bytes are
/// no whole number of pages; the alignment of a page is that of a byte.
#[verifier::external_body]
pub(crate) fn pages_of_bytes(bytes: &[u8]) -> (r: &[[u8; 64]])
    requires
        bytes@.len() % 64 == 0,
    ensures
        r@.len() * 64 == bytes@.len(),
        forall|p: int, i: int|
            0 <= p < r@.len() && 0 <= i < 64 ==> #[trigger] r@[p]@[i] == bytes@[p * 64 + i],
{
    bytemuck::cast_slice(bytes)
}

/// Reads pages as bytes, by `bytemuck::cast_slice` from `[u8; 64]` to `u8`.
///
/// The call is trusted to give the bytes of the pages, one page after the other.
#[verifier::external_body]
pub(crate) fn bytes_of_pages(pages: &[[u8; 64]]) -> (r: &[u8])
    ensures
        r@.len() == pages@.len() * 64,
        forall|k: int| 0 <= k < r@.len() ==> #[trigger] r@[k] == pages@[k / 64]@[k % 64],
{
    bytemuck::cast_slice(pages)
}

/// Borrows 64 bytes as one page, by `bytemuck::from_bytes_mut`.
///
/// The call is trusted to hand out the same bytes, so that what is written to the page is
/// written to them. It panics where there are not 64 of them.
#[verifier::external_body]
pub(crate) fn page_of_bytes_mut(bytes: &mut [u8]) -> (r: &mut [u8; 64])
    requires
        old(bytes)@.len() == 64,
    ensures
        r@ == old(bytes)@,
        final(bytes)@ == final(r)@,
{
    bytemuck::from_bytes_mut(bytes)
}

/// Reads bytes as colors, by `bytemuck::cast_slice` from `u8` to `[u8; 4]`.
///
/// The call is trusted to split the bytes into consecutive colors. It panics where the bytes are no
/// whole number of colors; the alignment of a color is that of a byte.
#[verifier::external_body]
pub(crate) fn colors_of_bytes(bytes: &[u8]) -> (r: &[[u8; 4]])
    requires
        bytes@.len() % 4 == 0,
    ensures
        r@.len() * 4 == bytes@.len(),
        forall|p: int, i: int|
            0 <= p < r@.len() && 0 <= i < 4 ==> #[trigger] r@[p]@[i] == bytes@[p * 4 + i],
{
    bytemuck::cast_slice(bytes)
}

/// Borrows bytes as colors, by `bytemuck::cast_slice_mut` from `u8` to `[u8; 4]`.
///
/// The call is trusted to hand out the same bytes, split into consecutive colors, so that what is
/// written to the colors is written to them. It panics where the bytes are no whole number of
/// colors.
#[verifier::external_body]
pub(crate) fn colors_of_bytes_mut(bytes: &mut [u8]) -> (r: &mut [[u8; 4]])
    requires
        old(bytes)@.len() % 4 == 0,
    ensures
        r@.len() * 4 == old(bytes)@.len(),
        forall|p: int, i: int|
            0 <= p < r@.len() && 0 <= i < 4 ==> #[trigger] r@[p]@[i] == old(bytes)@[p * 4 + i],
        final(bytes)@.len() == old(bytes)@.len(),
        final(r)@.len() == r@.len() ==> forall|k: int|
            0 <= k < final(bytes)@.len() ==> #[trigger] final(bytes)@[k] == final(r)@[k / 4]@[k % 4],
{
    bytemuck::cast_slice_mut(bytes)
}

} // verus!
