//! The validity bitmap of a column under construction.

use crate::layout::count_true;
use polars_arrow::bitmap::MutableBitmap;
use vstd::prelude::*;

verus! {

/// `polars_arrow::bitmap::MutableBitmap`, a growable sequence of bits.
#[verifier::external_type_specification]
#[verifier::external_body]
pub struct ExMutableBitmap(MutableBitmap);

/// The bits that a bitmap holds, first pushed first.
pub uninterp spec fn bitmap_bits(bitmap: MutableBitmap) -> Seq<bool>;

/// `MutableBitmap::with_capacity`: an empty bitmap with room for `capacity`
/// bits.
#[verifier::external_body]
pub(crate) fn bitmap_with_capacity(capacity: usize) -> (bitmap: MutableBitmap)
    ensures
        bitmap_bits(bitmap) == Seq::<bool>::empty(),
{
    MutableBitmap::with_capacity(capacity)
}

/// `MutableBitmap::len`: the number of bits held.
#[verifier::external_body]
pub(crate) fn bitmap_len(bitmap: &MutableBitmap) -> (len: usize)
    ensures
        len == bitmap_bits(*bitmap).len(),
{
    bitmap.len()
}

/// `MutableBitmap::extend_constant`: appends `additional` copies of `value`.
/// The length is kept in a `usize`, so the new length must fit in one.
#[verifier::external_body]
pub(crate) fn bitmap_extend_constant(bitmap: &mut MutableBitmap, additional: usize, value: bool)
    requires
        bitmap_bits(*old(bitmap)).len() + additional <= usize::MAX,
    ensures
        bitmap_bits(*final(bitmap)) == bitmap_bits(*old(bitmap)) + Seq::new(
            additional as nat,
            |i: int| value,
        ),
{
    bitmap.extend_constant(additional, value)
}

/// `MutableBitmap::unset_bits`: the number of bits that are not set.
#[verifier::external_body]
pub(crate) fn bitmap_unset_bits(bitmap: &MutableBitmap) -> (unset: usize)
    ensures
        unset == bitmap_bits(*bitmap).len() - count_true(bitmap_bits(*bitmap)),
{
    bitmap.unset_bits()
}

} // verus!
