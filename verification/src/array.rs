//! The arrays that decoded buffers end up in.

use crate::bitmap::bitmap_bits;
use crate::layout::count_true;
use polars_arrow::array::{Array, DictionaryArray, FixedSizeBinaryArray, PrimitiveArray};
use polars_arrow::bitmap::{Bitmap, MutableBitmap};
use polars_arrow::datatypes::{ArrowDataType, IntegerType};
use polars_error::PolarsError;
use vstd::prelude::*;

verus! {

/// `polars_arrow::bitmap::Bitmap`, a sequence of bits that no longer changes.
#[verifier::external_type_specification]
#[verifier::external_body]
pub struct ExBitmap(Bitmap);

/// `polars_arrow::array::FixedSizeBinaryArray`, an array of byte strings of
/// one width, some of which may be null.
#[verifier::external_type_specification]
#[verifier::external_body]
pub struct ExFixedSizeBinaryArray(FixedSizeBinaryArray);

/// A `polars_arrow::array::DictionaryArray` with keys of 32 bits: an array of
/// keys into an array of entries.
#[verifier::external_body]
pub struct DictionaryEncoded {
    pub array: DictionaryArray<u32>,
}

/// `polars_error::PolarsError`, the error of the array constructors.
#[verifier::external_type_specification]
#[verifier::external_body]
pub struct ExPolarsError(PolarsError);

/// The bits that a bitmap holds, in order.
pub uninterp spec fn frozen_bits(bitmap: Bitmap) -> Seq<bool>;

/// The bytes of the elements of an array, nulls included, in order.
pub uninterp spec fn array_values(array: FixedSizeBinaryArray) -> Seq<u8>;

/// The number of elements of an array, nulls included.
pub uninterp spec fn array_len(array: FixedSizeBinaryArray) -> nat;

/// The validity of an array, one bit for each element; `None` where no
/// element is null.
pub uninterp spec fn array_validity(array: FixedSizeBinaryArray) -> Option<Seq<bool>>;

/// The keys of a dictionary array, in order.
pub uninterp spec fn dictionary_keys(array: DictionaryEncoded) -> Seq<u32>;

/// The validity of the keys of a dictionary array, one bit for each key;
/// `None` where it was made without one.
pub uninterp spec fn dictionary_validity(array: DictionaryEncoded) -> Option<Seq<bool>>;

/// The bytes of the entries that the keys of a dictionary array refer to.
pub uninterp spec fn dictionary_entries(array: DictionaryEncoded) -> Seq<u8>;

/// `Bitmap::len`: the number of bits held.
#[verifier::external_body]
pub(crate) fn frozen_len(bitmap: &Bitmap) -> (len: usize)
    ensures
        len == frozen_bits(*bitmap).len(),
{
    bitmap.len()
}

/// `FixedSizeBinaryArray::new` on the type `FixedSizeBinary(size)`, with
/// `values` and `validity` turned into a buffer and a bitmap by `into`. The
/// constructor panics unless `size` is positive, `values` holds a whole number
/// of elements and the validity, where one is kept, has a bit for each. The
/// conversion of `validity` keeps it only where one of its bits is unset.
#[verifier::external_body]
pub(crate) fn fixed_size_binary_array(
    size: usize,
    values: Vec<u8>,
    validity: MutableBitmap,
) -> (array: FixedSizeBinaryArray)
    requires
        size > 0,
        values@.len() % (size as nat) == 0,
        count_true(bitmap_bits(validity)) < bitmap_bits(validity).len() ==> bitmap_bits(
            validity,
        ).len() * size == values@.len(),
    ensures
        array_values(array) == values@,
        array_len(array) == values@.len() / (size as nat),
        array_validity(array) == if count_true(bitmap_bits(validity)) < bitmap_bits(
            validity,
        ).len() {
            Some(bitmap_bits(validity))
        } else {
            None
        },
{
    FixedSizeBinaryArray::new(ArrowDataType::FixedSizeBinary(size), values.into(), validity.into())
}

/// `DictionaryArray::<u32>::try_new` on `entries` and on keys made by
/// `PrimitiveArray::new`, under the dictionary type of 32-bit keys into the
/// type of `entries`. `PrimitiveArray::new` panics unless `validity`, where
/// there is one, has a bit for each key. `try_new` succeeds where every key is
/// below the number of entries.
#[verifier::external_body]
pub(crate) fn dictionary_array(
    entries: FixedSizeBinaryArray,
    keys: Vec<u32>,
    validity: Option<Bitmap>,
) -> (r: Result<DictionaryEncoded, PolarsError>)
    requires
        validity matches Some(bitmap) ==> frozen_bits(bitmap).len() == keys@.len(),
    ensures
        (forall|i: int| 0 <= i < keys@.len() ==> keys@[i] < array_len(entries)) ==> r is Ok,
        r matches Ok(array) ==> {
            &&& dictionary_keys(array) == keys@
            &&& dictionary_entries(array) == array_values(entries)
            &&& dictionary_validity(array) == match validity {
                Some(bitmap) => Some(frozen_bits(bitmap)),
                None => None,
            }
        },
{
    let values = Box::new(entries.dtype().clone());
    let dtype = ArrowDataType::Dictionary(IntegerType::UInt32, values, false);
    let keys = PrimitiveArray::<u32>::new(ArrowDataType::UInt32, keys.into(), validity);
    match DictionaryArray::try_new(dtype, keys, Box::new(entries)) {
        Ok(array) => Ok(DictionaryEncoded { array }),
        Err(error) => Err(error),
    }
}

} // verus!
