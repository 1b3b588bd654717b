//! Pages as the decoder receives them: the encoded values of a column chunk.

use crate::error::DecodeError;
use crate::hybrid_rle::{stream, HybridRleDecoder, MAX_BITS};
use vstd::math::min;
use vstd::prelude::*;

verus! {

/// How the values of a page are encoded.
#[derive(Clone, Copy, Debug, PartialEq, Eq, Structural)]
pub enum Encoding {
    /// The values lie one after the other.
    Plain,
    /// Indices into a dictionary; the older name of `RleDictionary`.
    PlainDictionary,
    Rle,
    BitPacked,
    DeltaBinaryPacked,
    DeltaLengthByteArray,
    DeltaByteArray,
    /// Indices into a dictionary, as a hybrid of run-length and bit-packed runs.
    RleDictionary,
    ByteStreamSplit,
}

/// A page of values.
pub struct DataPage {
    pub encoding: Encoding,
    /// The encoded values.
    pub buffer: Vec<u8>,
    /// The number of positions in the page, nulls included.
    pub num_values: usize,
}

impl DataPage {
    pub fn encoding(&self) -> (encoding: Encoding)
        ensures
            encoding == self.encoding,
    {
        self.encoding
    }

    pub fn num_values(&self) -> (n: usize)
        ensures
            n == self.num_values,
    {
        self.num_values
    }
}

/// A page of dictionary entries, one after the other.
pub struct DictPage {
    pub buffer: Vec<u8>,
    pub num_values: usize,
    pub is_sorted: bool,
}

/// The dictionary indices that a page of `num_values` positions holds in
/// `buffer`: the width of an index in bits comes first, in one byte, and the
/// stream of indices behind it. A page holds an index for each position with
/// a value, so the stream may hold fewer than `num_values`; of a longer one
/// the first `num_values` count. `None` where the width is missing or above
/// 32.
pub open spec fn dict_indices(buffer: Seq<u8>, num_values: nat) -> Option<Seq<u32>> {
    if buffer.len() == 0 || buffer[0] > MAX_BITS {
        None
    } else {
        let indices = stream(buffer.skip(1), 0, buffer[0] as nat);
        Some(indices.take(min(num_values as int, indices.len() as int)))
    }
}

/// A cursor over the dictionary indices of `page`.
pub fn dict_indices_decoder<'a>(page: &'a DataPage) -> (r: Result<HybridRleDecoder<'a>, DecodeError>)
    ensures
        match r {
            Ok(decoder) => decoder.wf() && dict_indices(page.buffer@, page.num_values as nat)
                == Some(decoder@),
            Err(error) => error == DecodeError::OutOfSpec && dict_indices(
                page.buffer@,
                page.num_values as nat,
            ) is None,
        },
{
    let buffer = page.buffer.as_slice();
    if buffer.len() == 0 {
        return Err(DecodeError::OutOfSpec);
    }
    let bit_width = buffer[0];
    let indices = vstd::slice::slice_subrange(buffer, 1, buffer.len());
    assert(indices@ =~= page.buffer@.skip(1));
    HybridRleDecoder::try_new(indices, bit_width as usize, page.num_values)
}

} // verus!
