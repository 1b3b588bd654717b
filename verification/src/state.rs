//! The cursor over the values of one page, by the page's encoding.

use crate::bitmap::bitmap_bits;
use crate::decoder::{
    aligned, buffers, dictionary_merged, dictionary_values, plain_merged, plain_values,
    BinaryDecoder, DecodedState,
};
use crate::error::DecodeError;
use crate::hybrid_rle::HybridRleDecoder;
use crate::layout::{count_true, whole_elements};
use crate::page::{dict_indices, dict_indices_decoder, DataPage, Encoding};
use crate::validity::PageValidity;
use vstd::math::min;
use vstd::prelude::*;
use vstd::slice::slice_subrange;

verus! {

/// The values of a page that are still to decode.
pub enum StateTranslation<'a> {
    /// Plain values that lie one after the other, and their width in bytes.
    Plain(&'a [u8], usize),
    /// Indices into a dictionary, and the dictionary.
    Dictionary(HybridRleDecoder<'a>, &'a Vec<u8>),
}

impl<'a> StateTranslation<'a> {
    /// Whether the cursor is in a state that its methods accept.
    pub open spec fn wf(&self) -> bool {
        match self {
            StateTranslation::Plain(_, size) => *size > 0,
            StateTranslation::Dictionary(indices, _) => indices.wf(),
        }
    }

    /// The number of values that the cursor has left.
    pub open spec fn values_left(&self) -> nat {
        match self {
            StateTranslation::Plain(values, size) => whole_elements(values@, *size as nat),
            StateTranslation::Dictionary(indices, _) => indices@.len(),
        }
    }

    /// The cursor at the start of `page`.
    ///
    /// A plain page must hold a whole number of elements. A page of
    /// dictionary indices needs `dict` and must give the width of its
    /// indices; the cursor is over as many indices as the page has
    /// positions, or over all that it holds if they are fewer, as they are
    /// where a position is null. No other encoding is decoded.
    pub fn new(
        decoder: &BinaryDecoder,
        page: &'a DataPage,
        dict: Option<&'a Vec<u8>>,
        _page_validity: Option<&PageValidity>,
    ) -> (r: Result<StateTranslation<'a>, DecodeError>)
        requires
            decoder.size > 0,
        ensures
            r matches Ok(state) ==> state.wf(),
            match page.encoding {
                Encoding::Plain => if page.buffer@.len() % (decoder.size as nat) == 0 {
                    r matches Ok(StateTranslation::Plain(values, size)) && values@ == page.buffer@
                        && size == decoder.size
                } else {
                    r matches Err(DecodeError::MalformedPage)
                },
                Encoding::PlainDictionary | Encoding::RleDictionary => match dict {
                    Some(entries) => match dict_indices(page.buffer@, page.num_values as nat) {
                        Some(values) => r matches Ok(StateTranslation::Dictionary(indices, held))
                            && indices@ == values && held == entries,
                        None => r matches Err(DecodeError::OutOfSpec),
                    },
                    None => r matches Err(DecodeError::NotImplemented),
                },
                _ => r matches Err(DecodeError::NotImplemented),
            },
    {
        match page.encoding() {
            Encoding::Plain => {
                let values = page.buffer.as_slice();
                if values.len() % decoder.size != 0 {
                    return Err(DecodeError::MalformedPage);
                }
                Ok(StateTranslation::Plain(values, decoder.size))
            },
            Encoding::PlainDictionary | Encoding::RleDictionary => match dict {
                Some(entries) => {
                    let values = dict_indices_decoder(page)?;
                    Ok(StateTranslation::Dictionary(values, entries))
                },
                None => Err(DecodeError::NotImplemented),
            },
            _ => Err(DecodeError::NotImplemented),
        }
    }

    /// The number of positions left in a page without nulls.
    pub fn len_when_not_nullable(&self) -> (len: usize)
        requires
            self.wf(),
        ensures
            len == self.values_left(),
    {
        match self {
            StateTranslation::Plain(values, size) => values.len() / *size,
            StateTranslation::Dictionary(indices, _) => indices.len(),
        }
    }

    /// Passes over the values of the next `n` positions, or over all that
    /// are left if they are fewer.
    pub fn skip_in_place(&mut self, n: usize) -> (r: Result<(), DecodeError>)
        requires
            old(self).wf(),
        ensures
            r is Ok,
            final(self).wf(),
            match *old(self) {
                StateTranslation::Plain(values, size) => {
                    &&& *final(self) matches StateTranslation::Plain(left, width)
                    &&& width == size
                    &&& left@ == values@.skip(min(values@.len() as int, n * size))
                },
                StateTranslation::Dictionary(indices, dict) => {
                    &&& *final(self) matches StateTranslation::Dictionary(left, held)
                    &&& held == dict
                    &&& left@ == indices@.skip(min(indices@.len() as int, n as int))
                },
            },
    {
        if n == 0 {
            proof {
                match *self {
                    StateTranslation::Plain(values, size) => {
                        assert(0 * size == 0) by (nonlinear_arith);
                        assert(values@.skip(0) =~= values@);
                    },
                    StateTranslation::Dictionary(indices, _) => {
                        assert(indices@.skip(0) =~= indices@);
                    },
                }
            }
            return Ok(());
        }
        match self {
            StateTranslation::Plain(values, size) => {
                let start = match n.checked_mul(*size) {
                    Some(bytes) => if bytes <= values.len() {
                        bytes
                    } else {
                        values.len()
                    },
                    None => values.len(),
                };
                *values = slice_subrange(*values, start, values.len());
            },
            StateTranslation::Dictionary(indices, _) => {
                indices.skip_in_place(n)?;
            },
        }
        Ok(())
    }

    /// Decodes the next `additional` positions of the page into `decoded`,
    /// as the encoding of the page asks: see
    /// [`BinaryDecoder::decode_plain_encoded`] and
    /// [`BinaryDecoder::decode_dictionary_encoded`].
    pub fn extend_from_state(
        &mut self,
        decoder: &BinaryDecoder,
        decoded: &mut DecodedState,
        page_validity: &mut Option<PageValidity>,
        additional: usize,
    ) -> (r: Result<(), DecodeError>)
        requires
            old(self).wf(),
            decoder.size > 0,
            match *old(page_validity) {
                Some(validity) => {
                    &&& validity.wf()
                    &&& additional <= validity@.len()
                    &&& bitmap_bits(old(decoded).1).len() + additional <= usize::MAX
                    &&& old(decoded).0.values@.len() + additional * decoder.size <= usize::MAX
                },
                None => true,
            },
        ensures
            final(self).wf(),
            final(decoded).0.size == old(decoded).0.size,
            old(decoded).0.wf() && old(decoded).0.size == decoder.size ==> final(decoded).0.wf(),
            ({
                &&& *old(page_validity) matches Some(validity)
                &&& aligned(*old(decoded))
                &&& old(decoded).0.size == decoder.size
                &&& *old(self) matches StateTranslation::Plain(_, size) ==> size == decoder.size
                &&& count_true(validity@.take(additional as int)) <= old(self).values_left()
            }) ==> aligned(*final(decoded)),
            *old(page_validity) is Some <==> *final(page_validity) is Some,
            *final(page_validity) matches Some(validity) ==> validity.wf(),
            match *old(self) {
                StateTranslation::Plain(values, size) => {
                    &&& r is Ok
                    &&& *final(self) matches StateTranslation::Plain(left, width)
                    &&& width == size
                    &&& match *old(page_validity) {
                        Some(validity) => {
                            &&& final(page_validity)->Some_0@ == validity@.skip(additional as int)
                            &&& plain_merged(
                                decoder.size as nat,
                                values@,
                                validity@.take(additional as int),
                                buffers(*old(decoded)),
                                buffers(*final(decoded)),
                                left@,
                            )
                        },
                        None => plain_values(
                            decoder.size as nat,
                            values@,
                            additional as int,
                            buffers(*old(decoded)),
                            buffers(*final(decoded)),
                            left@,
                        ),
                    }
                },
                StateTranslation::Dictionary(indices, dict) => {
                    &&& r matches Err(error) ==> error == DecodeError::OutOfSpec
                    &&& *final(self) matches StateTranslation::Dictionary(left, held)
                    &&& held == dict
                    &&& match *old(page_validity) {
                        Some(validity) => {
                            &&& final(page_validity)->Some_0@ == validity@.skip(
                                bitmap_bits(final(decoded).1).len() - bitmap_bits(
                                    old(decoded).1,
                                ).len(),
                            )
                            &&& dictionary_merged(
                                decoder.size as nat,
                                dict@,
                                indices@,
                                validity@.take(additional as int),
                                buffers(*old(decoded)),
                                buffers(*final(decoded)),
                                left@,
                                r is Ok,
                            )
                        },
                        None => dictionary_values(
                            decoder.size as nat,
                            dict@,
                            indices@,
                            additional as int,
                            buffers(*old(decoded)),
                            buffers(*final(decoded)),
                            left@,
                            r is Ok,
                        ),
                    }
                },
            },
    {
        match self {
            StateTranslation::Plain(page_values, _) => match page_validity {
                Some(validity) => decoder.decode_plain_encoded(
                    decoded,
                    page_values,
                    Some(validity),
                    additional,
                ),
                None => decoder.decode_plain_encoded(decoded, page_values, None, additional),
            },
            StateTranslation::Dictionary(page_values, dict) => match page_validity {
                Some(validity) => decoder.decode_dictionary_encoded(
                    decoded,
                    page_values,
                    Some(validity),
                    dict,
                    additional,
                ),
                None => decoder.decode_dictionary_encoded(
                    decoded,
                    page_values,
                    None,
                    dict,
                    additional,
                ),
            },
        }
    }
}

} // verus!
