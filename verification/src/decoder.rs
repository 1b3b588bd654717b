//! The decoder of fixed-width binary pages and the state that it fills.

use crate::array::{
    array_len, array_validity, array_values, dictionary_array, dictionary_entries, dictionary_keys,
    dictionary_validity, fixed_size_binary_array, frozen_bits, frozen_len, DictionaryEncoded,
};
use crate::bitmap::{
    bitmap_bits, bitmap_extend_constant, bitmap_len, bitmap_unset_bits, bitmap_with_capacity,
};
use crate::collector::{
    concat, elements, lemma_concat_elements, lemma_elements_uniform, BatchableCollector,
    FixedSizeBinaryCollector,
};
use crate::error::DecodeError;
use crate::gatherer::{
    lemma_gathered_len, lemma_leading_bounds, lemma_resolved_uniform, leading, resolved,
    FixedSizeBinaryGatherer, GatheredHybridRle,
};
use crate::hybrid_rle::HybridRleDecoder;
use crate::laws::{lemma_dictionary_length_invariant, lemma_plain_length_invariant};
use crate::layout::{
    constant_bits, count_true, element, lemma_count_true_bounds, whole_elements, zeros,
};
use crate::null_merge::{extend_from_decoder, lemma_merged_len, merged};
use crate::page::DictPage;
use crate::validity::PageValidity;
use polars_arrow::array::FixedSizeBinaryArray;
use polars_arrow::bitmap::{Bitmap, MutableBitmap};
use vstd::math::min;
use vstd::prelude::*;

verus! {

/// Elements of `size` bytes each, one after the other in `values`.
pub struct FixedSizeBinary {
    pub values: Vec<u8>,
    pub size: usize,
}

impl FixedSizeBinary {
    /// Whether `values` holds a whole number of elements.
    pub open spec fn wf(&self) -> bool {
        self.size > 0 && self.values@.len() % (self.size as nat) == 0
    }

    /// The number of elements held.
    pub fn len(&self) -> (len: usize)
        requires
            self.size > 0,
        ensures
            len == whole_elements(self.values@, self.size as nat),
    {
        self.values.len() / self.size
    }
}

/// What has been decoded of a column: its values, and one bit for each that
/// says whether the value is there. A bitmap without bits stands for a column
/// in which every value is.
pub type DecodedState = (FixedSizeBinary, MutableBitmap);

/// Whether the values are whole elements and the bitmap holds one bit for each.
pub open spec fn aligned(decoded: DecodedState) -> bool {
    &&& decoded.0.wf()
    &&& decoded.0.values@.len() == decoded.0.size * bitmap_bits(decoded.1).len()
}

/// The bytes and the bits that a state holds.
pub struct Buffers {
    pub values: Seq<u8>,
    pub validity: Seq<bool>,
}

/// The bytes and the bits of `decoded`.
pub open spec fn buffers(decoded: DecodedState) -> Buffers {
    Buffers { values: decoded.0.values@, validity: bitmap_bits(decoded.1) }
}

/// What decoding `limit` positions of the plain bytes `source` does where
/// every position holds a value: the next `limit` elements are appended, or
/// all whole elements if they are fewer; `left` is what remains of `source`.
pub open spec fn plain_values(
    size: nat,
    source: Seq<u8>,
    limit: int,
    before: Buffers,
    after: Buffers,
    left: Seq<u8>,
) -> bool {
    let taken = min(limit, whole_elements(source, size) as int);
    &&& after.validity == before.validity
    &&& after.values == before.values + source.take(taken * size)
    &&& left == source.skip(taken * size)
}

/// What decoding the positions `bits` of the plain bytes `source` does: the
/// bits are appended; a position that holds a value takes the next element,
/// as long as there is one, and a null is `size` zero bytes.
pub open spec fn plain_merged(
    size: nat,
    source: Seq<u8>,
    bits: Seq<bool>,
    before: Buffers,
    after: Buffers,
    left: Seq<u8>,
) -> bool {
    let elems = elements(source, size);
    let taken = min(count_true(bits) as int, elems.len() as int);
    &&& after.validity == before.validity + bits
    &&& after.values == before.values + merged(bits, elems, zeros(size))
    &&& left == source.skip(taken * size)
}

/// What decoding `limit` positions of the dictionary indices `indices` does
/// where every position holds a value: the entries of the indices in front
/// of the first that stands for none are appended, and decoding has
/// succeeded where there is no such index among the next `limit`.
pub open spec fn dictionary_values(
    size: nat,
    dict: Seq<u8>,
    indices: Seq<u32>,
    limit: int,
    before: Buffers,
    after: Buffers,
    left: Seq<u32>,
    ok: bool,
) -> bool {
    let wanted = indices.take(min(limit, indices.len() as int));
    let good = leading(wanted, whole_elements(dict, size)) as int;
    &&& ok <==> good == wanted.len()
    &&& after.validity == before.validity
    &&& after.values == before.values + concat(resolved(indices.take(good), dict, size))
    &&& left == indices.skip(good)
}

/// What decoding the positions `bits` of the dictionary indices `indices`
/// does. With an empty dictionary it fails and changes nothing. Otherwise it
/// decodes the positions in front of the first whose index stands for no
/// entry, all of them where there is none, and succeeds in that case only:
/// their bits are appended; a position that holds a value takes the entry of
/// the next index, as long as there is one, and a null is the first entry.
pub open spec fn dictionary_merged(
    size: nat,
    dict: Seq<u8>,
    indices: Seq<u32>,
    bits: Seq<bool>,
    before: Buffers,
    after: Buffers,
    left: Seq<u32>,
    ok: bool,
) -> bool {
    let entries = whole_elements(dict, size);
    let good = leading(indices, entries);
    let elems = resolved(indices.take(good as int), dict, size);
    let stop = after.validity.len() - before.validity.len();
    let done = bits.take(stop);
    if entries == 0 {
        !ok && after == before && left == indices
    } else {
        &&& 0 <= stop <= bits.len()
        &&& ok <==> !(good < indices.len() && count_true(bits) > good)
        &&& ok ==> stop == bits.len()
        &&& !ok ==> stop < bits.len() && bits[stop] && count_true(done) == good
        &&& after.validity == before.validity + done
        &&& after.values == before.values + merged(done, elems, element(dict, size, 0))
        &&& left == indices.skip(min(count_true(done) as int, good as int))
    }
}

/// Decodes pages whose values are `size` bytes wide.
pub struct BinaryDecoder {
    pub size: usize,
}

impl BinaryDecoder {
    /// An empty state with room for `capacity` elements.
    pub fn with_capacity(&self, capacity: usize) -> (decoded: DecodedState)
        ensures
            decoded.0.values@ == Seq::<u8>::empty(),
            decoded.0.size == self.size,
            bitmap_bits(decoded.1) == Seq::<bool>::empty(),
    {
        let size = self.size;
        let mut values: Vec<u8> = Vec::new();
        if let Some(bytes) = capacity.checked_mul(size) {
            let _ = values.try_reserve(bytes);
        }
        (FixedSizeBinary { values, size }, bitmap_with_capacity(capacity))
    }

    /// The entries of a dictionary page, one after the other as the page
    /// holds them.
    pub fn deserialize_dict(&self, page: DictPage) -> (dict: Vec<u8>)
        ensures
            dict@ == page.buffer@,
    {
        page.buffer
    }

    /// The array of the elements of `decoded`. Its validity is that of
    /// `decoded` where one of the bits is unset; without an unset bit no
    /// element is null and the array has no validity.
    ///
    /// Fails where the values are not a whole number of elements, and where
    /// a bit is unset and there is not one bit for each element.
    pub fn finalize(&self, decoded: DecodedState) -> (r: Result<FixedSizeBinaryArray, DecodeError>)
        ensures
            r is Ok <==> {
                &&& self.size > 0
                &&& decoded.0.values@.len() % (self.size as nat) == 0
                &&& (count_true(bitmap_bits(decoded.1)) == bitmap_bits(decoded.1).len()
                    || bitmap_bits(decoded.1).len() * self.size == decoded.0.values@.len())
            },
            r matches Ok(array) ==> {
                &&& array_values(array) == decoded.0.values@
                &&& array_len(array) == decoded.0.values@.len() / (self.size as nat)
                &&& array_validity(array) == if count_true(bitmap_bits(decoded.1)) == bitmap_bits(
                    decoded.1,
                ).len() {
                    None
                } else {
                    Some(bitmap_bits(decoded.1))
                }
            },
            r matches Err(error) ==> error == DecodeError::Internal,
    {
        let (values, validity) = decoded;
        if self.size == 0 || values.values.len() % self.size != 0 {
            return Err(DecodeError::Internal);
        }
        proof {
            crate::layout::lemma_count_true_bounds(bitmap_bits(validity));
        }
        let elements = values.values.len() / self.size;
        let bits = bitmap_len(&validity);
        assert(bits * self.size == values.values@.len() <==> bits == elements) by (nonlinear_arith)
            requires
                self.size > 0,
                values.values@.len() % (self.size as nat) == 0,
                elements == values.values@.len() / (self.size as nat),
        ;
        if bitmap_unset_bits(&validity) > 0 && bits != elements {
            return Err(DecodeError::Internal);
        }
        Ok(fixed_size_binary_array(self.size, values.values, validity))
    }

    /// The dictionary array of `keys` into the entries of `dict`, with
    /// `validity` as the validity of the keys.
    ///
    /// Fails where `dict` is not a whole number of entries, where `validity`
    /// has not one bit for each key, and where a key stands for no entry.
    pub fn finalize_dict_array(
        &self,
        dict: Vec<u8>,
        keys: Vec<u32>,
        validity: Option<Bitmap>,
    ) -> (r: Result<DictionaryEncoded, DecodeError>)
        ensures
            r is Ok <==> {
                &&& self.size > 0
                &&& dict@.len() % (self.size as nat) == 0
                &&& validity matches Some(bitmap) ==> frozen_bits(bitmap).len() == keys@.len()
                &&& forall|i: int|
                    0 <= i < keys@.len() ==> keys@[i] < whole_elements(dict@, self.size as nat)
            },
            r matches Ok(array) ==> {
                &&& dictionary_keys(array) == keys@
                &&& dictionary_entries(array) == dict@
                &&& dictionary_validity(array) == match validity {
                    Some(bitmap) => Some(frozen_bits(bitmap)),
                    None => None,
                }
            },
            r matches Err(error) ==> error == DecodeError::Internal,
    {
        if self.size == 0 || dict.len() % self.size != 0 {
            return Err(DecodeError::Internal);
        }
        if let Some(bitmap) = &validity {
            if frozen_len(bitmap) != keys.len() {
                return Err(DecodeError::Internal);
            }
        }
        let entries = dict.len() / self.size;
        let mut checked: usize = 0;
        while checked < keys.len()
            invariant
                checked <= keys@.len(),
                entries == whole_elements(dict@, self.size as nat),
                forall|i: int| 0 <= i < checked ==> keys@[i] < entries,
            decreases keys@.len() - checked,
        {
            if keys[checked] as usize >= entries {
                return Err(DecodeError::Internal);
            }
            checked += 1;
        }
        let entries = fixed_size_binary_array(self.size, dict, bitmap_with_capacity(0));
        match dictionary_array(entries, keys, validity) {
            Ok(array) => Ok(array),
            Err(_) => Err(DecodeError::Internal),
        }
    }

    /// Appends `n` bits of `value` to the validity of `decoded`.
    pub fn validity_extend(decoded: &mut DecodedState, value: bool, n: usize)
        requires
            bitmap_bits(old(decoded).1).len() + n <= usize::MAX,
        ensures
            bitmap_bits(final(decoded).1) == bitmap_bits(old(decoded).1) + constant_bits(
                n as nat,
                value,
            ),
            final(decoded).0 == old(decoded).0,
    {
        bitmap_extend_constant(&mut decoded.1, n, value);
    }

    /// Appends `n` nulls, each as many zero bytes as an element is wide, to
    /// the values of `decoded`.
    pub fn values_extend_nulls(decoded: &mut DecodedState, n: usize)
        requires
            old(decoded).0.values@.len() + n * old(decoded).0.size <= usize::MAX,
        ensures
            final(decoded).0.values@ == old(decoded).0.values@ + zeros(
                (n * old(decoded).0.size) as nat,
            ),
            final(decoded).0.size == old(decoded).0.size,
            final(decoded).1 == old(decoded).1,
            old(decoded).0.wf() ==> final(decoded).0.wf(),
    {
        let ghost before = decoded.0.values@;
        let len = decoded.0.values.len() + n * decoded.0.size;
        decoded.0.values.resize(len, 0);
        assert(decoded.0.values@ =~= before + zeros((n * decoded.0.size) as nat));
        proof {
            if decoded.0.size > 0 {
                lemma_whole_stays_whole(before.len(), n as nat, decoded.0.size as nat);
            }
        }
    }

    /// Decodes `limit` positions of a plainly encoded page into `decoded`.
    ///
    /// Without `page_validity` every position holds a value: the next `limit`
    /// elements of `page_values` are appended, or all its whole elements if
    /// they are fewer, and the validity of `decoded` stays as it is. With
    /// `page_validity` its first `limit` positions are appended to the
    /// validity of `decoded`; each that holds a value takes the next element
    /// of `page_values`, as long as there is one, and each null is written as
    /// zero bytes.
    pub fn decode_plain_encoded<'a>(
        &self,
        decoded: &mut DecodedState,
        page_values: &mut &'a [u8],
        page_validity: Option<&mut PageValidity>,
        limit: usize,
    ) -> (r: Result<(), DecodeError>)
        requires
            self.size > 0,
            match page_validity {
                Some(validity) => {
                    &&& validity.wf()
                    &&& limit <= validity@.len()
                    &&& bitmap_bits(old(decoded).1).len() + limit <= usize::MAX
                    &&& old(decoded).0.values@.len() + limit * self.size <= usize::MAX
                },
                None => true,
            },
        ensures
            r is Ok,
            final(decoded).0.size == old(decoded).0.size,
            old(decoded).0.wf() && old(decoded).0.size == self.size ==> final(decoded).0.wf(),
            match page_validity {
                Some(validity) => {
                    &&& final(validity).wf()
                    &&& final(validity)@ == validity@.skip(limit as int)
                    &&& aligned(*old(decoded)) && old(decoded).0.size == self.size && count_true(
                        validity@.take(limit as int),
                    ) <= whole_elements(old(page_values)@, self.size as nat) ==> aligned(
                        *final(decoded),
                    )
                    &&& plain_merged(
                        self.size as nat,
                        old(page_values)@,
                        validity@.take(limit as int),
                        buffers(*old(decoded)),
                        buffers(*final(decoded)),
                        final(page_values)@,
                    )
                },
                None => plain_values(
                    self.size as nat,
                    old(page_values)@,
                    limit as int,
                    buffers(*old(decoded)),
                    buffers(*final(decoded)),
                    final(page_values)@,
                ),
            },
    {
        let mut collector = FixedSizeBinaryCollector { slice: *page_values, size: self.size };
        let ghost source = page_values@;
        let ghost size = self.size as nat;
        let ghost before = buffers(*decoded);
        match page_validity {
            None => {
                proof {
                    let taken = min(limit as int, whole_elements(source, size) as int);
                    lemma_concat_elements(source, size, taken as nat);
                    lemma_whole_stays_whole(before.values.len(), taken as nat, size);
                }
                let pushed = collector.push_n(&mut decoded.0.values, limit);
                *page_values = collector.slice;
                pushed
            },
            Some(validity) => {
                let ghost bits = validity@.take(limit as int);
                let merged = extend_from_decoder(
                    &mut decoded.1,
                    validity,
                    Some(limit),
                    &mut decoded.0.values,
                    &mut collector,
                );
                *page_values = collector.slice;
                proof {
                    let elems = elements(source, size);
                    lemma_elements_uniform(source, size);
                    lemma_merged_len(bits, elems, zeros(size), size);
                    lemma_count_true_bounds(bits);
                    lemma_whole_stays_whole(
                        before.values.len(),
                        (bits.len() - count_true(bits) + min(
                            count_true(bits) as int,
                            elems.len() as int,
                        )) as nat,
                        size,
                    );
                    if before.values.len() == size * before.validity.len() && count_true(bits)
                        <= whole_elements(source, size) {
                        lemma_plain_length_invariant(
                            size,
                            source,
                            bits,
                            before,
                            buffers(*decoded),
                            page_values@,
                        );
                    }
                }
                merged
            },
        }
    }

    /// Decodes `limit` positions of a dictionary-encoded page into `decoded`.
    /// The values of the page are indices into `dict`, whose entries are as
    /// wide as the elements.
    ///
    /// Without `page_validity` every position holds a value: the entries of
    /// the next `limit` indices are appended, or of all that are left if they
    /// are fewer. With `page_validity` its first `limit` positions are
    /// appended to the validity of `decoded`; each that holds a value takes
    /// the entry of the next index, as long as there is one, and each null is
    /// written as the first entry of `dict`.
    ///
    /// Decoding stops in front of the first index that stands for no entry,
    /// and fails; what lies before it has been decoded. Where nulls are to be
    /// written and `dict` holds no entry at all, nothing is decoded.
    pub fn decode_dictionary_encoded<'a>(
        &self,
        decoded: &mut DecodedState,
        page_values: &mut HybridRleDecoder<'a>,
        page_validity: Option<&mut PageValidity>,
        dict: &Vec<u8>,
        limit: usize,
    ) -> (r: Result<(), DecodeError>)
        requires
            self.size > 0,
            old(page_values).wf(),
            match page_validity {
                Some(validity) => {
                    &&& validity.wf()
                    &&& limit <= validity@.len()
                    &&& bitmap_bits(old(decoded).1).len() + limit <= usize::MAX
                    &&& old(decoded).0.values@.len() + limit * self.size <= usize::MAX
                },
                None => true,
            },
        ensures
            final(page_values).wf(),
            final(decoded).0.size == old(decoded).0.size,
            old(decoded).0.wf() && old(decoded).0.size == self.size ==> final(decoded).0.wf(),
            r matches Err(error) ==> error == DecodeError::OutOfSpec,
            match page_validity {
                Some(validity) => {
                    let stop = bitmap_bits(final(decoded).1).len() - bitmap_bits(
                        old(decoded).1,
                    ).len();
                    &&& final(validity).wf()
                    &&& final(validity)@ == validity@.skip(stop)
                    &&& aligned(*old(decoded)) && old(decoded).0.size == self.size && count_true(
                        validity@.take(limit as int),
                    ) <= old(page_values)@.len() ==> aligned(*final(decoded))
                    &&& dictionary_merged(
                        self.size as nat,
                        dict@,
                        old(page_values)@,
                        validity@.take(limit as int),
                        buffers(*old(decoded)),
                        buffers(*final(decoded)),
                        final(page_values)@,
                        r is Ok,
                    )
                },
                None => dictionary_values(
                    self.size as nat,
                    dict@,
                    old(page_values)@,
                    limit as int,
                    buffers(*old(decoded)),
                    buffers(*final(decoded)),
                    final(page_values)@,
                    r is Ok,
                ),
            },
    {
        let gatherer = FixedSizeBinaryGatherer { dict: dict.as_slice(), size: self.size };
        let ghost indices = page_values@;
        let ghost size = self.size as nat;
        let ghost entries = gatherer.entries();
        let ghost before = buffers(*decoded);
        match page_validity {
            None => {
                proof {
                    let wanted = indices.take(min(limit as int, indices.len() as int));
                    lemma_leading_bounds(wanted, entries);
                    let good = leading(wanted, entries);
                    let known = indices.take(good as int);
                    assert forall|i: int| 0 <= i < known.len() implies known[i] < entries by {
                        assert(known[i] == wanted[i]);
                    }
                    lemma_gathered_len(known, dict@, size);
                    lemma_whole_stays_whole(before.values.len(), good, size);
                }
                page_values.gather_n_into(&mut decoded.0.values, limit, &gatherer)
            },
            Some(validity) => {
                let null_value = match gatherer.hybridrle_to_target(0) {
                    Ok(entry) => entry,
                    Err(error) => {
                        proof {
                            assert(validity@.skip(0) =~= validity@);
                        }
                        return Err(error);
                    },
                };
                let mut collector = GatheredHybridRle {
                    decoder: *page_values,
                    gatherer: &gatherer,
                    null_value,
                };
                let ghost bits = validity@.take(limit as int);
                proof {
                    lemma_leading_bounds(indices, entries);
                }
                let merged = extend_from_decoder(
                    &mut decoded.1,
                    validity,
                    Some(limit),
                    &mut decoded.0.values,
                    &mut collector,
                );
                *page_values = collector.decoder;
                proof {
                    if merged is Ok {
                        assert(bits.take(bits.len() as int) =~= bits);
                    }
                    let stop = buffers(*decoded).validity.len() - before.validity.len();
                    let done = bits.take(stop);
                    let elems = resolved(indices.take(leading(indices, entries) as int), dict@, size);
                    lemma_resolved_uniform(indices.take(leading(indices, entries) as int), dict@, size);
                    lemma_merged_len(done, elems, null_value@, size);
                    lemma_count_true_bounds(done);
                    lemma_whole_stays_whole(
                        before.values.len(),
                        (done.len() - count_true(done) + min(
                            count_true(done) as int,
                            elems.len() as int,
                        )) as nat,
                        size,
                    );
                    if before.values.len() == size * before.validity.len() && count_true(bits)
                        <= indices.len() {
                        lemma_dictionary_length_invariant(
                            size,
                            dict@,
                            indices,
                            bits,
                            before,
                            buffers(*decoded),
                            page_values@,
                            merged is Ok,
                        );
                    }
                }
                merged
            },
        }
    }
}

/// Whole elements stay whole when whole elements are appended.
proof fn lemma_whole_stays_whole(len: nat, added: nat, size: nat)
    requires
        size > 0,
    ensures
        len % size == 0 ==> (len + added * size) % size == 0,
{
    if len % size == 0 {
        vstd::arithmetic::div_mod::lemma_mod_multiples_vanish(added as int, len as int, size as int);
        assert(size * added == added * size) by (nonlinear_arith);
    }
}

} // verus!
