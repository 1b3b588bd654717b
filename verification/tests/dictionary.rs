use fixed_size_binary::collector::BatchableCollector;
use fixed_size_binary::decoder::BinaryDecoder;
use fixed_size_binary::error::DecodeError;
use fixed_size_binary::gatherer::{FixedSizeBinaryGatherer, GatheredHybridRle};
use fixed_size_binary::hybrid_rle::HybridRleDecoder;
use fixed_size_binary::state::StateTranslation;
use fixed_size_binary::validity::PageValidity;
use polars_arrow::bitmap::MutableBitmap;

fn bits_of(bitmap: &MutableBitmap) -> Vec<bool> {
    bitmap.iter().collect()
}

/// One run-length run for each index, each index in one byte.
fn indices_stream(indices: &[u8]) -> Vec<u8> {
    let mut data = Vec::new();
    for index in indices {
        data.push(2);
        data.push(*index);
    }
    data
}

#[test]
fn resolve_checks_the_index_against_the_dictionary() {
    let dict = b"AABBCC".to_vec();
    let gatherer = FixedSizeBinaryGatherer {
        dict: &dict,
        size: 2,
    };
    assert_eq!(gatherer.hybridrle_to_target(0).unwrap(), b"AA");
    assert_eq!(gatherer.hybridrle_to_target(2).unwrap(), b"CC");
    assert!(matches!(
        gatherer.hybridrle_to_target(3),
        Err(DecodeError::OutOfSpec)
    ));
    assert!(matches!(
        gatherer.hybridrle_to_target(u32::MAX),
        Err(DecodeError::OutOfSpec)
    ));
}

#[test]
fn resolve_leaves_out_a_last_entry_that_is_cut_short() {
    let dict = b"AABBC".to_vec();
    let gatherer = FixedSizeBinaryGatherer {
        dict: &dict,
        size: 2,
    };
    assert_eq!(gatherer.hybridrle_to_target(1).unwrap(), b"BB");
    assert!(matches!(
        gatherer.hybridrle_to_target(2),
        Err(DecodeError::OutOfSpec)
    ));
}

#[test]
fn gather_repeated_equals_gather_one_repeated() {
    let dict = b"xyzuvw".to_vec();
    let gatherer = FixedSizeBinaryGatherer {
        dict: &dict,
        size: 3,
    };
    for index in 0..2u32 {
        for n in 0..6usize {
            let value = gatherer.hybridrle_to_target(index).unwrap();
            let mut repeated = b"start".to_vec();
            gatherer.gather_repeated(&mut repeated, value, n).unwrap();
            let mut one_by_one = b"start".to_vec();
            for _ in 0..n {
                gatherer.gather_one(&mut one_by_one, value).unwrap();
            }
            assert_eq!(repeated, one_by_one);
            assert_eq!(gatherer.target_num_elements(&repeated), (5 + 3 * n) / 3);
        }
    }
}

#[test]
fn target_reserve_does_not_change_the_target() {
    let dict = b"ab".to_vec();
    let gatherer = FixedSizeBinaryGatherer {
        dict: &dict,
        size: 2,
    };
    let mut target = b"abcd".to_vec();
    gatherer.target_reserve(&mut target, 100);
    gatherer.target_reserve(&mut target, usize::MAX);
    assert_eq!(target, b"abcd".to_vec());
    assert_eq!(gatherer.target_num_elements(&target), 2);
}

#[test]
fn gather_n_into_stops_at_the_limit() {
    let dict = b"AABBCC".to_vec();
    let gatherer = FixedSizeBinaryGatherer {
        dict: &dict,
        size: 2,
    };
    let data = [6u8, 0, 4, 1, 2, 2];
    let mut indices = HybridRleDecoder::try_new(&data, 2, 6).unwrap();
    let mut target = Vec::new();
    indices.gather_n_into(&mut target, 4, &gatherer).unwrap();
    assert_eq!(target, b"AAAAAABB".to_vec());
    assert_eq!(indices.len(), 2);
    indices.gather_n_into(&mut target, 10, &gatherer).unwrap();
    assert_eq!(target, b"AAAAAABBBBCC".to_vec());
    assert_eq!(indices.len(), 0);
}

#[test]
fn out_of_range_index_is_rejected_and_adds_nothing() {
    let decoder = BinaryDecoder { size: 2 };
    let dict = b"AABBCC".to_vec();
    let data = indices_stream(&[3]);
    let mut indices = HybridRleDecoder::try_new(&data, 8, 1).unwrap();
    let mut decoded = decoder.with_capacity(1);
    let r = decoder.decode_dictionary_encoded(&mut decoded, &mut indices, None, &dict, 1);
    assert!(matches!(r, Err(DecodeError::OutOfSpec)));
    assert_eq!(decoded.0.values.len(), 0);
    assert_eq!(indices.len(), 1);
}

#[test]
fn out_of_range_index_keeps_what_came_before_it() {
    let decoder = BinaryDecoder { size: 2 };
    let dict = b"AABBCC".to_vec();
    let data = indices_stream(&[1, 2, 7, 0]);
    let mut indices = HybridRleDecoder::try_new(&data, 8, 4).unwrap();
    let mut decoded = decoder.with_capacity(4);
    let r = decoder.decode_dictionary_encoded(&mut decoded, &mut indices, None, &dict, 4);
    assert!(matches!(r, Err(DecodeError::OutOfSpec)));
    assert_eq!(decoded.0.values, b"BBCC".to_vec());
    assert_eq!(indices.len(), 2);
    assert_eq!(indices.front(1), (7, 1));
}

#[test]
fn out_of_range_index_behind_the_limit_is_not_reached() {
    let decoder = BinaryDecoder { size: 2 };
    let dict = b"AABBCC".to_vec();
    let data = indices_stream(&[1, 2, 7, 0]);
    let mut indices = HybridRleDecoder::try_new(&data, 8, 4).unwrap();
    let mut decoded = decoder.with_capacity(4);
    decoder
        .decode_dictionary_encoded(&mut decoded, &mut indices, None, &dict, 2)
        .unwrap();
    assert_eq!(decoded.0.values, b"BBCC".to_vec());
    assert_eq!(indices.len(), 2);
}

#[test]
fn out_of_range_index_in_a_bit_packed_run() {
    let decoder = BinaryDecoder { size: 1 };
    let dict = b"abcde".to_vec();
    // 0, 1, 2, 3, 4, 5, 6, 7 in three bits each
    let data = [3u8, 0x88, 0xC6, 0xFA];
    let mut indices = HybridRleDecoder::try_new(&data, 3, 8).unwrap();
    let mut decoded = decoder.with_capacity(8);
    let r = decoder.decode_dictionary_encoded(&mut decoded, &mut indices, None, &dict, 8);
    assert!(matches!(r, Err(DecodeError::OutOfSpec)));
    assert_eq!(decoded.0.values, b"abcde".to_vec());
    assert_eq!(indices.len(), 3);
}

#[test]
fn dictionary_nulls_are_the_first_entry() {
    let decoder = BinaryDecoder { size: 2 };
    let dict = b"AABBCC".to_vec();
    let data = indices_stream(&[2, 1]);
    let mut indices = HybridRleDecoder::try_new(&data, 8, 2).unwrap();
    let mut validity = PageValidity::new(vec![false, true, false, false, true]);
    let mut decoded = decoder.with_capacity(5);
    decoder
        .decode_dictionary_encoded(&mut decoded, &mut indices, Some(&mut validity), &dict, 5)
        .unwrap();
    assert_eq!(decoded.0.values, b"AACCAAAABB".to_vec());
    assert_eq!(
        bits_of(&decoded.1),
        vec![false, true, false, false, true]
    );
    assert_eq!(decoded.0.values.len(), 2 * decoded.1.len());
    assert_eq!(indices.len(), 0);
    assert_eq!(validity.len(), 0);
}

#[test]
fn dictionary_with_validity_stops_in_front_of_a_bad_index() {
    let decoder = BinaryDecoder { size: 2 };
    let dict = b"AABBCC".to_vec();
    let data = indices_stream(&[1, 9, 2]);
    let mut indices = HybridRleDecoder::try_new(&data, 8, 3).unwrap();
    let mut validity = PageValidity::new(vec![true, false, false, true, true, false]);
    let mut decoded = decoder.with_capacity(6);
    let r = decoder.decode_dictionary_encoded(
        &mut decoded,
        &mut indices,
        Some(&mut validity),
        &dict,
        6,
    );
    assert!(matches!(r, Err(DecodeError::OutOfSpec)));
    assert_eq!(decoded.0.values, b"BBAAAA".to_vec());
    assert_eq!(bits_of(&decoded.1), vec![true, false, false]);
    assert_eq!(decoded.0.values.len(), 2 * decoded.1.len());
    assert_eq!(validity.len(), 3);
    assert_eq!(indices.len(), 2);
    assert_eq!(indices.front(1), (9, 1));
}

#[test]
fn dictionary_with_validity_stops_inside_a_run_of_values() {
    let decoder = BinaryDecoder { size: 1 };
    let dict = b"abc".to_vec();
    let data = indices_stream(&[0, 1, 5, 2]);
    let mut indices = HybridRleDecoder::try_new(&data, 8, 4).unwrap();
    let mut validity = PageValidity::new(vec![false, true, true, true, true]);
    let mut decoded = decoder.with_capacity(5);
    let r = decoder.decode_dictionary_encoded(
        &mut decoded,
        &mut indices,
        Some(&mut validity),
        &dict,
        5,
    );
    assert!(matches!(r, Err(DecodeError::OutOfSpec)));
    assert_eq!(decoded.0.values, b"aab".to_vec());
    assert_eq!(bits_of(&decoded.1), vec![false, true, true]);
    assert_eq!(validity.len(), 2);
    assert_eq!(indices.len(), 2);
}

#[test]
fn bad_index_behind_the_needed_ones_does_not_fail_with_validity() {
    let decoder = BinaryDecoder { size: 1 };
    let dict = b"abc".to_vec();
    let data = indices_stream(&[2, 9]);
    let mut indices = HybridRleDecoder::try_new(&data, 8, 2).unwrap();
    let mut validity = PageValidity::new(vec![false, true, false]);
    let mut decoded = decoder.with_capacity(3);
    decoder
        .decode_dictionary_encoded(&mut decoded, &mut indices, Some(&mut validity), &dict, 3)
        .unwrap();
    assert_eq!(decoded.0.values, b"aca".to_vec());
    assert_eq!(indices.len(), 1);
}

#[test]
fn fewer_indices_than_valid_positions_under_fills() {
    let decoder = BinaryDecoder { size: 1 };
    let dict = b"abc".to_vec();
    let data = indices_stream(&[2]);
    let mut indices = HybridRleDecoder::try_new(&data, 8, 1).unwrap();
    let mut validity = PageValidity::new(vec![true, false, true]);
    let mut decoded = decoder.with_capacity(3);
    decoder
        .decode_dictionary_encoded(&mut decoded, &mut indices, Some(&mut validity), &dict, 3)
        .unwrap();
    assert_eq!(decoded.0.values, b"ca".to_vec());
    assert_eq!(bits_of(&decoded.1), vec![true, false, true]);
}

#[test]
fn empty_dictionary_with_validity_fails_before_anything_is_decoded() {
    let decoder = BinaryDecoder { size: 2 };
    let dict = b"A".to_vec();
    let data = indices_stream(&[0]);
    let mut indices = HybridRleDecoder::try_new(&data, 8, 1).unwrap();
    let mut validity = PageValidity::new(vec![false, false]);
    let mut decoded = decoder.with_capacity(2);
    let r = decoder.decode_dictionary_encoded(
        &mut decoded,
        &mut indices,
        Some(&mut validity),
        &dict,
        2,
    );
    assert!(matches!(r, Err(DecodeError::OutOfSpec)));
    assert_eq!(decoded.0.values.len(), 0);
    assert_eq!(decoded.1.len(), 0);
    assert_eq!(validity.len(), 2);
    assert_eq!(indices.len(), 1);
}

#[test]
fn skip_then_extract_is_extract_then_discard_for_dictionaries() {
    let decoder = BinaryDecoder { size: 2 };
    let dict = b"AABBCC".to_vec();
    let data = [6u8, 0, 4, 1, 2, 2];
    for n in 0..8usize {
        for m in 0..8usize {
            let mut all = HybridRleDecoder::try_new(&data, 2, 6).unwrap();
            let mut whole = decoder.with_capacity(0);
            decoder
                .decode_dictionary_encoded(&mut whole, &mut all, None, &dict, n + m)
                .unwrap();
            let discard = usize::min(whole.0.values.len(), n * 2);

            let indices = HybridRleDecoder::try_new(&data, 2, 6).unwrap();
            let mut page = StateTranslation::Dictionary(indices, &dict);
            page.skip_in_place(n).unwrap();
            let mut decoded = decoder.with_capacity(0);
            let mut validity = None;
            page.extend_from_state(&decoder, &mut decoded, &mut validity, m)
                .unwrap();
            assert_eq!(decoded.0.values, whole.0.values[discard..].to_vec());
            assert_eq!(page.len_when_not_nullable(), all.len());
        }
    }
}

#[test]
fn dictionary_collector_batches() {
    let dict = b"AABBCC".to_vec();
    let gatherer = FixedSizeBinaryGatherer {
        dict: &dict,
        size: 2,
    };
    let data = indices_stream(&[2, 1, 4]);
    let decoder = HybridRleDecoder::try_new(&data, 8, 3).unwrap();
    let mut collector = GatheredHybridRle {
        decoder,
        gatherer: &gatherer,
        null_value: &dict[..2],
    };
    let mut target = Vec::new();
    collector.push_n(&mut target, 1).unwrap();
    collector.push_n_nulls(&mut target, 2).unwrap();
    let r = collector.push_n(&mut target, 2);
    assert!(matches!(r, Err(DecodeError::OutOfSpec)));
    assert_eq!(target, b"CCAAAABB".to_vec());
    assert_eq!(collector.decoder.len(), 1);
    assert_eq!(collector.element_width(), 2);
}
