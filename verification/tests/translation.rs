use fixed_size_binary::decoder::BinaryDecoder;
use fixed_size_binary::error::DecodeError;
use fixed_size_binary::page::{dict_indices_decoder, DataPage, DictPage, Encoding};
use fixed_size_binary::state::StateTranslation;
use fixed_size_binary::validity::PageValidity;

fn page(encoding: Encoding, buffer: &[u8], num_values: usize) -> DataPage {
    DataPage {
        encoding,
        buffer: buffer.to_vec(),
        num_values,
    }
}

#[test]
fn plain_page_becomes_a_plain_cursor() {
    let decoder = BinaryDecoder { size: 4 };
    let page = page(Encoding::Plain, b"abcdefgh", 2);
    let validity = PageValidity::new(vec![true, true]);
    let state = StateTranslation::new(&decoder, &page, None, Some(&validity)).unwrap();
    match &state {
        StateTranslation::Plain(values, size) => {
            assert_eq!(*values, b"abcdefgh");
            assert_eq!(*size, 4);
        },
        StateTranslation::Dictionary(_, _) => panic!("a plain page"),
    }
    assert_eq!(state.len_when_not_nullable(), 2);
}

#[test]
fn plain_page_ignores_a_dictionary() {
    let decoder = BinaryDecoder { size: 2 };
    let dict = b"AABB".to_vec();
    let page = page(Encoding::Plain, b"abcd", 2);
    let state = StateTranslation::new(&decoder, &page, Some(&dict), None).unwrap();
    assert!(matches!(state, StateTranslation::Plain(_, 2)));
}

#[test]
fn empty_plain_page_is_well_formed() {
    let decoder = BinaryDecoder { size: 4 };
    let page = page(Encoding::Plain, b"", 0);
    let state = StateTranslation::new(&decoder, &page, None, None).unwrap();
    assert_eq!(state.len_when_not_nullable(), 0);
}

#[test]
fn both_dictionary_encodings_become_an_index_cursor() {
    let decoder = BinaryDecoder { size: 2 };
    let dict = b"AABBCC".to_vec();
    for encoding in [Encoding::PlainDictionary, Encoding::RleDictionary] {
        let page = page(encoding, &[2, 6, 0, 4, 1, 2, 2], 6);
        let state = StateTranslation::new(&decoder, &page, Some(&dict), None).unwrap();
        assert!(matches!(state, StateTranslation::Dictionary(_, _)));
        assert_eq!(state.len_when_not_nullable(), 6);
    }
}

#[test]
fn dictionary_encoding_without_a_dictionary_is_not_implemented() {
    let decoder = BinaryDecoder { size: 2 };
    for encoding in [Encoding::PlainDictionary, Encoding::RleDictionary] {
        let page = page(encoding, &[2, 6, 0], 3);
        let r = StateTranslation::new(&decoder, &page, None, None);
        assert!(matches!(r, Err(DecodeError::NotImplemented)));
    }
}

#[test]
fn other_encodings_are_not_implemented() {
    let decoder = BinaryDecoder { size: 2 };
    let dict = b"AABB".to_vec();
    for encoding in [
        Encoding::Rle,
        Encoding::BitPacked,
        Encoding::DeltaBinaryPacked,
        Encoding::DeltaLengthByteArray,
        Encoding::DeltaByteArray,
        Encoding::ByteStreamSplit,
    ] {
        let page = page(encoding, b"abcd", 2);
        assert!(matches!(
            StateTranslation::new(&decoder, &page, Some(&dict), None),
            Err(DecodeError::NotImplemented)
        ));
        assert!(matches!(
            StateTranslation::new(&decoder, &page, None, None),
            Err(DecodeError::NotImplemented)
        ));
    }
}

#[test]
fn malformed_plain_lengths() {
    let decoder = BinaryDecoder { size: 4 };
    for len in [1usize, 2, 3, 5, 7, 9] {
        let page = page(Encoding::Plain, &vec![0u8; len], 1);
        assert!(matches!(
            StateTranslation::new(&decoder, &page, None, None),
            Err(DecodeError::MalformedPage)
        ));
    }
    for len in [0usize, 4, 8, 12] {
        let page = page(Encoding::Plain, &vec![0u8; len], 1);
        assert!(StateTranslation::new(&decoder, &page, None, None).is_ok());
    }
}

#[test]
fn dictionary_page_without_a_bit_width_is_out_of_spec() {
    let page = page(Encoding::RleDictionary, b"", 0);
    assert!(matches!(
        dict_indices_decoder(&page),
        Err(DecodeError::OutOfSpec)
    ));
}

#[test]
fn dictionary_page_with_too_wide_indices_is_out_of_spec() {
    let page = page(Encoding::RleDictionary, &[33, 2, 0, 0, 0, 0, 0], 1);
    assert!(matches!(
        dict_indices_decoder(&page),
        Err(DecodeError::OutOfSpec)
    ));
}

#[test]
fn dictionary_page_with_fewer_indices_than_positions_opens() {
    let decoder = BinaryDecoder { size: 2 };
    let dict = b"AABB".to_vec();
    let page = page(Encoding::RleDictionary, &[1, 4, 1], 3);
    let state = StateTranslation::new(&decoder, &page, Some(&dict), None).unwrap();
    assert!(matches!(state, StateTranslation::Dictionary(_, _)));
    assert_eq!(state.len_when_not_nullable(), 2);
}

#[test]
fn dictionary_page_with_a_null_is_decoded() {
    let decoder = BinaryDecoder { size: 2 };
    let dict = b"AABBCC".to_vec();
    // three positions, the second null: two indices, 1 and 1
    let page = page(Encoding::RleDictionary, &[8, 4, 1], 3);
    let positions = PageValidity::new(vec![true, false, true]);
    let mut state = StateTranslation::new(&decoder, &page, Some(&dict), Some(&positions)).unwrap();
    let mut decoded = decoder.with_capacity(3);
    let mut validity = Some(positions);
    state
        .extend_from_state(&decoder, &mut decoded, &mut validity, 3)
        .unwrap();
    assert_eq!(decoded.0.values, b"BBAABB".to_vec());
    let bits: Vec<bool> = decoded.1.iter().collect();
    assert_eq!(bits, vec![true, false, true]);
    assert_eq!(state.len_when_not_nullable(), 0);
}

#[test]
fn dictionary_page_with_more_indices_than_positions_is_cut() {
    let page = page(Encoding::RleDictionary, &[8, 10, 1], 3);
    let indices = dict_indices_decoder(&page).unwrap();
    assert_eq!(indices.len(), 3);
}

#[test]
fn dictionary_page_indices_follow_the_bit_width() {
    let page = page(Encoding::RleDictionary, &[3, 3, 0x88, 0xC6, 0xFA], 8);
    let mut indices = dict_indices_decoder(&page).unwrap();
    assert_eq!(indices.len(), 8);
    indices.skip_in_place(6).unwrap();
    assert_eq!(indices.front(1), (6, 1));
}

#[test]
fn skip_in_place_on_a_plain_cursor() {
    let source = b"aabbccdd".to_vec();
    let mut state = StateTranslation::Plain(&source, 2);
    state.skip_in_place(0).unwrap();
    assert_eq!(state.len_when_not_nullable(), 4);
    state.skip_in_place(1).unwrap();
    assert!(matches!(state, StateTranslation::Plain(b"bbccdd", 2)));
    state.skip_in_place(2).unwrap();
    assert_eq!(state.len_when_not_nullable(), 1);
    state.skip_in_place(usize::MAX).unwrap();
    assert_eq!(state.len_when_not_nullable(), 0);
}

#[test]
fn skip_in_place_on_an_index_cursor() {
    let decoder = BinaryDecoder { size: 2 };
    let dict = b"AABBCC".to_vec();
    let page = page(Encoding::RleDictionary, &[2, 6, 0, 4, 1, 2, 2], 6);
    let mut state = StateTranslation::new(&decoder, &page, Some(&dict), None).unwrap();
    state.skip_in_place(0).unwrap();
    assert_eq!(state.len_when_not_nullable(), 6);
    state.skip_in_place(4).unwrap();
    assert_eq!(state.len_when_not_nullable(), 2);
    let mut decoded = decoder.with_capacity(2);
    let mut validity = None;
    state
        .extend_from_state(&decoder, &mut decoded, &mut validity, 2)
        .unwrap();
    assert_eq!(decoded.0.values, b"BBCC".to_vec());
    state.skip_in_place(9).unwrap();
    assert_eq!(state.len_when_not_nullable(), 0);
}

#[test]
fn extend_from_state_reports_a_bad_index() {
    let decoder = BinaryDecoder { size: 2 };
    let dict = b"AABB".to_vec();
    let page = page(Encoding::RleDictionary, &[2, 2, 1, 2, 2], 2);
    let mut state = StateTranslation::new(&decoder, &page, Some(&dict), None).unwrap();
    let mut decoded = decoder.with_capacity(2);
    let mut validity = Some(PageValidity::new(vec![true, true]));
    let r = state.extend_from_state(&decoder, &mut decoded, &mut validity, 2);
    assert!(matches!(r, Err(DecodeError::OutOfSpec)));
    assert_eq!(decoded.0.values, b"BB".to_vec());
    assert_eq!(decoded.1.len(), 1);
    assert_eq!(validity.unwrap().len(), 1);
    assert_eq!(state.len_when_not_nullable(), 1);
}

#[test]
fn deserialize_dict_keeps_the_bytes_of_the_page() {
    let decoder = BinaryDecoder { size: 2 };
    let page = DictPage {
        buffer: b"AABBC".to_vec(),
        num_values: 2,
        is_sorted: false,
    };
    assert_eq!(decoder.deserialize_dict(page), b"AABBC".to_vec());
}

#[test]
fn page_accessors() {
    let page = page(Encoding::Plain, b"ab", 7);
    assert_eq!(page.encoding(), Encoding::Plain);
    assert_eq!(page.num_values(), 7);
}

#[test]
fn page_validity_runs() {
    let mut validity = PageValidity::new(vec![true, true, false, true]);
    assert_eq!(validity.len(), 4);
    assert_eq!(validity.run_length(true, 10), 2);
    assert_eq!(validity.run_length(true, 1), 1);
    assert_eq!(validity.run_length(false, 10), 0);
    validity.advance(2);
    assert_eq!(validity.run_length(false, 10), 1);
    validity.advance(2);
    assert_eq!(validity.len(), 0);
    assert_eq!(validity.run_length(true, 10), 0);
}

#[test]
fn error_messages() {
    assert_eq!(
        DecodeError::OutOfSpec.message(),
        "fixed size binary dictionary index out-of-range or of no valid width"
    );
    assert_eq!(
        DecodeError::MalformedPage.message(),
        "fixed size binary data length is not divisible by the element size"
    );
    assert_eq!(
        DecodeError::NotImplemented.message(),
        "encoding is not implemented for fixed size binary"
    );
    assert_eq!(
        DecodeError::Internal.message(),
        "decoded buffers are inconsistent"
    );
    assert_ne!(DecodeError::Internal, DecodeError::OutOfSpec);
}
