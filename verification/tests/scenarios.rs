use fixed_size_binary::decoder::BinaryDecoder;
use fixed_size_binary::error::DecodeError;
use fixed_size_binary::page::{DataPage, Encoding};
use fixed_size_binary::state::StateTranslation;
use fixed_size_binary::validity::PageValidity;

fn bits_of(bitmap: &polars_arrow::bitmap::MutableBitmap) -> Vec<bool> {
    bitmap.iter().collect()
}

#[test]
fn dictionary_page_with_run_length_indices() {
    let decoder = BinaryDecoder { size: 2 };
    let dict = b"AABBCC".to_vec();
    let page = DataPage {
        encoding: Encoding::RleDictionary,
        buffer: vec![2, 6, 0, 4, 1, 2, 2],
        num_values: 6,
    };
    let mut state = StateTranslation::new(&decoder, &page, Some(&dict), None).unwrap();
    assert_eq!(state.len_when_not_nullable(), 6);
    let mut decoded = decoder.with_capacity(6);
    let mut validity = None;
    state
        .extend_from_state(&decoder, &mut decoded, &mut validity, 6)
        .unwrap();
    assert_eq!(decoded.0.values, b"AAAAAABBBBCC".to_vec());
    assert_eq!(decoded.0.values.len(), 12);
    assert_eq!(decoded.1.len(), 0);
    assert_eq!(state.len_when_not_nullable(), 0);
}

#[test]
fn plain_page_with_a_null_in_the_middle() {
    let decoder = BinaryDecoder { size: 4 };
    let page = DataPage {
        encoding: Encoding::Plain,
        buffer: b"abcdefgh".to_vec(),
        num_values: 3,
    };
    let mut state = StateTranslation::new(&decoder, &page, None, None).unwrap();
    let mut decoded = decoder.with_capacity(3);
    let mut validity = Some(PageValidity::new(vec![true, false, true]));
    state
        .extend_from_state(&decoder, &mut decoded, &mut validity, 3)
        .unwrap();
    assert_eq!(decoded.0.values, b"abcd\0\0\0\0efgh".to_vec());
    assert_eq!(bits_of(&decoded.1), vec![true, false, true]);
    assert_eq!(validity.unwrap().len(), 0);
}

#[test]
fn plain_page_of_seven_bytes_is_malformed_for_size_four() {
    let decoder = BinaryDecoder { size: 4 };
    let page = DataPage {
        encoding: Encoding::Plain,
        buffer: vec![0; 7],
        num_values: 1,
    };
    let r = StateTranslation::new(&decoder, &page, None, None);
    assert!(matches!(r, Err(DecodeError::MalformedPage)));
}
