use fixed_size_binary::decoder::{BinaryDecoder, FixedSizeBinary};
use fixed_size_binary::error::DecodeError;
use fixed_size_binary::validity::PageValidity;
use polars_arrow::array::Array;
use polars_arrow::bitmap::{Bitmap, MutableBitmap};
use polars_arrow::datatypes::ArrowDataType;

fn state(values: &[u8], size: usize, bits: &[bool]) -> (FixedSizeBinary, MutableBitmap) {
    let mut bitmap = MutableBitmap::new();
    for bit in bits {
        bitmap.push(*bit);
    }
    (
        FixedSizeBinary {
            values: values.to_vec(),
            size,
        },
        bitmap,
    )
}

#[test]
fn finalize_wraps_values_and_validity() {
    let decoder = BinaryDecoder { size: 2 };
    let array = decoder
        .finalize(state(b"aa\0\0bb", 2, &[true, false, true]))
        .unwrap();
    assert_eq!(array.len(), 3);
    assert_eq!(array.values().as_slice(), b"aa\0\0bb");
    assert_eq!(array.dtype(), &ArrowDataType::FixedSizeBinary(2));
    let validity: Vec<bool> = array.validity().unwrap().iter().collect();
    assert_eq!(validity, vec![true, false, true]);
    assert_eq!(array.get(0), Some(&b"aa"[..]));
    assert_eq!(array.get(1), None);
    assert_eq!(array.get(2), Some(&b"bb"[..]));
}

#[test]
fn finalize_without_nulls_has_no_validity() {
    let decoder = BinaryDecoder { size: 2 };
    let array = decoder.finalize(state(b"aabb", 2, &[true, true])).unwrap();
    assert_eq!(array.len(), 2);
    assert!(array.validity().is_none());
    let array = decoder.finalize(state(b"aabbcc", 2, &[])).unwrap();
    assert_eq!(array.len(), 3);
    assert!(array.validity().is_none());
    assert_eq!(array.values().as_slice(), b"aabbcc");
}

#[test]
fn finalize_of_a_decoded_page() {
    let decoder = BinaryDecoder { size: 4 };
    let source = b"abcdefgh".to_vec();
    let mut cursor: &[u8] = &source;
    let mut validity = PageValidity::new(vec![true, false, true]);
    let mut decoded = decoder.with_capacity(3);
    decoder
        .decode_plain_encoded(&mut decoded, &mut cursor, Some(&mut validity), 3)
        .unwrap();
    let array = decoder.finalize(decoded).unwrap();
    assert_eq!(array.len(), 3);
    assert_eq!(array.len(), 12 / 4);
    assert_eq!(array.null_count(), 1);
    assert_eq!(array.value(2), b"efgh");
}

#[test]
fn finalize_refuses_values_that_are_not_whole_elements() {
    let decoder = BinaryDecoder { size: 2 };
    let r = decoder.finalize(state(b"aab", 2, &[]));
    assert!(matches!(r, Err(DecodeError::Internal)));
}

#[test]
fn finalize_refuses_a_validity_of_another_length() {
    let decoder = BinaryDecoder { size: 2 };
    let r = decoder.finalize(state(b"aabb", 2, &[true, false, true]));
    assert!(matches!(r, Err(DecodeError::Internal)));
    let r = decoder.finalize(state(b"aabb", 2, &[false]));
    assert!(matches!(r, Err(DecodeError::Internal)));
}

#[test]
fn finalize_drops_a_validity_without_unset_bits_whatever_its_length() {
    let decoder = BinaryDecoder { size: 2 };
    let array = decoder
        .finalize(state(b"aabb", 2, &[true, true, true]))
        .unwrap();
    assert_eq!(array.len(), 2);
    assert!(array.validity().is_none());
}

#[test]
fn finalize_refuses_a_width_of_zero() {
    let decoder = BinaryDecoder { size: 0 };
    let r = decoder.finalize(state(b"", 0, &[]));
    assert!(matches!(r, Err(DecodeError::Internal)));
}

#[test]
fn finalize_dict_array_holds_keys_and_entries() {
    let decoder = BinaryDecoder { size: 2 };
    let encoded = decoder
        .finalize_dict_array(b"AABBCC".to_vec(), vec![2, 0, 1, 1], None)
        .unwrap();
    let array = encoded.array;
    assert_eq!(array.keys().values().as_slice(), &[2u32, 0, 1, 1]);
    assert!(array.keys().validity().is_none());
    assert_eq!(array.values().len(), 3);
    assert_eq!(
        array.values().dtype(),
        &ArrowDataType::FixedSizeBinary(2)
    );
    let entries = array
        .values()
        .as_any()
        .downcast_ref::<polars_arrow::array::FixedSizeBinaryArray>()
        .unwrap();
    assert_eq!(entries.values().as_slice(), b"AABBCC");
}

#[test]
fn finalize_dict_array_keeps_the_validity_of_the_keys() {
    let decoder = BinaryDecoder { size: 1 };
    let validity = Bitmap::from([true, false, true]);
    let encoded = decoder
        .finalize_dict_array(b"xy".to_vec(), vec![1, 0, 0], Some(validity))
        .unwrap();
    let bits: Vec<bool> = encoded.array.keys().validity().unwrap().iter().collect();
    assert_eq!(bits, vec![true, false, true]);
    assert_eq!(encoded.array.keys().values().as_slice(), &[1u32, 0, 0]);
}

#[test]
fn finalize_dict_array_refuses_a_key_without_an_entry() {
    let decoder = BinaryDecoder { size: 2 };
    let r = decoder.finalize_dict_array(b"AABBCC".to_vec(), vec![0, 3], None);
    assert!(matches!(r, Err(DecodeError::Internal)));
    let r = decoder.finalize_dict_array(b"".to_vec(), vec![0], None);
    assert!(matches!(r, Err(DecodeError::Internal)));
    let r = decoder.finalize_dict_array(b"".to_vec(), vec![], None);
    assert!(r.is_ok());
}

#[test]
fn finalize_dict_array_refuses_a_validity_of_another_length() {
    let decoder = BinaryDecoder { size: 2 };
    let validity = Bitmap::from([true, false]);
    let r = decoder.finalize_dict_array(b"AABB".to_vec(), vec![0, 1, 1], Some(validity));
    assert!(matches!(r, Err(DecodeError::Internal)));
}

#[test]
fn finalize_dict_array_refuses_entries_that_are_cut_short() {
    let decoder = BinaryDecoder { size: 2 };
    let r = decoder.finalize_dict_array(b"AAB".to_vec(), vec![0], None);
    assert!(matches!(r, Err(DecodeError::Internal)));
    let decoder = BinaryDecoder { size: 0 };
    let r = decoder.finalize_dict_array(b"".to_vec(), vec![], None);
    assert!(matches!(r, Err(DecodeError::Internal)));
}
