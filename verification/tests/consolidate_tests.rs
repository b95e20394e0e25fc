use minarrow::consolidate::{extend_null_mask, Consolidate};
use minarrow::dictionary::DictionaryError;
use minarrow::ndarray::NdArray;
use minarrow::super_ndarray::SuperNdArray;

#[test]
fn both_masks_append_the_source_range() {
    let mut result = Some(vec![true, false]);
    let src = vec![false, true, true, false];
    extend_null_mask(&mut result, 2, Some(&src), 1, 2);
    assert_eq!(result, Some(vec![true, false, true, true]));
}

#[test]
fn result_mask_without_source_mask_marks_new_values_valid() {
    let mut result = Some(vec![false]);
    extend_null_mask(&mut result, 1, None, 0, 3);
    assert_eq!(result, Some(vec![false, true, true, true]));
}

#[test]
fn source_mask_without_result_mask_creates_one() {
    let mut result: Option<Vec<bool>> = None;
    let src = vec![false, true];
    extend_null_mask(&mut result, 3, Some(&src), 0, 2);
    assert_eq!(result, Some(vec![true, true, true, false, true]));
}

#[test]
fn neither_mask_leaves_the_result_unmasked() {
    let mut result: Option<Vec<bool>> = None;
    extend_null_mask(&mut result, 4, None, 0, 4);
    assert_eq!(result, None);
}

#[test]
fn dictionary_overflow_message() {
    assert_eq!(
        DictionaryError::Overflow.to_message(),
        "dictionary cardinality would exceed the capacity of the index type"
    );
}

#[test]
fn consolidate_trait_matches_the_inherent_method() {
    let a = NdArray::from_slice(&[1.0, 2.0, 3.0, 4.0], &[2, 2]);
    let b = NdArray::from_slice(&[5.0, 6.0], &[1, 2]);
    let s = SuperNdArray::from_batches(vec![a, b], "s");
    let out = Consolidate::consolidate(s);
    assert_eq!(out.shape(), &[3, 2]);
    assert_eq!(out.to_vec(), vec![1.0, 2.0, 5.0, 3.0, 4.0, 6.0]);
}
