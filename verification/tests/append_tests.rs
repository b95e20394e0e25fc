use minarrow::append::{is_full, plan_append};

#[test]
fn append_that_fits_publishes_the_new_length() {
    assert_eq!(plan_append(2, 5, false, 3), Some(5));
    assert_eq!(plan_append(0, 5, false, 1), Some(1));
}

#[test]
fn append_past_capacity_is_refused() {
    assert_eq!(plan_append(4, 5, false, 2), None);
    assert_eq!(plan_append(5, 5, false, 1), None);
    assert_eq!(plan_append(0, 5, false, usize::MAX), None);
}

#[test]
fn append_to_a_sealed_buffer_is_refused() {
    assert_eq!(plan_append(0, 5, true, 1), None);
    assert_eq!(plan_append(0, 5, true, 0), None);
}

#[test]
fn empty_append_to_an_open_buffer_changes_nothing() {
    assert_eq!(plan_append(5, 5, false, 0), Some(5));
}

#[test]
fn full_when_length_reaches_capacity() {
    assert!(is_full(5, 5));
    assert!(!is_full(4, 5));
}
