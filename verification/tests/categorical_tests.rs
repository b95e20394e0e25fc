use minarrow::categorical::{max_cap, CategoricalArray};
use minarrow::consolidate::Consolidate;
use minarrow::error::MinarrowError;
use minarrow::ndarray::{Shape, ShapeDim};

#[test]
fn empty_new() {
    let arr = CategoricalArray::<u8>::default();
    assert!(arr.is_empty());
    assert!(arr.unique_values().is_empty());
}

#[test]
fn test_new_and_with_capacity() {
    let mut arr = CategoricalArray::<u32>::with_capacity(8, None, true);
    assert_eq!(arr.len(), 0);
    assert!(arr.data.capacity() >= 8);
    assert!(arr.null_mask.is_some());

    // Reserved null-mask slots must default to valid (1).
    assert_eq!(arr.null_count(), 0);

    arr.push_str("alpha");
    arr.push_str("beta");
    assert_eq!(arr.null_count(), 0);

    arr.push_null();
    assert_eq!(arr.null_count(), 1);
}

#[test]
fn push_and_get() {
    let mut arr = CategoricalArray::<u8>::default();
    let i1 = arr.push_str("hello");
    let i2 = arr.push_str("world");
    let i3 = arr.push_str("hello");
    assert_eq!(i1, 0);
    assert_eq!(i2, 1);
    assert_eq!(i3, 0);
    assert_eq!(arr.indices(), &[0u8, 1, 0]);
    assert_eq!(arr.unique_values(), &["hello", "world".into()]);
    assert_eq!(arr.get(1), Some("world"));
}

#[test]
fn null_handling() {
    let mut arr = CategoricalArray::<u16>::default();
    arr.push_str("a");
    arr.push_null();
    arr.push_str("b");
    assert_eq!(arr.len(), 3);
    assert_eq!(arr.get(0), Some("a"));
    assert_eq!(arr.get(1), None);
    assert!(arr.is_null(1));
    assert_eq!(arr.get(2), Some("b"));
}

#[test]
fn new_tolerates_out_of_range_indices_at_null_positions() {
    // The indices buffer holds 255 at the null slot; the mask marks it
    // invalid, so the code is never read.
    let data: Vec<u8> = vec![0, 1, 255, 0];
    let unique_values: Vec<String> = vec!["Yes".to_string(), "No".to_string()];
    let mask = vec![true, true, false, true];

    let arr = CategoricalArray::<u8>::new(data, unique_values, Some(mask));

    assert_eq!(arr.len(), 4);
    assert_eq!(arr.get_str(0), Some("Yes"));
    assert_eq!(arr.get_str(1), Some("No"));
    assert_eq!(arr.get_str(2), None);
    assert_eq!(arr.get_str(3), Some("Yes"));
}

#[test]
fn set_overwrite_and_new() {
    let mut arr = CategoricalArray::<u32>::default();
    arr.push_str("x");
    arr.push_str("y");
    arr.set_str(1, "x");
    assert_eq!(arr.get(1), Some("x"));
    arr.set_str(0, "zebra");
    assert!(arr.unique_values().contains(&"zebra".to_string()));
    assert_eq!(arr.get(0), Some("zebra"));
}

#[test]
fn extend_and_builder() {
    let mut arr = CategoricalArray::<u8>::default();
    arr.extend(&["a", "b", "a", "c"]);
    assert_eq!(arr.len(), 4);
    assert_eq!(arr.get(2), Some("a"));

    let built = CategoricalArray::<u8>::from_values(&["k", "l", "k"]);
    assert_eq!(built.indices(), &[0u8, 1, 0]);
    assert_eq!(built.get(1), Some("l"));
}

#[test]
fn set_null_after_push() {
    let mut arr = CategoricalArray::<u8>::default();
    arr.push_str("one");
    arr.push_str("two");
    arr.set_null(1);
    assert!(arr.is_null(1));
    assert_eq!(arr.get(1), None);
}

#[test]
fn test_categorical_iter() {
    let arr = CategoricalArray::from_slices(&[0u32, 1, 2], &["a".into(), "b".into(), "c".into()]);
    let vals: Vec<&str> = arr.iter_str();
    assert_eq!(vals, vec!["a", "b", "c"]);
    let opt: Vec<Option<&str>> = arr.iter_str_opt();
    assert_eq!(opt, vec![Some("a"), Some("b"), Some("c")]);
}

#[test]
fn test_categorical_array_slice() {
    let arr = CategoricalArray::<u8>::new(
        vec![2u8, 1, 0],
        vec!["green".to_string(), "blue".to_string(), "red".to_string()],
        Some(vec![false, true, true]),
    );
    let sliced = arr.slice_clone(0, 3);
    assert_eq!(sliced.iter_str_opt(), vec![None, Some("blue"), Some("green")]);
}

#[test]
fn test_categorical_set_and_get() {
    let mut arr = CategoricalArray::<u32>::from_values(&["a", "b", "c"]);
    // initial null mask none => all valid
    assert!(arr.null_mask.is_none());

    // set index 1 to "d" (new entry)
    arr.set_str(1, "d");
    assert_eq!(arr.get(1), Some("d"));
    // dictionary should have "d" appended
    assert_eq!(arr.unique_values().len(), 4);
    assert!(arr.unique_values().contains(&"d".to_string()));

    // set index 2 to existing "a"
    arr.set_str(2, "a");
    assert_eq!(arr.get(2), Some("a"));
    // dictionary length unchanged
    assert_eq!(arr.unique_values().len(), 4);
}

#[test]
fn test_resize_expands_and_truncates() {
    let mut arr = CategoricalArray::<u8>::default();
    arr.push_str("one");
    arr.push_str("two");

    arr.resize(5, "two".to_string());
    assert_eq!(arr.len(), 5);
    assert_eq!(arr.get(4), Some("two"));

    arr.resize(2, "ignored".to_string());
    assert_eq!(arr.len(), 2);
}

#[test]
fn test_from_parts_exact_match() {
    let data = vec![0u8, 1u8];
    let dict = vec!["alpha".to_string(), "beta".to_string()];
    let mask = Some(vec![true, false]);
    let arr = CategoricalArray::from_parts(data, dict, mask.clone());

    assert_eq!(arr.get(0), Some("alpha"));
    assert_eq!(arr.get(1), None);
    assert_eq!(arr.null_mask(), mask.as_ref());
}

#[test]
fn test_batch_extend_from_iter_with_capacity() {
    let mut arr = CategoricalArray::<u32>::default();
    let data = vec!["cat".to_string(), "dog".to_string(), "cat".to_string(), "bird".to_string()];

    arr.extend_from_iter_with_capacity(data, 4);

    assert_eq!(arr.len(), 4);
    assert_eq!(arr.get(0), Some("cat"));
    assert_eq!(arr.get(1), Some("dog"));
    assert_eq!(arr.get(2), Some("cat"));
    assert_eq!(arr.get(3), Some("bird"));

    // Dictionary should have 3 unique values
    assert_eq!(arr.unique_values().len(), 3);
}

#[test]
fn test_batch_extend_from_slice_dictionary_growth() {
    let mut arr = CategoricalArray::<u32>::default();
    arr.push("initial".to_string());

    let data = &["apple".to_string(), "banana".to_string(), "apple".to_string()];
    arr.extend_from_slice(data);

    assert_eq!(arr.len(), 4);
    assert_eq!(arr.get(0), Some("initial"));
    assert_eq!(arr.get(1), Some("apple"));
    assert_eq!(arr.get(2), Some("banana"));
    assert_eq!(arr.get(3), Some("apple"));

    // Dictionary: initial, apple, banana
    assert_eq!(arr.unique_values().len(), 3);
}

#[test]
fn test_batch_fill_single_category() {
    let arr = CategoricalArray::<u32>::fill("repeated".to_string(), 100);

    assert_eq!(arr.len(), 100);
    assert_eq!(arr.null_count(), 0);

    // All values should be the same category
    for i in 0..100 {
        assert_eq!(arr.get(i), Some("repeated"));
    }

    // Dictionary should contain only one unique value
    assert_eq!(arr.unique_values().len(), 1);
    assert_eq!(arr.unique_values()[0], "repeated");

    // All indices should point to the same dictionary entry (0)
    for i in 0..100 {
        assert_eq!(arr.data[i], 0u32);
    }
}

#[test]
fn test_batch_operations_with_nulls() {
    let mut arr = CategoricalArray::<u32>::default();
    arr.push("first".to_string());
    arr.push_null();

    let data = &["second".to_string(), "first".to_string()];
    arr.extend_from_slice(data);

    assert_eq!(arr.len(), 4);
    assert_eq!(arr.get(0), Some("first"));
    assert_eq!(arr.get(1), None);
    assert_eq!(arr.get(2), Some("second"));
    assert_eq!(arr.get(3), Some("first"));
    assert!(arr.null_count() >= 1); // At least the initial null

    // Dictionary: first, second
    assert!(arr.unique_values().len() >= 2); // At least first and second
}

#[test]
fn test_batch_operations_preserve_categorical_efficiency() {
    let mut arr = CategoricalArray::<u32>::default();

    // Create data with many repeated categories
    let categories = ["A", "B", "C"];
    let mut data = Vec::new();
    for _ in 0..100 {
        for cat in &categories {
            data.push(cat.to_string());
        }
    }

    arr.extend_from_slice(&data);

    assert_eq!(arr.len(), 300);
    assert_eq!(arr.unique_values().len(), 3); // Only 3 unique despite 300 entries

    // Verify all categories are represented correctly
    for i in 0..300 {
        let expected = categories[i % 3];
        assert_eq!(arr.get(i), Some(expected));
    }
}

#[test]
fn test_categorical_array_concat() {
    let arr1 = CategoricalArray::<u32>::from_values(&["apple", "banana", "apple"]);
    let arr2 = CategoricalArray::<u32>::from_values(&["cherry", "apple"]);

    let result = arr1.concat(arr2).unwrap();

    assert_eq!(result.len(), 5);
    assert_eq!(result.get_str(0), Some("apple"));
    assert_eq!(result.get_str(1), Some("banana"));
    assert_eq!(result.get_str(2), Some("apple"));
    assert_eq!(result.get_str(3), Some("cherry"));
    assert_eq!(result.get_str(4), Some("apple"));

    // Dictionary should be merged: apple, banana, cherry
    assert_eq!(result.unique_values().len(), 3);
    assert!(result.unique_values().contains(&"apple".to_string()));
    assert!(result.unique_values().contains(&"banana".to_string()));
    assert!(result.unique_values().contains(&"cherry".to_string()));
}

#[test]
fn test_categorical_array_concat_with_nulls() {
    let mut arr1 = CategoricalArray::<u32>::default();
    arr1.push_str("red");
    arr1.push_null();
    arr1.push_str("blue");

    let mut arr2 = CategoricalArray::<u32>::default();
    arr2.push_str("green");
    arr2.push_null();

    let result = arr1.concat(arr2).unwrap();

    assert_eq!(result.len(), 5);
    assert_eq!(result.get_str(0), Some("red"));
    assert_eq!(result.get_str(1), None);
    assert_eq!(result.get_str(2), Some("blue"));
    assert_eq!(result.get_str(3), Some("green"));
    assert_eq!(result.get_str(4), None);
    assert_eq!(result.null_count(), 2);
}

#[test]
fn test_categorical_array_concat_disjoint_dictionaries() {
    // First array with dictionary: [red, blue, green]
    let arr1 = CategoricalArray::<u32>::from_values(&["red", "blue", "green", "red", "blue"]);

    // Second array with completely different dictionary: [alpha, beta, gamma]
    let arr2 = CategoricalArray::<u32>::from_values(&["alpha", "beta", "gamma", "alpha"]);

    // Verify initial state
    assert_eq!(arr1.unique_values().len(), 3); // red, blue, green
    assert_eq!(arr2.unique_values().len(), 3); // alpha, beta, gamma

    // Verify arr1 indices point to correct values
    assert_eq!(arr1.get_str(0), Some("red"));
    assert_eq!(arr1.get_str(1), Some("blue"));
    assert_eq!(arr1.get_str(2), Some("green"));
    assert_eq!(arr1.get_str(3), Some("red"));
    assert_eq!(arr1.get_str(4), Some("blue"));

    // Verify arr2 indices point to correct values
    assert_eq!(arr2.get_str(0), Some("alpha"));
    assert_eq!(arr2.get_str(1), Some("beta"));
    assert_eq!(arr2.get_str(2), Some("gamma"));
    assert_eq!(arr2.get_str(3), Some("alpha"));

    let result = arr1.concat(arr2).unwrap();

    // After concatenation, dictionary should have all 6 unique values
    assert_eq!(result.unique_values().len(), 6);
    assert!(result.unique_values().contains(&"red".to_string()));
    assert!(result.unique_values().contains(&"blue".to_string()));
    assert!(result.unique_values().contains(&"green".to_string()));
    assert!(result.unique_values().contains(&"alpha".to_string()));
    assert!(result.unique_values().contains(&"beta".to_string()));
    assert!(result.unique_values().contains(&"gamma".to_string()));

    // Verify all values are correctly accessible after remapping
    assert_eq!(result.len(), 9);

    // Original arr1 values should be unchanged
    assert_eq!(result.get_str(0), Some("red"));
    assert_eq!(result.get_str(1), Some("blue"));
    assert_eq!(result.get_str(2), Some("green"));
    assert_eq!(result.get_str(3), Some("red"));
    assert_eq!(result.get_str(4), Some("blue"));

    // arr2 values should be correctly remapped
    assert_eq!(result.get_str(5), Some("alpha"));
    assert_eq!(result.get_str(6), Some("beta"));
    assert_eq!(result.get_str(7), Some("gamma"));
    assert_eq!(result.get_str(8), Some("alpha"));
}

// Further cases.

#[test]
fn insert_rows_remaps_and_splices() {
    let mut arr = CategoricalArray::<u8>::from_values(&["a", "b", "a"]);
    let other = CategoricalArray::<u8>::from_values(&["c", "a"]);
    arr.insert_rows(1, &other).unwrap();
    assert_eq!(arr.iter_str(), vec!["a", "c", "a", "b", "a"]);
    assert_eq!(arr.unique_values(), &["a".to_string(), "b".to_string(), "c".to_string()]);
    assert_eq!(arr.indices(), &[0u8, 2, 0, 1, 0]);
}

#[test]
fn insert_rows_splices_validity() {
    let mut arr = CategoricalArray::<u8>::default();
    arr.push_str("x");
    arr.push_str("y");
    let mut other = CategoricalArray::<u8>::default();
    other.push_null();
    other.push_str("z");
    arr.insert_rows(2, &other).unwrap();
    assert_eq!(arr.iter_str_opt(), vec![Some("x"), Some("y"), None, Some("z")]);
    assert_eq!(arr.null_mask(), Some(&vec![true, true, false, true]));
}

#[test]
fn insert_rows_remaps_codes_at_null_rows() {
    let mut arr = CategoricalArray::<u8>::from_values(&["a", "b"]);
    let other = CategoricalArray::<u8>::new(vec![1u8, 0], vec!["x".to_string(), "b".to_string()], Some(vec![false, true]));
    arr.insert_rows(1, &other).unwrap();
    assert_eq!(arr.iter_str_opt(), vec![Some("a"), None, Some("x"), Some("b")]);
    assert_eq!(arr.indices(), &[0u8, 1, 2, 1]);
}

#[test]
fn insert_rows_past_the_end_is_refused() {
    let mut arr = CategoricalArray::<u8>::from_values(&["a"]);
    let other = CategoricalArray::<u8>::from_values(&["b"]);
    let err = arr.insert_rows(3, &other).unwrap_err();
    assert_eq!(err, MinarrowError::IndexError("Index 3 out of bounds for array of length 1".to_string()));
    assert_eq!(arr.len(), 1);
}

#[test]
fn insert_rows_of_nothing_changes_nothing() {
    let mut arr = CategoricalArray::<u8>::from_values(&["a", "b"]);
    let before = arr.clone();
    arr.insert_rows(1, &CategoricalArray::<u8>::default()).unwrap();
    assert_eq!(arr, before);
}

#[test]
fn split_then_concat_restores_the_rows() {
    let arr = CategoricalArray::<u16>::from_values(&["p", "q", "p", "r"]);
    let (a, b) = arr.clone().split(1).unwrap();
    assert_eq!(a.iter_str(), vec!["p"]);
    assert_eq!(b.iter_str(), vec!["q", "p", "r"]);
    let joined = a.concat(b).unwrap();
    assert_eq!(joined.iter_str(), arr.iter_str());
}

#[test]
fn split_at_the_edges_is_refused() {
    let arr = CategoricalArray::<u16>::from_values(&["p", "q"]);
    let err = arr.clone().split(0).unwrap_err();
    assert_eq!(err, MinarrowError::IndexError("Split index 0 out of valid range (0, 2)".to_string()));
    assert!(arr.split(2).is_err());
}

#[test]
fn delete_range_keeps_the_dictionary() {
    let mut arr = CategoricalArray::<u8>::from_values(&["a", "b", "c", "d"]);
    arr.delete_range(1, 3);
    assert_eq!(arr.iter_str(), vec!["a", "d"]);
    assert_eq!(arr.unique_values().len(), 4);
}

#[test]
fn append_array_keeps_codes_as_they_are() {
    let mut arr = CategoricalArray::<u8>::from_values(&["a", "b"]);
    let other = CategoricalArray::<u8>::from_values(&["a"]);
    arr.append_array(&other);
    assert_eq!(arr.indices(), &[0u8, 1, 0]);
    assert_eq!(arr.iter_str(), vec!["a", "b", "a"]);
}

#[test]
fn append_range_past_the_source_is_refused() {
    let mut arr = CategoricalArray::<u8>::from_values(&["a", "b"]);
    let other = CategoricalArray::<u8>::from_values(&["a", "b", "a"]);
    let err = arr.append_range(&other, 2, 2).unwrap_err();
    assert_eq!(
        err,
        MinarrowError::IndexError("append_range: offset 2 + len 2 exceeds source length 3".to_string())
    );
    assert_eq!(arr.len(), 2);
    // Codes are read against this array's dictionary, which `other`'s extends.
    arr.append_range(&other, 1, 2).unwrap();
    assert_eq!(arr.iter_str(), vec!["a", "b", "b", "a"]);
}

#[test]
fn from_vec_leaves_null_rows_out_of_the_dictionary() {
    let arr = CategoricalArray::<u8>::from_vec(vec!["a", "skip", "b"], Some(vec![true, false, true]));
    assert_eq!(arr.unique_values(), &["a".to_string(), "b".to_string()]);
    assert_eq!(arr.indices(), &[0u8, 0, 1]);
    assert_eq!(arr.iter_str_opt(), vec![Some("a"), None, Some("b")]);
}

#[test]
fn interning_the_same_value_twice_gives_the_same_code() {
    let mut arr = CategoricalArray::<u64>::default();
    let a = arr.push_str("same");
    let b = arr.push_str("same");
    assert_eq!(a, b);
    assert_eq!(arr.unique_values().len(), 1);
}

#[test]
fn categorical_shape_is_one_dimensional() {
    let arr = CategoricalArray::<u8>::from_values(&["a", "b", "c"]);
    assert_eq!(arr.shape(), ShapeDim::Rank1(3));
}

#[test]
fn describe_lists_rows_and_counts() {
    let mut arr = CategoricalArray::<u8>::from_values(&["a"]);
    arr.push_null();
    assert_eq!(
        arr.describe(),
        "CategoricalArray [2 values]s] (dtype: categorical[str], nulls: 1, dictionary size: 1)\n[\"a\", null]"
    );
}

#[test]
fn describe_elides_rows_past_the_preview() {
    let arr = CategoricalArray::<u8>::fill("z".to_string(), 30);
    let text = arr.describe();
    assert!(text.ends_with(", \"z\", \u{2026} (30 total)]"));
    assert_eq!(text.matches("\"z\"").count(), 25);
}

#[test]
fn consolidate_windows_into_one_array() {
    let a = CategoricalArray::<u8>::from_values(&["x", "y", "x"]);
    let b = CategoricalArray::<u8>::from_values(&["w", "y"]);
    let out = vec![(&a, 1, 2), (&b, 0, 2)].consolidate();
    assert_eq!(out.iter_str(), vec!["y", "x", "w", "y"]);
    assert_eq!(out.unique_values(), &["x".to_string(), "y".to_string(), "w".to_string()]);
}

#[test]
fn consolidated_rows_follow_their_windows() {
    let mut a = CategoricalArray::<u8>::from_values(&["p", "q", "r", "s"]);
    a.set_null(2);
    let b = CategoricalArray::<u8>::from_values(&["t", "p"]);
    let c = CategoricalArray::<u8>::from_values(&["u", "v", "w"]);
    let windows = vec![(&a, 1, 3), (&b, 0, 0), (&c, 1, 2)];
    let out = windows.clone().consolidate();
    assert_eq!(out.len(), 5);
    let mut before = 0;
    for (arr, off, len) in windows {
        for i in 0..len {
            assert_eq!(out.get_str(before + i), arr.get_str(off + i));
        }
        before += len;
    }
}

#[test]
fn row_range_reads() {
    let mut arr = CategoricalArray::<u8>::from_values(&["a", "b", "c"]);
    arr.set_null(1);
    assert_eq!(arr.iter_str_range(1, 2), vec!["", "c"]);
    assert_eq!(arr.iter_str_opt_range(0, 2), vec![Some("a"), None]);
}

#[test]
fn dictionary_capacity_by_code_width() {
    assert_eq!(max_cap::<u8>(), 256);
    assert_eq!(max_cap::<u16>(), 65_536);
    assert_eq!(max_cap::<u32>(), 1 << 20);
    assert_eq!(max_cap::<u64>(), 1 << 20);
}

#[test]
fn test_iterators_yield_correct_values() {
    let mut arr = CategoricalArray::<u8>::default();
    arr.push_str("cat");
    arr.push_str("dog");
    arr.push_str("bird");

    let mut it = arr.indices().iter();
    assert_eq!(it.next(), Some(&0u8));
    assert_eq!(it.next(), Some(&1u8));

    let mut it = arr.unique_values().iter();
    assert!(it.any(|s| s == "cat"));
    assert!(it.any(|s| s == "dog"));

    let mut it_mut = arr.indices_mut().iter_mut();
    if let Some(v) = it_mut.next() {
        *v = 2;
    }
    assert_eq!(arr.get(0), Some("bird"));
}

#[test]
fn values_mut_renames_a_category() {
    let mut arr = CategoricalArray::<u8>::from_values(&["a", "b", "a"]);
    arr.values_mut()[0] = "z".to_string();
    assert_eq!(arr.iter_str(), vec!["z", "b", "z"]);
}
