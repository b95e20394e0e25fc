use minarrow::ndarray::NdArray;
use minarrow::super_ndarray::SuperNdArray;
use minarrow::super_ndarray_view::SuperNdArrayV;

fn two_batch_2d() -> SuperNdArray<f64> {
    SuperNdArray::from_batches(
        vec![
            NdArray::from_slice(&[1.0, 2.0, 10.0, 20.0], &[2, 2]),
            NdArray::from_slice(&[3.0, 4.0, 5.0, 30.0, 40.0, 50.0], &[3, 2]),
        ],
        "data",
    )
}

#[test]
fn full_view_from_super() {
    let snd = two_batch_2d();
    let v = SuperNdArrayV::from_super(&snd);
    assert_eq!(v.n_slices(), 2);
    assert_eq!(v.n_obs(), 5);
    assert_eq!(v.shape(), vec![5, 2]);
    assert_eq!(v.get(&[0, 0]), 1.0);
    assert_eq!(v.get(&[2, 0]), 3.0);
    assert_eq!(v.get(&[4, 1]), 50.0);
}

#[test]
fn window_spans_batches() {
    let snd = two_batch_2d();
    // Rows 1..4 span the batch boundary at row 2.
    let v = snd.slice(1, 3);
    assert_eq!(v.n_slices(), 2);
    assert_eq!(v.n_obs(), 3);
    assert_eq!(v.get(&[0, 0]), 2.0);
    assert_eq!(v.get(&[1, 0]), 3.0);
    assert_eq!(v.get(&[2, 1]), 40.0);
}

#[test]
fn sub_window() {
    let snd = two_batch_2d();
    let v = snd.slice(0, 5);
    let sub = v.slice(1, 3);
    assert_eq!(sub.n_obs(), 3);
    assert_eq!(sub.get(&[0, 0]), 2.0);
    assert_eq!(sub.get(&[2, 0]), 4.0);
}

#[test]
fn obs_across_boundary() {
    let snd = two_batch_2d();
    let v = snd.slice(0, 5);
    let o = v.obs(3);
    assert_eq!(o.shape(), &[2]);
    assert_eq!(o.get(&[0]), 4.0);
    assert_eq!(o.get(&[1]), 40.0);
}

#[test]
fn consolidate_window() {
    let snd = two_batch_2d();
    let v = snd.slice(1, 3);
    let nd = v.consolidate();
    assert_eq!(nd.shape(), &[3, 2]);
    assert!(nd.is_contiguous());
    assert_eq!(nd.col(0), &[2.0, 3.0, 4.0]);
    assert_eq!(nd.col(1), &[20.0, 30.0, 40.0]);
}

#[test]
fn iteration_crosses_slices() {
    let snd = SuperNdArray::from_batches(
        vec![NdArray::from_slice(&[1.0, 2.0], &[2]), NdArray::from_slice(&[3.0], &[1])],
        "1d",
    );
    let v = snd.slice(0, 3);
    let vals: Vec<f64> = v.to_vec();
    assert_eq!(vals, vec![1.0, 2.0, 3.0]);
}

#[test]
fn eq_ignores_slice_boundaries() {
    let snd = two_batch_2d();
    let whole = snd.slice(0, 5);
    let single = SuperNdArrayV::from_super(&SuperNdArray::from_batches(
        vec![NdArray::from_slice(&[1.0, 2.0, 3.0, 4.0, 5.0, 10.0, 20.0, 30.0, 40.0, 50.0], &[5, 2])],
        "one",
    ));
    assert!(whole.equals(&single));
}

#[test]
fn changed_value_breaks_view_equality() {
    let snd = two_batch_2d();
    let whole = snd.slice(0, 5);
    let other = SuperNdArrayV::from_super(&SuperNdArray::from_batches(
        vec![NdArray::from_slice(&[1.0, 2.0, 3.0, 4.0, 5.0, 10.0, 20.0, 30.0, 40.0, 99.0], &[5, 2])],
        "one",
    ));
    assert!(!whole.equals(&other));
    assert!(!whole.equals(&snd.slice(0, 4)));
}

#[test]
fn row_selection_on_window() {
    let snd = two_batch_2d();
    let v = snd.slice(0, 5);
    // Contiguous sub-selection narrows zero-copy.
    let sub = v.r(1..4);
    assert_eq!(sub.n_obs(), 3);
    assert_eq!(sub.get(&[0, 0]), 2.0);
    // Index selection gathers in order.
    let picked = v.r(&[4usize, 0][..]);
    assert_eq!(picked.n_slices(), 1);
    assert_eq!(picked.get(&[0, 1]), 50.0);
    assert_eq!(picked.get(&[1, 0]), 1.0);
}

#[test]
fn apply_materialises_window() {
    let snd = two_batch_2d();
    let out = snd.slice(1, 3).apply(|x| x * 2.0);
    assert_eq!(out.shape(), &[3, 2]);
    assert_eq!(out.get(&[0, 0]), 4.0);
    assert_eq!(out.get(&[2, 1]), 80.0);
}

#[test]
fn concat_appends_slices() {
    let snd = two_batch_2d();
    let a = snd.slice(0, 2);
    let b = snd.slice(2, 3);
    let joined = a.concat(b).unwrap();
    assert_eq!(joined.n_obs(), 5);
    assert_eq!(joined.get(&[4, 1]), 50.0);
}

#[test]
fn concat_rejects_a_trailing_shape_mismatch() {
    let a = SuperNdArrayV::from_super(&two_batch_2d());
    let b = SuperNdArrayV::from_super(&SuperNdArray::from_batches(
        vec![NdArray::from_slice(&[1.0, 2.0, 3.0], &[1, 3])],
        "wide",
    ));
    let e = a.concat(b).unwrap_err();
    assert_eq!(e.to_message(), "incompatible SuperNdArrayV and SuperNdArrayV: shape [5, 2] vs [1, 3]");
}

#[test]
fn view_description() {
    let v = two_batch_2d().slice(1, 3);
    assert_eq!(v.describe(), "SuperNdArrayV: 2 slices, 2D, shape [3, 2], 6 elements");
}

#[test]
fn empty_window_inside_a_batch_keeps_one_empty_slice() {
    let snd = two_batch_2d();
    let v = snd.slice(1, 0);
    assert_eq!(v.n_slices(), 1);
    assert_eq!(v.n_obs(), 0);
    let at_end = snd.slice(5, 0);
    assert_eq!(at_end.n_slices(), 0);
}

// Row selection on the chunked array itself.

#[test]
fn row_selection_contiguous_crosses_batches() {
    let snd = two_batch_2d();
    let v = snd.r(1..4);
    assert_eq!(v.n_slices(), 2);
    assert_eq!(v.n_obs(), 3);
    assert_eq!(v.get(&[0, 0]), 2.0);
    assert_eq!(v.get(&[2, 1]), 40.0);
}

#[test]
fn row_selection_gathers_across_batches() {
    let snd = SuperNdArray::from_batches(
        vec![NdArray::from_slice(&[1.0, 2.0], &[2]), NdArray::from_slice(&[3.0, 4.0], &[2])],
        "data",
    );
    let v = snd.r(&[3usize, 0][..]);
    assert_eq!(v.n_slices(), 1);
    let vals: Vec<f64> = v.to_vec();
    assert_eq!(vals, vec![4.0, 1.0]);
}

// Lanes and logical equality of the chunked array itself.

#[test]
fn apply_axis_zero_crosses_batches() {
    // col0 = [1, 2, 3, 4], col1 = [10, 20, 30, 40] across two batches.
    let snd = SuperNdArray::from_batches(
        vec![
            NdArray::from_slice(&[1.0, 2.0, 10.0, 20.0], &[2, 2]),
            NdArray::from_slice(&[3.0, 4.0, 30.0, 40.0], &[2, 2]),
        ],
        "data",
    );
    let sums = snd.apply_axis(0, |lane| lane.to_vec().iter().sum());
    assert_eq!(sums.n_batches(), 1);
    assert_eq!(sums.shape(), vec![2]);
    assert_eq!(sums.get(&[0]), 10.0);
    assert_eq!(sums.get(&[1]), 100.0);
}

#[test]
fn apply_axis_inner_preserves_chunking() {
    let snd = SuperNdArray::from_batches(
        vec![
            NdArray::from_slice(&[1.0, 2.0, 10.0, 20.0], &[2, 2]),
            NdArray::from_slice(&[3.0, 30.0], &[1, 2]),
        ],
        "data",
    );
    // Sum each row lane (axis 1) - per-batch, boundaries kept.
    let row_sums = snd.apply_axis(1, |lane| lane.to_vec().iter().sum());
    assert_eq!(row_sums.n_batches(), 2);
    assert_eq!(row_sums.shape(), vec![3]);
    assert_eq!(row_sums.get(&[0]), 11.0);
    assert_eq!(row_sums.get(&[1]), 22.0);
    assert_eq!(row_sums.get(&[2]), 33.0);
}

#[test]
fn eq_ignores_chunking_and_name() {
    // Same logical [3,2] values, chunked and named differently.
    let single = SuperNdArray::from_batches(
        vec![NdArray::from_slice(&[1.0, 2.0, 3.0, 4.0, 5.0, 6.0], &[3, 2])],
        "single",
    );
    let split = SuperNdArray::from_batches(
        vec![
            NdArray::from_slice(&[1.0, 4.0], &[1, 2]),
            NdArray::from_slice(&[2.0, 3.0, 5.0, 6.0], &[2, 2]),
        ],
        "split",
    );
    assert!(single.equals(&split));

    // A changed value breaks equality.
    let different = SuperNdArray::from_batches(
        vec![NdArray::from_slice(&[1.0, 2.0, 3.0, 4.0, 5.0, 99.0], &[3, 2])],
        "single",
    );
    assert!(!single.equals(&different));
}

#[test]
fn eq_chunk_invariant_3d() {
    // Same logical [3,2,2] values, one whole chunk versus a [1,2,2] and
    // a [2,2,2] split, exercising the rank-3 column walk in equality.
    let whole = SuperNdArray::from_batches(
        vec![NdArray::from_slice(
            &[1.0, 2.0, 3.0, 4.0, 5.0, 6.0, 7.0, 8.0, 9.0, 10.0, 11.0, 12.0],
            &[3, 2, 2],
        )],
        "whole",
    );
    let split = SuperNdArray::from_batches(
        vec![
            NdArray::from_slice(&[1.0, 4.0, 7.0, 10.0], &[1, 2, 2]),
            NdArray::from_slice(&[2.0, 3.0, 5.0, 6.0, 8.0, 9.0, 11.0, 12.0], &[2, 2, 2]),
        ],
        "split",
    );
    assert!(whole.equals(&split));
}

#[test]
fn eq_strided_batch_matches_contiguous() {
    // Row-major batch holding logical col0 = [1, 3], col1 = [2, 4],
    // compared against the same values chunked row by row.
    let strided = SuperNdArray::from_batches(
        vec![NdArray::from_buffer(vec![1.0, 2.0, 3.0, 4.0], &[2, 2], &[2, 1])],
        "strided",
    );
    let compact = SuperNdArray::from_batches(
        vec![NdArray::from_slice(&[1.0, 2.0], &[1, 2]), NdArray::from_slice(&[3.0, 4.0], &[1, 2])],
        "compact",
    );
    assert!(strided.equals(&compact));

    let different = SuperNdArray::from_batches(
        vec![NdArray::from_slice(&[1.0, 3.0, 2.0, 99.0], &[2, 2])],
        "different",
    );
    assert!(!strided.equals(&different));
}
