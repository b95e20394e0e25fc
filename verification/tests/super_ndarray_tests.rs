use minarrow::ndarray::NdArray;
use minarrow::selection::AxisSel;
use minarrow::super_ndarray::{RechunkStrategy, SuperNdArray};

#[test]
fn apply_preserves_chunking() {
    let snd = SuperNdArray::from_batches(
        vec![NdArray::from_slice(&[1.0, 2.0], &[2]), NdArray::from_slice(&[3.0], &[1])],
        "stream",
    );
    let out = snd.apply(|x| x * 10.0);
    assert_eq!(out.n_batches(), 2);
    assert_eq!(out.name, "stream");
    let vals: Vec<f64> = out.to_vec();
    assert_eq!(vals, vec![10.0, 20.0, 30.0]);
}

#[test]
fn super_ndarray_apply_mut_in_place() {
    let mut snd = SuperNdArray::from_batches(
        vec![NdArray::from_slice(&[1.0, 2.0], &[2]), NdArray::from_slice(&[3.0], &[1])],
        "stream",
    );
    snd.apply_mut(|x| x + 1.0);
    assert_eq!(snd.n_batches(), 2);
    let vals: Vec<f64> = snd.to_vec();
    assert_eq!(vals, vec![2.0, 3.0, 4.0]);
}

#[test]
fn empty() {
    let snd = SuperNdArray::<f64>::new("empty");
    assert!(snd.is_empty());
    assert_eq!(snd.n_batches(), 0);
}

#[test]
fn from_batches_1d() {
    let a = NdArray::from_slice(&[1.0, 2.0, 3.0], &[3]);
    let b = NdArray::from_slice(&[4.0, 5.0], &[2]);
    let snd = SuperNdArray::from_batches(vec![a, b], "test");
    assert_eq!(snd.n_batches(), 2);
    assert_eq!(snd.len(), 5);
    assert_eq!(snd.n_obs(), 5);
    assert_eq!(snd.ndim(), 1);
}

#[test]
fn from_batches_2d() {
    let a = NdArray::from_slice(&[1.0, 2.0, 3.0, 4.0], &[2, 2]);
    let b = NdArray::from_slice(&[5.0, 6.0, 7.0, 8.0, 9.0, 10.0], &[3, 2]);
    let snd = SuperNdArray::from_batches(vec![a, b], "data");
    assert_eq!(snd.n_batches(), 2);
    assert_eq!(snd.len(), 10);
    assert_eq!(snd.n_obs(), 5);
    assert_eq!(snd.inner_shape(), &[2]);
}

#[test]
fn push_and_validate() {
    let mut snd = SuperNdArray::new("stream");
    snd.push(NdArray::from_slice(&[1.0, 2.0, 3.0, 4.0], &[2, 2]));
    snd.push(NdArray::from_slice(&[5.0, 6.0, 7.0, 8.0], &[2, 2]));
    assert_eq!(snd.n_batches(), 2);
    assert_eq!(snd.len(), 8);
    assert_eq!(snd.n_obs(), 4);
}

#[test]
fn global_get_1d() {
    let snd = SuperNdArray::from_batches(
        vec![NdArray::from_slice(&[10.0, 20.0, 30.0], &[3]), NdArray::from_slice(&[40.0, 50.0], &[2])],
        "test",
    );
    assert_eq!(snd.get(&[0]), 10.0);
    assert_eq!(snd.get(&[2]), 30.0);
    assert_eq!(snd.get(&[3]), 40.0);
    assert_eq!(snd.get(&[4]), 50.0);
}

#[test]
fn global_get_2d() {
    let snd = SuperNdArray::from_batches(
        vec![
            NdArray::from_slice(&[1.0, 2.0, 3.0, 4.0], &[2, 2]),
            NdArray::from_slice(&[5.0, 6.0, 7.0, 8.0, 9.0, 10.0], &[3, 2]),
        ],
        "data",
    );
    assert_eq!(snd.get(&[0, 0]), 1.0);
    assert_eq!(snd.get(&[1, 1]), 4.0);
    assert_eq!(snd.get(&[2, 0]), 5.0);
    assert_eq!(snd.get(&[4, 1]), 10.0);
}

#[test]
fn global_set_2d() {
    let mut snd = SuperNdArray::from_batches(
        vec![
            NdArray::from_slice(&[1.0, 2.0, 3.0, 4.0], &[2, 2]),
            NdArray::from_slice(&[5.0, 6.0, 7.0, 8.0], &[2, 2]),
        ],
        "mut",
    );
    snd.set(&[3, 1], 99.0);
    assert_eq!(snd.get(&[3, 1]), 99.0);
}

#[test]
fn iter_1d_across_batches() {
    let snd = SuperNdArray::from_batches(
        vec![NdArray::from_slice(&[1.0, 2.0, 3.0], &[3]), NdArray::from_slice(&[4.0, 5.0], &[2])],
        "test",
    );
    let vals: Vec<f64> = snd.to_vec();
    assert_eq!(vals, vec![1.0, 2.0, 3.0, 4.0, 5.0]);
}

#[test]
fn iter_2d_across_batches() {
    let snd = SuperNdArray::from_batches(
        vec![
            NdArray::from_slice(&[1.0, 2.0, 3.0, 4.0], &[2, 2]),
            NdArray::from_slice(&[5.0, 6.0, 7.0, 8.0], &[2, 2]),
        ],
        "data",
    );
    let vals: Vec<f64> = snd.to_vec();
    assert_eq!(vals, vec![1.0, 2.0, 3.0, 4.0, 5.0, 6.0, 7.0, 8.0]);
}

#[test]
fn super_ndarray_iter_exact_size() {
    let snd = SuperNdArray::from_batches(
        vec![NdArray::from_slice(&[1.0, 2.0, 3.0], &[3]), NdArray::from_slice(&[4.0, 5.0], &[2])],
        "test",
    );
    assert_eq!(snd.to_vec().len(), 5);
}

#[test]
fn consolidate_1d() {
    let snd = SuperNdArray::from_batches(
        vec![NdArray::from_slice(&[1.0, 2.0, 3.0], &[3]), NdArray::from_slice(&[4.0, 5.0], &[2])],
        "test",
    );
    let result = snd.consolidate();
    assert_eq!(result.shape(), &[5]);
    let vals: Vec<f64> = result.to_vec();
    assert_eq!(vals, vec![1.0, 2.0, 3.0, 4.0, 5.0]);
}

#[test]
fn consolidate_2d() {
    let snd = SuperNdArray::from_batches(
        vec![
            NdArray::from_slice(&[1.0, 2.0, 3.0, 4.0], &[2, 2]),
            NdArray::from_slice(&[5.0, 6.0, 7.0, 8.0, 9.0, 10.0], &[3, 2]),
        ],
        "data",
    );
    let result = snd.consolidate();
    assert_eq!(result.shape(), &[5, 2]);
    assert_eq!(result.col(0), &[1.0, 2.0, 5.0, 6.0, 7.0]);
    assert_eq!(result.col(1), &[3.0, 4.0, 8.0, 9.0, 10.0]);
}

#[test]
fn consolidate_single_chunk() {
    let a = NdArray::from_slice(&[1.0, 2.0, 3.0], &[3]);
    let snd = SuperNdArray::from_batches(vec![a.clone()], "one");
    let result = snd.consolidate();
    // The single-batch shortcut carries the chunked array's name.
    assert_eq!(result.name.as_deref(), Some("one"));
    let mut expected = a;
    expected.name = Some("one".to_string());
    assert_eq!(result, expected);
}

#[test]
fn batch_accessors() {
    let snd = SuperNdArray::from_batches(
        vec![NdArray::from_slice(&[1.0, 2.0], &[2]), NdArray::from_slice(&[3.0], &[1])],
        "ticks",
    );
    assert_eq!(snd.batches().len(), 2);
    assert_eq!(snd.batch(1).unwrap().get(&[0]), 3.0);
    assert!(snd.batch(2).is_none());
    let batches = snd.into_batches();
    assert_eq!(batches.len(), 2);
}

#[test]
fn consolidate_3d() {
    let a = NdArray::from_slice(&[1.0, 2.0, 3.0, 4.0, 5.0, 6.0, 7.0, 8.0], &[2, 2, 2]);
    let b = NdArray::from_slice(&[9.0, 10.0, 11.0, 12.0], &[1, 2, 2]);
    let snd = SuperNdArray::from_batches(vec![a, b], "cube");
    let c = snd.consolidate();
    assert_eq!(c.shape(), &[3, 2, 2]);
    assert_eq!(c.get(&[0, 0, 0]), 1.0);
    assert_eq!(c.get(&[1, 0, 0]), 2.0);
    assert_eq!(c.get(&[2, 0, 0]), 9.0);
    assert_eq!(c.get(&[0, 1, 0]), 3.0);
    assert_eq!(c.get(&[2, 1, 0]), 10.0);
    assert_eq!(c.get(&[1, 1, 1]), 8.0);
    assert_eq!(c.get(&[2, 0, 1]), 11.0);
    assert_eq!(c.get(&[2, 1, 1]), 12.0);
}

#[test]
fn rechunk_count() {
    let mut snd =
        SuperNdArray::from_batches(vec![NdArray::from_slice(&[1.0, 2.0, 3.0, 4.0, 5.0], &[5])], "test");
    snd.rechunk(RechunkStrategy::Count(2)).unwrap();
    assert_eq!(snd.n_batches(), 3);
    assert_eq!(snd.len(), 5);
    let vals: Vec<f64> = snd.to_vec();
    assert_eq!(vals, vec![1.0, 2.0, 3.0, 4.0, 5.0]);
}

#[test]
fn rechunk_2d() {
    let mut snd = SuperNdArray::from_batches(
        vec![NdArray::from_slice(&[1.0, 2.0, 3.0, 4.0, 5.0, 6.0], &[3, 2])],
        "test",
    );
    snd.rechunk(RechunkStrategy::Count(2)).unwrap();
    assert_eq!(snd.n_batches(), 2);
    assert_eq!(snd.len(), 6);
    assert_eq!(snd.n_obs(), 3);
    assert_eq!(snd.get(&[0, 0]), 1.0);
    assert_eq!(snd.get(&[2, 1]), 6.0);
}

#[test]
fn rechunk_auto() {
    let data: Vec<f64> = (0..100).map(|x| x as f64).collect();
    let mut snd = SuperNdArray::from_batches(vec![NdArray::from_slice(&data, &[100])], "big");
    snd.rechunk(RechunkStrategy::Auto).unwrap();
    assert_eq!(snd.n_batches(), 1);
}

#[test]
fn rechunk_zero_count_is_refused() {
    let mut snd = SuperNdArray::from_batches(vec![NdArray::from_slice(&[1.0, 2.0], &[2])], "z");
    assert!(snd.rechunk(RechunkStrategy::Count(0)).is_err());
    assert_eq!(snd.n_batches(), 1);
}

#[test]
fn concat_super_ndarrays() {
    let a = SuperNdArray::from_batches(vec![NdArray::from_slice(&[1.0, 2.0], &[2])], "a");
    let b = SuperNdArray::from_batches(vec![NdArray::from_slice(&[3.0, 4.0], &[2])], "b");
    let c = a.concat(b).unwrap();
    assert_eq!(c.n_batches(), 2);
    assert_eq!(c.len(), 4);
}

#[test]
fn shape_method() {
    let snd = SuperNdArray::from_batches(
        vec![
            NdArray::from_slice(&[1.0, 2.0, 3.0, 4.0], &[2, 2]),
            NdArray::from_slice(&[5.0, 6.0, 7.0, 8.0, 9.0, 10.0], &[3, 2]),
        ],
        "test",
    );
    assert_eq!(snd.shape(), vec![5, 2]);
}

#[test]
fn consolidate_non_contiguous_single_batch() {
    let nd = NdArray::from_buffer(vec![1.0, 2.0, 3.0, 4.0], &[2, 2], &[2, 1]);
    assert!(!nd.is_contiguous());
    let snd = SuperNdArray::from_batches(vec![nd], "strided");
    let result = snd.consolidate();
    assert!(result.is_contiguous());
    assert_eq!(result.shape(), &[2, 2]);
    assert_eq!(result.col(0), &[1.0, 3.0]);
    assert_eq!(result.col(1), &[2.0, 4.0]);
}

#[test]
fn consolidate_mixed_layout_batches() {
    let compact = NdArray::from_slice(&[10.0, 20.0, 30.0, 40.0], &[2, 2]);
    let strided = NdArray::from_buffer(vec![1.0, 2.0, 3.0, 4.0], &[2, 2], &[2, 1]);
    let snd = SuperNdArray::from_batches(vec![compact, strided], "mixed");
    let result = snd.consolidate();
    assert_eq!(result.shape(), &[4, 2]);
    assert_eq!(result.col(0), &[10.0, 20.0, 1.0, 3.0]);
    assert_eq!(result.col(1), &[30.0, 40.0, 2.0, 4.0]);
}

#[test]
fn obs_resolves_across_chunk_boundary() {
    let snd = SuperNdArray::from_batches(
        vec![
            NdArray::from_slice(&[1.0, 2.0, 3.0, 4.0], &[2, 2]),
            NdArray::from_slice(&[5.0, 6.0, 7.0, 8.0, 9.0, 10.0], &[3, 2]),
        ],
        "data",
    );
    let o = snd.obs(2);
    assert_eq!(o.shape(), &[2]);
    assert_eq!(o.get(&[0]), 5.0);
    assert_eq!(o.get(&[1]), 8.0);
}

#[test]
fn col_concatenates_across_batches() {
    let snd = SuperNdArray::from_batches(
        vec![
            NdArray::from_slice(&[1.0, 2.0, 3.0, 4.0], &[2, 2]),
            NdArray::from_slice(&[5.0, 6.0, 7.0, 8.0, 9.0, 10.0], &[3, 2]),
        ],
        "data",
    );
    assert_eq!(snd.col(0), vec![1.0, 2.0, 5.0, 6.0, 7.0]);
    assert_eq!(snd.col(1), vec![3.0, 4.0, 8.0, 9.0, 10.0]);
}

#[test]
fn from_batches_empty_then_push_adopts_shape() {
    let mut snd = SuperNdArray::<f64>::from_batches(vec![], "fresh");
    assert_eq!(snd.n_batches(), 0);
    assert_eq!(snd.ndim(), 0);
    assert!(snd.is_empty());
    snd.push(NdArray::from_slice(&[1.0, 2.0, 3.0, 4.0], &[2, 2]));
    assert_eq!(snd.ndim(), 2);
    assert_eq!(snd.inner_shape(), &[2]);
    assert_eq!(snd.n_obs(), 2);
}

#[test]
fn concat_rank_mismatch_errors() {
    let a = SuperNdArray::from_batches(vec![NdArray::from_slice(&[1.0, 2.0], &[2])], "a");
    let b = SuperNdArray::from_batches(vec![NdArray::from_slice(&[1.0, 2.0, 3.0, 4.0], &[2, 2])], "b");
    let err = a.concat(b).unwrap_err();
    assert!(err.to_message().contains("rank 1 vs 2"));
}

#[test]
fn concat_inner_shape_mismatch_errors() {
    let a = SuperNdArray::from_batches(vec![NdArray::from_slice(&[1.0, 2.0, 3.0, 4.0], &[2, 2])], "a");
    let b = SuperNdArray::from_batches(
        vec![NdArray::from_slice(&[1.0, 2.0, 3.0, 4.0, 5.0, 6.0], &[2, 3])],
        "b",
    );
    let err = a.concat(b).unwrap_err();
    assert!(err.to_message().contains("inner shape [2] vs [3]"));
}

#[test]
fn rechunk_3d_count() {
    let data: Vec<f64> = (1..=16).map(|x| x as f64).collect();
    let mut snd = SuperNdArray::from_batches(vec![NdArray::from_slice(&data, &[4, 2, 2])], "cube");
    snd.rechunk(RechunkStrategy::Count(3)).unwrap();
    assert_eq!(snd.n_batches(), 2);
    assert_eq!(snd.batch(0).unwrap().shape(), &[3, 2, 2]);
    assert_eq!(snd.batch(1).unwrap().shape(), &[1, 2, 2]);
    assert_eq!(snd.get(&[0, 0, 0]), 1.0);
    assert_eq!(snd.get(&[2, 1, 0]), 7.0);
    assert_eq!(snd.get(&[3, 0, 1]), 12.0);
    assert_eq!(snd.get(&[3, 1, 1]), 16.0);
}

#[test]
fn zero_observation_batch() {
    let snd = SuperNdArray::from_batches(
        vec![
            NdArray::from_slice(&[1.0, 2.0, 3.0, 4.0], &[2, 2]),
            NdArray::from_slice(&[], &[0, 2]),
            NdArray::from_slice(&[5.0, 6.0, 7.0, 8.0], &[2, 2]),
        ],
        "gappy",
    );
    assert_eq!(snd.n_obs(), 4);
    let vals: Vec<f64> = snd.to_vec();
    assert_eq!(vals, vec![1.0, 2.0, 3.0, 4.0, 5.0, 6.0, 7.0, 8.0]);
    let result = snd.consolidate();
    assert_eq!(result.shape(), &[4, 2]);
    assert_eq!(result.col(0), &[1.0, 2.0, 5.0, 6.0]);
    assert_eq!(result.col(1), &[3.0, 4.0, 7.0, 8.0]);
}

#[test]
fn describe_summarises_the_batches() {
    let snd = SuperNdArray::from_batches(
        vec![NdArray::from_slice(&[1.0, 2.0, 3.0, 4.0], &[2, 2]), NdArray::from_slice(&[5.0, 6.0], &[1, 2])],
        "grid",
    );
    assert_eq!(snd.describe(), "SuperNdArray 'grid': 2 batches, 2D, shape [3, 2], 6 elements");
}

#[test]
fn axis_selection_windows_and_narrows() {
    // col0 = [1..5], col1 = [10..50] across two batches.
    let snd = SuperNdArray::from_batches(
        vec![
            NdArray::from_slice(&[1.0, 2.0, 10.0, 20.0], &[2, 2]),
            NdArray::from_slice(&[3.0, 4.0, 5.0, 30.0, 40.0, 50.0], &[3, 2]),
        ],
        "data",
    );
    // Axis-0 range crosses the batch boundary, trailing index collapses.
    let v = snd.s(&[AxisSel::Range(1, 4), AxisSel::Index(1)]);
    assert_eq!(v.ndim(), 1);
    assert_eq!(v.n_obs(), 3);
    assert_eq!(v.get(&[0]), 20.0);
    assert_eq!(v.get(&[2]), 40.0);
    // Axis-0 single index keeps the dimension as a one-observation window.
    let one = snd.s(&[AxisSel::Index(3), AxisSel::Range(0, 2)]);
    assert_eq!(one.n_obs(), 1);
    assert_eq!(one.get(&[0, 0]), 4.0);
    assert_eq!(one.get(&[0, 1]), 40.0);
}

#[test]
fn axis_selection_on_a_one_dimensional_chunked_array() {
    let snd = SuperNdArray::from_batches(
        vec![NdArray::from_slice(&[1.0, 2.0], &[2]), NdArray::from_slice(&[3.0, 4.0, 5.0], &[3])],
        "stream",
    );
    let v = snd.s(&[AxisSel::Range(1, 4)]);
    assert_eq!(v.ndim(), 1);
    assert_eq!(v.to_vec(), vec![2.0, 3.0, 4.0]);
    let one = snd.s(&[AxisSel::Index(4)]);
    assert_eq!(one.n_obs(), 1);
    assert_eq!(one.get(&[0]), 5.0);
}

#[test]
fn axis_selection_composes_on_a_chunked_view() {
    let snd = SuperNdArray::from_batches(
        vec![
            NdArray::from_slice(&[1.0, 2.0, 10.0, 20.0], &[2, 2]),
            NdArray::from_slice(&[3.0, 4.0, 5.0, 30.0, 40.0, 50.0], &[3, 2]),
        ],
        "data",
    );
    let w = snd.s(&[AxisSel::Range(0, 5), AxisSel::Range(0, 2)]);
    assert_eq!(w.shape(), vec![5, 2]);
    let v = w.s(&[AxisSel::Range(2, 5), AxisSel::Index(0)]);
    assert_eq!(v.to_vec(), vec![3.0, 4.0, 5.0]);
}
