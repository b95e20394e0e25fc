use minarrow::ndarray::{NdArray, Shape, ShapeDim};
use minarrow::selection::AxisSel;

fn seq_f64(n: usize) -> Vec<f64> {
    (1..=n).map(|x| x as f64).collect()
}

#[test]
fn axis_selection_trait() {
    let a = NdArray::from_slice(&[1.0, 2.0, 3.0, 4.0, 5.0, 6.0], &[3, 2]);
    // Range keeps the axis, index collapses it.
    let v = a.slice(&[AxisSel::Range(1, 3), AxisSel::Index(1)]);
    assert_eq!(v.shape(), &[2]);
    assert_eq!(v.get(&[0]), 5.0);
    assert_eq!(v.get(&[1]), 6.0);
    // Selection composes on the view.
    let sub = a
        .slice(&[AxisSel::Range(0, 3), AxisSel::Range(0, 2)])
        .slice(&[AxisSel::Index(2), AxisSel::Range(0, 2)]);
    assert_eq!(sub.shape(), &[2]);
    assert_eq!(sub.get(&[0]), 3.0);
    assert_eq!(sub.get(&[1]), 6.0);
    assert_eq!(a.ndim(), 2);
    assert_eq!(sub.ndim(), 1);
}

#[test]
fn apply_maps_elements() {
    let mut a = NdArray::from_slice(&[1.0, 2.0, 3.0, 4.0], &[2, 2]);
    a.set_name("m");
    let b = a.apply(|x| x * 10.0);
    assert_eq!(b.get(&[1, 1]), 40.0);
    assert_eq!(b.name.as_deref(), Some("m"));
    // The source is untouched.
    assert_eq!(a.get(&[1, 1]), 4.0);
}

#[test]
fn ndarray_apply_mut_in_place() {
    let mut a = NdArray::from_slice(&[1.0, 2.0, 3.0], &[3]);
    a.apply_mut(|x| x + 0.5);
    assert_eq!(a.to_vec(), vec![1.5, 2.5, 3.5]);
}

#[test]
fn new_zeroed_1d() {
    let a = NdArray::<f64>::new(&[5]);
    assert_eq!(a.ndim(), 1);
    assert_eq!(a.shape(), &[5]);
    assert_eq!(a.len(), 5);
    assert!(!a.is_empty());
    for v in a.to_vec() {
        assert_eq!(v, 0.0);
    }
}

#[test]
fn new_zeroed_2d() {
    let a = NdArray::<f64>::new(&[3, 4]);
    assert_eq!(a.ndim(), 2);
    assert_eq!(a.shape(), &[3, 4]);
    assert_eq!(a.len(), 12);
    for v in a.to_vec() {
        assert_eq!(v, 0.0);
    }
}

#[test]
fn new_zeroed_3d() {
    let a = NdArray::<f64>::new(&[2, 3, 4]);
    assert_eq!(a.ndim(), 3);
    assert_eq!(a.shape(), &[2, 3, 4]);
    assert_eq!(a.len(), 24);
}

#[test]
fn new_zeroed_5d() {
    let a = NdArray::<f64>::new(&[2, 3, 4, 5, 6]);
    assert_eq!(a.ndim(), 5);
    assert_eq!(a.len(), 720);
}

#[test]
fn new_zeroed_6d_heap() {
    let a = NdArray::<f64>::new(&[2, 3, 2, 2, 2, 2]);
    assert_eq!(a.ndim(), 6);
    assert_eq!(a.len(), 96);
}

#[test]
fn new_named() {
    let a = NdArray::<f64>::new_named(&[3, 3], "covariance");
    assert_eq!(a.name.as_deref(), Some("covariance"));
}

#[test]
fn from_slice_1d() {
    let data = [1.0, 2.0, 3.0, 4.0, 5.0];
    let a = NdArray::from_slice(&data, &[5]);
    assert_eq!(a.len(), 5);
    let vals: Vec<f64> = a.to_vec();
    assert_eq!(vals, vec![1.0, 2.0, 3.0, 4.0, 5.0]);
}

#[test]
fn from_slice_2d_column_major() {
    let data = [1.0, 2.0, 3.0, 4.0, 5.0, 6.0];
    let a = NdArray::from_slice(&data, &[3, 2]);
    assert_eq!(a.get(&[0, 0]), 1.0);
    assert_eq!(a.get(&[1, 0]), 2.0);
    assert_eq!(a.get(&[2, 0]), 3.0);
    assert_eq!(a.get(&[0, 1]), 4.0);
    assert_eq!(a.get(&[1, 1]), 5.0);
    assert_eq!(a.get(&[2, 1]), 6.0);
}

#[test]
fn fill_and_ones() {
    let a = NdArray::fill(&[2, 3], 7.0);
    assert_eq!(a.len(), 6);
    for v in a.to_vec() {
        assert_eq!(v, 7.0);
    }
    let b = NdArray::<f64>::ones(&[4]);
    for v in b.to_vec() {
        assert_eq!(v, 1.0);
    }
}

#[test]
fn eye_identity() {
    let a = NdArray::<f64>::eye(3);
    assert_eq!(a.shape(), &[3, 3]);
    assert_eq!(a.get(&[0, 0]), 1.0);
    assert_eq!(a.get(&[1, 1]), 1.0);
    assert_eq!(a.get(&[2, 2]), 1.0);
    assert_eq!(a.get(&[0, 1]), 0.0);
    assert_eq!(a.get(&[1, 0]), 0.0);
}

#[test]
fn get_set_1d() {
    let mut a = NdArray::new(&[3]);
    a.set(&[0], 10.0);
    a.set(&[1], 20.0);
    a.set(&[2], 30.0);
    assert_eq!(a.get(&[0]), 10.0);
    assert_eq!(a.get(&[1]), 20.0);
    assert_eq!(a.get(&[2]), 30.0);
}

#[test]
fn tuple_index_1d() {
    let a = NdArray::from_slice(&[10.0, 20.0, 30.0], &[3]);
    assert_eq!(a.get(&[0]), 10.0);
    assert_eq!(a.get(&[1]), 20.0);
    assert_eq!(a.get(&[2]), 30.0);
}

#[test]
fn tuple_index_2d() {
    let data = [1.0, 2.0, 3.0, 4.0, 5.0, 6.0];
    let a = NdArray::from_slice(&data, &[3, 2]);
    assert_eq!(a.get(&[0, 0]), 1.0);
    assert_eq!(a.get(&[2, 0]), 3.0);
    assert_eq!(a.get(&[0, 1]), 4.0);
    assert_eq!(a.get(&[2, 1]), 6.0);
}

#[test]
fn tuple_index_3d() {
    let data = seq_f64(12);
    let a = NdArray::from_slice(&data, &[2, 3, 2]);
    assert_eq!(a.get(&[0, 0, 0]), 1.0);
    assert_eq!(a.get(&[1, 0, 0]), 2.0);
    assert_eq!(a.get(&[0, 1, 0]), 3.0);
    assert_eq!(a.get(&[1, 1, 0]), 4.0);
    assert_eq!(a.get(&[0, 2, 0]), 5.0);
    assert_eq!(a.get(&[1, 2, 0]), 6.0);
    assert_eq!(a.get(&[0, 0, 1]), 7.0);
    assert_eq!(a.get(&[1, 2, 1]), 12.0);
}

#[test]
fn index_mut_2d() {
    let mut a = NdArray::new(&[2, 2]);
    *a.get_mut(&[0, 0]) = 1.0;
    *a.get_mut(&[1, 0]) = 2.0;
    *a.get_mut(&[0, 1]) = 3.0;
    *a.get_mut(&[1, 1]) = 4.0;
    assert_eq!(a.get(&[0, 0]), 1.0);
    assert_eq!(a.get(&[1, 1]), 4.0);
}

#[test]
fn iter_1d() {
    let a = NdArray::from_slice(&[10.0, 20.0, 30.0], &[3]);
    let vals: Vec<f64> = a.to_vec();
    assert_eq!(vals, vec![10.0, 20.0, 30.0]);
}

#[test]
fn iter_2d_column_major_order() {
    let a = NdArray::from_slice(&[1.0, 2.0, 3.0, 4.0, 5.0, 6.0], &[3, 2]);
    let vals: Vec<f64> = a.to_vec();
    assert_eq!(vals, vec![1.0, 2.0, 3.0, 4.0, 5.0, 6.0]);
}

#[test]
fn iter_2d_compact_layout() {
    let data = seq_f64(30);
    let a = NdArray::from_slice(&data, &[10, 3]);
    assert_eq!(a.strides()[1], 10);
    let vals: Vec<f64> = a.to_vec();
    assert_eq!(vals.len(), 30);
    assert_eq!(&vals[..10], &data[..10]);
    assert_eq!(&vals[10..20], &data[10..20]);
    assert_eq!(&vals[20..30], &data[20..30]);
}

#[test]
fn iter_3d_column_major_order() {
    let data = seq_f64(24);
    let a = NdArray::from_slice(&data, &[2, 3, 4]);
    let vals: Vec<f64> = a.to_vec();
    assert_eq!(vals.len(), 24);
    assert_eq!(vals, data);
}

#[test]
fn ndarray_iter_exact_size() {
    let a = NdArray::from_slice(&[1.0, 2.0, 3.0, 4.0, 5.0, 6.0], &[3, 2]);
    let vals = a.to_vec();
    assert_eq!(vals.len(), 6);
}

#[test]
fn consuming_into_iter() {
    let a = NdArray::from_slice(&[1.0, 2.0, 3.0], &[3]);
    let vals: Vec<f64> = a.to_vec();
    assert_eq!(vals, vec![1.0, 2.0, 3.0]);
}

#[test]
fn is_contiguous_default() {
    let a = NdArray::<f64>::new(&[3, 4]);
    assert!(a.is_contiguous());
}

#[test]
fn shape_trait_1d() {
    let a = NdArray::<f64>::new(&[5]);
    assert_eq!(Shape::shape(&a), ShapeDim::Rank1(5));
}

#[test]
fn shape_trait_2d() {
    let a = NdArray::<f64>::new(&[3, 4]);
    assert_eq!(Shape::shape(&a), ShapeDim::Rank2 { rows: 3, cols: 4 });
}

#[test]
fn shape_trait_3d() {
    let a = NdArray::<f64>::new(&[2, 3, 4]);
    assert_eq!(Shape::shape(&a), ShapeDim::RankN(vec![2, 3, 4]));
}

#[test]
fn ndarray_col_access() {
    let a = NdArray::from_slice(&[1.0, 2.0, 3.0, 4.0, 5.0, 6.0], &[3, 2]);
    assert_eq!(a.col(0), &[1.0, 2.0, 3.0]);
    assert_eq!(a.col(1), &[4.0, 5.0, 6.0]);
}

#[test]
fn columns_access() {
    let a = NdArray::from_slice(&[1.0, 2.0, 3.0, 4.0, 5.0, 6.0], &[3, 2]);
    let cols = a.columns();
    assert_eq!(cols.len(), 2);
    assert_eq!(cols[0], &[1.0, 2.0, 3.0]);
    assert_eq!(cols[1], &[4.0, 5.0, 6.0]);
}

#[test]
fn ndarray_obs_access() {
    let a = NdArray::from_slice(&[1.0, 2.0, 3.0, 4.0, 5.0, 6.0], &[3, 2]);
    let v = a.as_view();
    let obs0: Vec<f64> = v.obs(0).to_vec();
    let obs1: Vec<f64> = v.obs(1).to_vec();
    let obs2: Vec<f64> = v.obs(2).to_vec();
    assert_eq!(obs0, vec![1.0, 4.0]);
    assert_eq!(obs1, vec![2.0, 5.0]);
    assert_eq!(obs2, vec![3.0, 6.0]);

    // Single-shot .obs() on NdArray also works
    assert_eq!(a.obs(1).to_vec(), vec![2.0, 5.0]);

    // 3D obs returns a 2D view
    let b = NdArray::from_slice(&seq_f64(24), &[2, 3, 4]);
    let obs0_3d = b.obs(0);
    assert_eq!(obs0_3d.shape(), &[3, 4]);
}

#[test]
fn col_access_2d() {
    let data = seq_f64(20);
    let a = NdArray::from_slice(&data, &[10, 2]);
    assert_eq!(a.col(0).len(), 10);
    assert_eq!(a.col(1).len(), 10);
    assert_eq!(a.col(0), &data[..10]);
    assert_eq!(a.col(1), &data[10..20]);
}

#[test]
fn ndarray_blas_params() {
    let a = NdArray::<f64>::new(&[10, 5]);
    assert_eq!(a.m(), 10);
    assert_eq!(a.n(), 5);
    assert_eq!(a.lda(), 10);
}

#[test]
fn blas_params_aligned_rows() {
    let a = NdArray::<f64>::new(&[8, 3]);
    assert_eq!(a.m(), 8);
    assert_eq!(a.n(), 3);
    assert_eq!(a.lda(), 8);
}

#[test]
fn compact_strides_2d() {
    for n_rows in 1..=20 {
        let a = NdArray::<f64>::new(&[n_rows, 3]);
        assert_eq!(a.strides()[1], n_rows);
        assert!(a.is_contiguous());
    }
}

#[test]
fn compact_strides_3d() {
    let a = NdArray::<f64>::new(&[10, 3, 4]);
    let strides = a.strides();
    assert_eq!(strides[0], 1);
    assert_eq!(strides[1], 10);
    assert_eq!(strides[2], 10 * 3);
    assert!(a.is_contiguous());
}

#[test]
fn reshape_1d_to_2d() {
    let a = NdArray::from_slice(&[1.0, 2.0, 3.0, 4.0, 5.0, 6.0], &[6]);
    let b = a.reshape(&[3, 2]).unwrap();
    assert_eq!(b.shape(), &[3, 2]);
    assert_eq!(b.get(&[0, 0]), 1.0);
    assert_eq!(b.get(&[1, 0]), 2.0);
    assert_eq!(b.get(&[2, 0]), 3.0);
    assert_eq!(b.get(&[0, 1]), 4.0);
}

#[test]
fn reshape_size_mismatch() {
    let a = NdArray::from_slice(&[1.0, 2.0, 3.0], &[3]);
    assert!(a.reshape(&[2, 2]).is_err());
}

#[test]
fn transpose_2d() {
    let a = NdArray::from_slice(&[1.0, 2.0, 3.0, 4.0, 5.0, 6.0], &[3, 2]);
    let t = a.transpose();
    assert_eq!(t.shape(), &[2, 3]);
    assert_eq!(t.get(&[0, 0]), 1.0);
    assert_eq!(t.get(&[1, 0]), 4.0);
    assert_eq!(t.get(&[0, 1]), 2.0);
    assert_eq!(t.get(&[1, 1]), 5.0);
    assert_eq!(t.get(&[0, 2]), 3.0);
    assert_eq!(t.get(&[1, 2]), 6.0);
}

#[test]
fn transpose_3d_reverses_axes() {
    let data = seq_f64(24);
    let a = NdArray::from_slice(&data, &[2, 3, 4]);
    let t = a.transpose();
    assert_eq!(t.shape(), &[4, 3, 2]);
    assert!(t.is_contiguous());
    for i in 0..2 {
        for j in 0..3 {
            for k in 0..4 {
                assert_eq!(t.get(&[k, j, i]), a.get(&[i, j, k]));
            }
        }
    }
}

#[test]
fn transpose_1d_copies_through() {
    let a = NdArray::from_slice(&[1.0, 2.0, 3.0], &[3]);
    let t = a.transpose();
    assert_eq!(t.shape(), &[3]);
    assert_eq!(t, a);
}

#[test]
fn flatten() {
    let a = NdArray::from_slice(&[1.0, 2.0, 3.0, 4.0, 5.0, 6.0], &[3, 2]);
    let flat = a.flatten();
    assert_eq!(flat.shape(), &[6]);
    let vals: Vec<f64> = flat.to_vec();
    assert_eq!(vals, vec![1.0, 2.0, 3.0, 4.0, 5.0, 6.0]);
}

#[test]
fn to_contiguous_noop() {
    let a = NdArray::from_slice(&[1.0, 2.0, 3.0], &[3]);
    let b = a.to_contiguous();
    assert_eq!(a, b);
}

#[test]
fn fill_with_contiguous() {
    let mut a = NdArray::new(&[3, 2]);
    a.fill_with(42.0);
    for v in a.to_vec() {
        assert_eq!(v, 42.0);
    }
}

#[test]
fn from_f64_slice() {
    let a = NdArray::from_flat(&[1.0, 2.0, 3.0][..]);
    assert_eq!(a.ndim(), 1);
    assert_eq!(a.len(), 3);
    assert_eq!(a.get(&[0]), 1.0);
}

#[test]
fn from_vec64() {
    let v: Vec<f64> = vec![10.0, 20.0];
    let a = NdArray::from_vec(v);
    assert_eq!(a.ndim(), 1);
    assert_eq!(a.get(&[0]), 10.0);
    assert_eq!(a.get(&[1]), 20.0);
}

#[test]
fn from_column_vecs() {
    let cols = vec![vec![1.0, 2.0, 3.0], vec![4.0, 5.0, 6.0]];
    let a = NdArray::from_columns(cols.as_slice());
    assert_eq!(a.shape(), &[3, 2]);
    assert_eq!(a.col(0), &[1.0, 2.0, 3.0]);
    assert_eq!(a.col(1), &[4.0, 5.0, 6.0]);
}

#[test]
fn concat_1d() {
    let a = NdArray::from_slice(&[1.0, 2.0], &[2]);
    let b = NdArray::from_slice(&[3.0, 4.0, 5.0], &[3]);
    let c = a.concat(b).unwrap();
    assert_eq!(c.shape(), &[5]);
    let vals: Vec<f64> = c.to_vec();
    assert_eq!(vals, vec![1.0, 2.0, 3.0, 4.0, 5.0]);
}

#[test]
fn concat_2d() {
    let a = NdArray::from_slice(&[1.0, 2.0, 3.0, 4.0], &[2, 2]);
    let b = NdArray::from_slice(&[5.0, 6.0, 7.0, 8.0, 9.0, 10.0], &[3, 2]);
    let c = a.concat(b).unwrap();
    assert_eq!(c.shape(), &[5, 2]);
    assert_eq!(c.col(0), &[1.0, 2.0, 5.0, 6.0, 7.0]);
    assert_eq!(c.col(1), &[3.0, 4.0, 8.0, 9.0, 10.0]);
}

#[test]
fn concat_dimension_mismatch_fails() {
    let a = NdArray::<f64>::new(&[3, 2]);
    let b = NdArray::new(&[3, 3]);
    assert!(a.concat(b).is_err());
}

#[test]
fn concat_rank_mismatch_fails() {
    let a = NdArray::<f64>::new(&[3]);
    let b = NdArray::new(&[3, 2]);
    assert!(a.concat(b).is_err());
}

#[test]
fn ndarray_clone_and_eq() {
    let a = NdArray::from_slice(&[1.0, 2.0, 3.0, 4.0], &[2, 2]);
    let b = a.clone();
    assert_eq!(a, b);
}

#[test]
fn ne_different_data() {
    let a = NdArray::from_slice(&[1.0, 2.0], &[2]);
    let b = NdArray::from_slice(&[1.0, 3.0], &[2]);
    assert_ne!(a, b);
}

#[test]
fn ne_different_shape() {
    let a = NdArray::from_slice(&[1.0, 2.0, 3.0, 4.0], &[4]);
    let b = NdArray::from_slice(&[1.0, 2.0, 3.0, 4.0], &[2, 2]);
    assert_ne!(a, b);
}

#[test]
fn debug_1d() {
    let a = NdArray::from_slice(&[1.0, 2.0, 3.0], &[3]);
    let s = a.describe();
    assert!(s.contains("[3]"));
    assert!(s.contains("1D"));
}

#[test]
fn debug_2d_named() {
    let a = NdArray::<f64>::new_named(&[2, 3], "test");
    let s = a.describe();
    assert!(s.contains("'test'"));
    assert!(s.contains("[2, 3]"));
    assert!(s.contains("2D"));
}

#[test]
fn empty_array() {
    let a = NdArray::<f64>::new(&[0, 5]);
    assert!(a.is_empty());
    assert_eq!(a.len(), 0);
    let vals: Vec<f64> = a.to_vec();
    assert!(vals.is_empty());
}

#[test]
fn single_element() {
    let a = NdArray::from_slice(&[42.0], &[1]);
    assert_eq!(a.len(), 1);
    assert_eq!(a.get(&[0]), 42.0);
    let vals: Vec<f64> = a.to_vec();
    assert_eq!(vals, vec![42.0]);
}

#[test]
fn single_element_2d() {
    let a = NdArray::from_slice(&[42.0], &[1, 1]);
    assert_eq!(a.get(&[0, 0]), 42.0);
}

#[test]
fn large_array_iteration_count() {
    let n = 1000;
    let a = NdArray::<f64>::ones(&[n, 100]);
    let count = a.to_vec().len();
    assert_eq!(count, n * 100);
}

#[test]
fn bracket_index_1d() {
    let a = NdArray::from_slice(&[10.0, 20.0, 30.0], &[3]);
    assert_eq!(a.outer(0), [10.0]);
    assert_eq!(a.outer(2), [30.0]);
}

#[test]
fn bracket_index_2d_column() {
    let a = NdArray::from_slice(&[1.0, 2.0, 3.0, 4.0, 5.0, 6.0], &[3, 2]);
    assert_eq!(a.outer(0), [1.0, 2.0, 3.0]);
    assert_eq!(a.outer(1), [4.0, 5.0, 6.0]);
}

#[test]
fn bracket_index_2d_chained() {
    let a = NdArray::from_slice(&[1.0, 2.0, 3.0, 4.0, 5.0, 6.0], &[3, 2]);
    // arr[col][row]
    assert_eq!(a.outer(0)[0], 1.0);
    assert_eq!(a.outer(0)[2], 3.0);
    assert_eq!(a.outer(1)[0], 4.0);
    assert_eq!(a.outer(1)[2], 6.0);
}

#[test]
fn bracket_index_mut_2d() {
    let mut a = NdArray::from_slice(&[1.0, 2.0, 3.0, 4.0, 5.0, 6.0], &[3, 2]);
    a.outer_mut(0)[1] = 99.0;
    assert_eq!(a.outer(0)[1], 99.0);
    assert_eq!(a.outer(0), [1.0, 99.0, 3.0]);
}

#[test]
fn range_index_1d() {
    let a = NdArray::from_slice(&[10.0, 20.0, 30.0, 40.0], &[4]);
    assert_eq!(a.span(1, 3), [20.0, 30.0]);
}

#[test]
fn range_index_2d_columns() {
    let a = NdArray::from_slice(&[1.0, 2.0, 3.0, 4.0, 5.0, 6.0], &[3, 2]);
    let slab = a.span(0, 2);
    assert_eq!(slab, &[1.0, 2.0, 3.0, 4.0, 5.0, 6.0]);
    let col1 = a.span(1, 2);
    assert_eq!(col1, &[4.0, 5.0, 6.0]);
}

#[test]
fn range_from_index() {
    let a = NdArray::from_slice(&[10.0, 20.0, 30.0, 40.0], &[4]);
    assert_eq!(a.span(2, 4), [30.0, 40.0]);
}

#[test]
fn range_to_index() {
    let a = NdArray::from_slice(&[10.0, 20.0, 30.0, 40.0], &[4]);
    assert_eq!(a.span(0, 2), [10.0, 20.0]);
}

#[test]
fn range_full_index() {
    let a = NdArray::from_slice(&[10.0, 20.0, 30.0], &[3]);
    assert_eq!(a.span(0, 3), [10.0, 20.0, 30.0]);
}

#[test]
fn slice_1d_single_index() {
    let a = NdArray::from_slice(&[10.0, 20.0, 30.0], &[3]);
    let v = a.slice(&[AxisSel::Index(1)]);
    assert_eq!(v.shape(), &[1]);
    assert_eq!(v.get(&[0]), 20.0);
}

#[test]
fn slice_1d_range() {
    let a = NdArray::from_slice(&[10.0, 20.0, 30.0, 40.0], &[4]);
    let v = a.slice(&[AxisSel::Range(1, 3)]);
    assert_eq!(v.shape(), &[2]);
    assert_eq!(v.get(&[0]), 20.0);
    assert_eq!(v.get(&[1]), 30.0);
}

#[test]
fn slice_2d_row_range_single_col() {
    let a = NdArray::from_slice(&[1.0, 2.0, 3.0, 4.0, 5.0, 6.0], &[3, 2]);
    let v = a.slice(&[AxisSel::Range(0, 2), AxisSel::Index(1)]);
    assert_eq!(v.shape(), &[2]);
    assert_eq!(v.get(&[0]), 4.0);
    assert_eq!(v.get(&[1]), 5.0);
}

#[test]
fn slice_2d_single_row_col_range() {
    let a = NdArray::from_slice(&[1.0, 2.0, 3.0, 4.0, 5.0, 6.0], &[3, 2]);
    let v = a.slice(&[AxisSel::Index(1), AxisSel::Range(0, 2)]);
    assert_eq!(v.shape(), &[2]);
    let vals: Vec<f64> = v.to_vec();
    assert_eq!(vals, vec![2.0, 5.0]);
}

#[test]
fn slice_2d_both_ranges() {
    let a = NdArray::from_slice(&[1.0, 2.0, 3.0, 4.0, 5.0, 6.0], &[3, 2]);
    let v = a.slice(&[AxisSel::Range(0, 2), AxisSel::Range(0, 2)]);
    assert_eq!(v.shape(), &[2, 2]);
    assert_eq!(v.get(&[0, 0]), 1.0);
    assert_eq!(v.get(&[1, 0]), 2.0);
    assert_eq!(v.get(&[0, 1]), 4.0);
    assert_eq!(v.get(&[1, 1]), 5.0);
}

#[test]
fn slice_2d_both_indices_scalar() {
    let a = NdArray::from_slice(&[1.0, 2.0, 3.0, 4.0, 5.0, 6.0], &[3, 2]);
    let v = a.slice(&[AxisSel::Index(2), AxisSel::Index(1)]);
    assert_eq!(v.shape(), &[1]);
    assert_eq!(v.get(&[0]), 6.0);
}

#[test]
fn slice_3d_mixed() {
    let data = seq_f64(24);
    let a = NdArray::from_slice(&data, &[2, 3, 4]);
    let v = a.slice(&[AxisSel::Range(0, 2), AxisSel::Index(1), AxisSel::Range(0, 2)]);
    assert_eq!(v.shape(), &[2, 2]);
    assert_eq!(v.get(&[0, 0]), 3.0);
    assert_eq!(v.get(&[1, 0]), 4.0);
    assert_eq!(v.get(&[0, 1]), 9.0);
    assert_eq!(v.get(&[1, 1]), 10.0);
}

#[test]
fn slice_with_nd_macro() {
    let data = seq_f64(24);
    let a = NdArray::from_slice(&data, &[2, 3, 4]);
    let v = a.slice(&[AxisSel::Range(0, 2), AxisSel::Range(0, 3), AxisSel::Range(0, 4)]);
    assert_eq!(v.shape(), &[2, 3, 4]);
    assert_eq!(v.len(), 24);
}

#[test]
fn slice_preserves_data_through_iteration() {
    let a = NdArray::from_slice(&[1.0, 2.0, 3.0, 4.0, 5.0, 6.0], &[3, 2]);
    let v = a.slice(&[AxisSel::Range(1, 3), AxisSel::Range(0, 2)]);
    let vals: Vec<f64> = v.to_vec();
    assert_eq!(vals, vec![2.0, 3.0, 5.0, 6.0]);
}

#[test]
fn slice_column_window() {
    let data = seq_f64(20);
    let a = NdArray::from_slice(&data, &[10, 2]);
    let v = a.slice(&[AxisSel::Range(2, 5), AxisSel::Index(1)]);
    assert_eq!(v.shape(), &[3]);
    assert_eq!(v.get(&[0]), 13.0);
    assert_eq!(v.get(&[1]), 14.0);
    assert_eq!(v.get(&[2]), 15.0);
}

#[test]
fn row_selection_gathers_indices() {
    let a = NdArray::from_slice(&[1.0, 2.0, 3.0, 4.0, 5.0, 6.0], &[3, 2]);
    let v = a.r(&[2usize, 0][..]);
    assert_eq!(v.shape(), &[2, 2]);
    // Gathered rows follow selection order.
    assert_eq!(v.get(&[0, 0]), 3.0);
    assert_eq!(v.get(&[0, 1]), 6.0);
    assert_eq!(v.get(&[1, 0]), 1.0);
    assert_eq!(v.get(&[1, 1]), 4.0);
}

#[test]
fn row_selection_contiguous_windows_axis_zero() {
    let a = NdArray::from_slice(&[1.0, 2.0, 3.0, 4.0, 5.0, 6.0], &[3, 2]);
    let v = a.r(1..3);
    assert_eq!(v.shape(), &[2, 2]);
    assert_eq!(v.get(&[0, 0]), 2.0);
    assert_eq!(v.get(&[1, 1]), 6.0);
    assert_eq!(a.get_row_count(), 3);
}

#[test]
fn row_selection_gathers_a_3d_array() {
    let data: Vec<f64> = (1..=12).map(|x| x as f64).collect();
    let a = NdArray::from_slice(&data, &[3, 2, 2]);
    let v = a.r(&[1usize, 1, 0][..]);
    assert_eq!(v.shape(), &[3, 2, 2]);
    assert_eq!(v.get(&[0, 1, 1]), a.get(&[1, 1, 1]));
    assert_eq!(v.get(&[2, 0, 1]), a.get(&[0, 0, 1]));
    assert_eq!(v.get(&[1, 1, 0]), a.get(&[1, 1, 0]));
}

#[test]
fn apply_axis_collapses_axis() {
    let a = NdArray::from_slice(&[1.0, 2.0, 3.0, 4.0, 5.0, 6.0], &[3, 2]);
    // Sum each column lane (axis 0) - output shape [2].
    let col_sums = a.apply_axis(0, |lane| lane.to_vec().iter().sum());
    assert_eq!(col_sums.shape(), &[2]);
    assert_eq!(col_sums.get(&[0]), 6.0);
    assert_eq!(col_sums.get(&[1]), 15.0);
    // Sum each row lane (axis 1) - output shape [3].
    let row_sums = a.apply_axis(1, |lane| lane.to_vec().iter().sum());
    assert_eq!(row_sums.shape(), &[3]);
    assert_eq!(row_sums.get(&[0]), 5.0);
}

#[test]
fn apply_axis_3d() {
    let data: Vec<f64> = (1..=24).map(|x| x as f64).collect();
    let a = NdArray::from_slice(&data, &[2, 3, 4]);
    let maxes = a.apply_axis(1, |lane| lane.to_vec().into_iter().fold(f64::MIN, f64::max));
    assert_eq!(maxes.shape(), &[2, 4]);
    // Lane over axis 1 at [0, .., 0] holds values at [0,j,0].
    assert_eq!(maxes.get(&[0, 0]), a.get(&[0, 2, 0]));
    assert_eq!(maxes.get(&[1, 3]), a.get(&[1, 2, 3]));
}

#[test]
fn apply_axis_lanes_follow_the_collapsed_axis() {
    let data: Vec<f64> = (1..=24).map(|x| x as f64).collect();
    let a = NdArray::from_slice(&data, &[2, 3, 4]);
    let firsts = a.apply_axis(2, |lane| lane.get(&[0]));
    assert_eq!(firsts.shape(), &[2, 3]);
    assert_eq!(firsts.get(&[1, 2]), a.get(&[1, 2, 0]));
    let lens = a.apply_axis(0, |lane| lane.len() as f64);
    assert_eq!(lens.get(&[2, 3]), 2.0);
}

#[test]
fn col_mut_access() {
    let mut a = NdArray::from_slice(&[1.0, 2.0, 3.0, 4.0, 5.0, 6.0], &[3, 2]);
    a.col_mut(0)[1] = 99.0;
    assert_eq!(a.col(0), &[1.0, 99.0, 3.0]);
}

#[test]
fn span_mut_writes_through_to_the_buffer() {
    let mut a = NdArray::from_slice(&[10.0, 20.0, 30.0, 40.0], &[4]);
    a.span_mut(1, 3)[1] = 0.5;
    assert_eq!(a.to_vec(), vec![10.0, 20.0, 0.5, 40.0]);
    a.as_mut_slice()[0] = -1.0;
    assert_eq!(a.get(&[0]), -1.0);
}

#[test]
fn axis_selection_rank10() {
    let shape = [3, 4, 2, 5, 3, 2, 4, 3, 2, 5];
    let len: usize = shape.iter().product();
    let data: Vec<f64> = (0..len).map(|i| i as f64).collect();
    let a = NdArray::from_slice(&data, &shape);

    // Mixed ranges, single indices, and a full range across all ten axes.
    let v = a.slice(&[
        AxisSel::Range(1, 3),
        AxisSel::Range(0, 2),
        AxisSel::Index(1),
        AxisSel::Range(2, 5),
        AxisSel::Range(0, 3),
        AxisSel::Range(0, 1),
        AxisSel::Range(1, 3),
        AxisSel::Index(2),
        AxisSel::Range(0, 2),
        AxisSel::Range(3, 5),
    ]);
    assert_eq!(v.shape(), &[2, 2, 3, 3, 1, 2, 2, 2]);
    assert_eq!(v.get(&[0, 0, 0, 0, 0, 0, 0, 0]), a.get(&[1, 0, 1, 2, 0, 0, 1, 2, 0, 3]));
    assert_eq!(v.get(&[1, 1, 2, 2, 0, 1, 1, 1]), a.get(&[2, 1, 1, 4, 2, 0, 2, 2, 1, 4]));
}

#[test]
fn axis_selection_runtime_rank() {
    // Selections built at runtime for ranks beyond literal syntax.
    let mut shape = vec![1usize; 100];
    shape[0] = 3;
    shape[10] = 4;
    shape[50] = 5;
    shape[99] = 2;
    let len: usize = shape.iter().product();
    let data: Vec<f64> = (0..len).map(|i| i as f64).collect();
    let a = NdArray::from_slice(&data, &shape);

    // Full range on every axis, then narrow three and collapse one.
    let mut sels: Vec<AxisSel> = shape.iter().map(|&n| AxisSel::Range(0, n)).collect();
    sels[0] = AxisSel::Range(1, 3);
    sels[10] = AxisSel::Index(2);
    sels[50] = AxisSel::Range(1, 4);

    let v = a.slice(&sels);
    assert_eq!(v.ndim(), 99);
    assert_eq!(v.shape()[0], 2);
    assert_eq!(v.shape()[49], 3);
    assert_eq!(v.shape()[98], 2);

    let mut view_idx = vec![0usize; 99];
    view_idx[0] = 1;
    view_idx[49] = 2;
    view_idx[98] = 1;
    let mut source_idx = vec![0usize; 100];
    source_idx[0] = 2;
    source_idx[10] = 2;
    source_idx[50] = 3;
    source_idx[99] = 1;
    assert_eq!(v.get(&view_idx), a.get(&source_idx));
}

#[test]
fn columns_mut_access() {
    let mut a = NdArray::new(&[3, 2]);
    {
        let mut cols = a.columns_mut();
        cols[0].copy_from_slice(&[1.0, 2.0, 3.0]);
        cols[1].copy_from_slice(&[4.0, 5.0, 6.0]);
    }
    assert_eq!(a.col(0), &[1.0, 2.0, 3.0]);
    assert_eq!(a.col(1), &[4.0, 5.0, 6.0]);
}

#[test]
fn columns_mut_leaves_untouched_columns_alone() {
    let mut a = NdArray::from_slice(&[1, 2, 3, 4, 5, 6], &[2, 3]);
    {
        let mut cols = a.columns_mut();
        assert_eq!(cols.len(), 3);
        cols[1][0] = 30;
    }
    assert_eq!(a.as_slice(), &[1, 2, 30, 4, 5, 6]);
}

#[test]
fn row_selection_contiguous() {
    let a = NdArray::from_slice(&[1.0, 2.0, 3.0, 4.0, 5.0, 6.0], &[3, 2]);
    let v = a.r(1..3);
    assert_eq!(v.shape(), &[2, 2]);
    assert_eq!(v.get(&[0, 0]), 2.0);
    assert_eq!(v.get(&[1, 1]), 6.0);
    // The row alias selects a single observation.
    let single = a.row(2);
    assert_eq!(single.shape(), &[1, 2]);
    assert_eq!(single.get(&[0, 1]), 6.0);
}
