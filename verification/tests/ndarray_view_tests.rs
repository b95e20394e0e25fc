use minarrow::ndarray::{NdArray, Shape, ShapeDim};
use minarrow::ndarray_view::NdArrayV;

fn seq_f64(n: usize) -> Vec<f64> {
    (1..=n).map(|x| x as f64).collect()
}

#[test]
fn from_ndarray() {
    let a = NdArray::from_slice(&[1.0, 2.0, 3.0, 4.0, 5.0, 6.0], &[3, 2]);
    let v = NdArrayV::from_ndarray(a);
    assert_eq!(v.shape(), &[3, 2]);
    assert_eq!(v.len(), 6);
    assert_eq!(v.get(&[0, 0]), 1.0);
    assert_eq!(v.get(&[2, 1]), 6.0);
}

#[test]
fn ndarray_view_col_access() {
    let a = NdArray::from_slice(&[1.0, 2.0, 3.0, 4.0, 5.0, 6.0], &[3, 2]);
    let v = NdArrayV::from_ndarray(a);
    assert_eq!(v.col(0), &[1.0, 2.0, 3.0]);
    assert_eq!(v.col(1), &[4.0, 5.0, 6.0]);
}

#[test]
fn columns() {
    let a = NdArray::from_slice(&[1.0, 2.0, 3.0, 4.0, 5.0, 6.0], &[3, 2]);
    let v = NdArrayV::from_ndarray(a);
    let cols = v.columns();
    assert_eq!(cols.len(), 2);
    assert_eq!(cols[0], &[1.0, 2.0, 3.0]);
    assert_eq!(cols[1], &[4.0, 5.0, 6.0]);
}

#[test]
fn apply_on_view() {
    let a = NdArray::from_slice(&[1.0, 2.0, 3.0, 4.0], &[2, 2]);
    let out = a.as_view().apply(|x| x + 1.0);
    assert_eq!(out.shape(), &[2, 2]);
    assert_eq!(out.get(&[1, 1]), 5.0);
}

#[test]
fn ndarray_view_obs_access() {
    let a = NdArray::from_slice(&[1.0, 2.0, 3.0, 4.0, 5.0, 6.0], &[3, 2]);
    let v = NdArrayV::from_ndarray(a);
    let obs0: Vec<f64> = v.obs(0).to_vec();
    let obs2: Vec<f64> = v.obs(2).to_vec();
    assert_eq!(obs0, vec![1.0, 4.0]);
    assert_eq!(obs2, vec![3.0, 6.0]);
}

#[test]
fn ndarray_view_iteration() {
    let a = NdArray::from_slice(&[1.0, 2.0, 3.0, 4.0, 5.0, 6.0], &[3, 2]);
    let v = NdArrayV::from_ndarray(a);
    let vals: Vec<f64> = v.to_vec();
    assert_eq!(vals, vec![1.0, 2.0, 3.0, 4.0, 5.0, 6.0]);
}

#[test]
fn iteration_2d() {
    let data = seq_f64(20);
    let a = NdArray::from_slice(&data, &[10, 2]);
    let v = NdArrayV::from_ndarray(a);
    let vals: Vec<f64> = v.to_vec();
    assert_eq!(vals.len(), 20);
    assert_eq!(&vals[..10], &data[..10]);
    assert_eq!(&vals[10..], &data[10..]);
}

#[test]
fn with_offset() {
    let a = NdArray::from_slice(&[1.0, 2.0, 3.0, 4.0, 5.0, 6.0], &[3, 2]);
    let stride = a.strides()[1];
    // View into column 1 only as a 1D view
    let v = NdArrayV::new(a.clone(), stride, &[3], &[1]);
    assert_eq!(v.shape(), &[3]);
    assert_eq!(v.get(&[0]), 4.0);
    assert_eq!(v.get(&[1]), 5.0);
    assert_eq!(v.get(&[2]), 6.0);
}

#[test]
fn to_ndarray() {
    let a = NdArray::from_slice(&[1.0, 2.0, 3.0, 4.0, 5.0, 6.0], &[3, 2]);
    let v = NdArrayV::from_ndarray(a);
    let b = v.to_ndarray();
    assert_eq!(b.shape(), &[3, 2]);
    assert_eq!(b.col(0), &[1.0, 2.0, 3.0]);
}

#[test]
fn transpose_2d_view() {
    let a = NdArray::from_slice(&[1.0, 2.0, 3.0, 4.0, 5.0, 6.0], &[3, 2]);
    let t = NdArrayV::from_ndarray(a).transpose();
    assert_eq!(t.shape(), &[2, 3]);
    assert_eq!(t.get(&[0, 0]), 1.0);
    assert_eq!(t.get(&[1, 0]), 4.0);
    assert_eq!(t.get(&[0, 2]), 3.0);
    assert_eq!(t.get(&[1, 2]), 6.0);
    // Materialising the transposed view matches the owned transpose.
    let owned = t.to_ndarray();
    assert_eq!(owned.shape(), &[2, 3]);
    assert_eq!(owned.get(&[1, 1]), 5.0);
}

#[test]
fn transpose_3d_view_matches_materialised() {
    let data = seq_f64(24);
    let a = NdArray::from_slice(&data, &[2, 3, 4]);
    let t = a.as_view().transpose();
    assert_eq!(t.shape(), &[4, 3, 2]);
    let materialised = a.transpose();
    for i in 0..4 {
        for j in 0..3 {
            for k in 0..2 {
                assert_eq!(t.get(&[i, j, k]), materialised.get(&[i, j, k]));
            }
        }
    }
}

#[test]
fn ndarray_view_blas_params() {
    let a = NdArray::<f64>::new(&[10, 5]);
    let v = NdArrayV::from_ndarray(a);
    assert_eq!(v.m(), 10);
    assert_eq!(v.n(), 5);
    assert_eq!(v.lda(), 10);
}

#[test]
fn eq() {
    let a = NdArray::from_slice(&[1.0, 2.0, 3.0], &[3]);
    let v1 = NdArrayV::from_ndarray(a.clone());
    let v2 = NdArrayV::from_ndarray(a);
    assert_eq!(v1, v2);
}

#[test]
fn ndarray_view_shape_trait() {
    let a = NdArray::<f64>::new(&[3, 4]);
    let v = NdArrayV::from_ndarray(a);
    assert_eq!(Shape::shape(&v), ShapeDim::Rank2 { rows: 3, cols: 4 });
}

#[test]
fn row_selection_on_view() {
    let a = NdArray::from_slice(&[1.0, 2.0, 3.0, 4.0, 5.0, 6.0], &[3, 2]);
    let v = a.as_view();
    // Contiguous narrows zero-copy.
    let sub = v.r(1..3);
    assert_eq!(sub.shape(), &[2, 2]);
    assert_eq!(sub.get(&[0, 1]), 5.0);
    // Index arrays gather in order, and the source is unaffected.
    let picked = v.r(&[2usize, 0][..]);
    assert_eq!(picked.get(&[0, 0]), 3.0);
    assert_eq!(picked.get(&[1, 1]), 4.0);
}

#[test]
fn permute_axes_view() {
    let data: Vec<f64> = (1..=24).map(|x| x as f64).collect();
    let a = NdArray::from_slice(&data, &[2, 3, 4]);
    let p = a.as_view().permute_axes(&[2, 0, 1]);
    assert_eq!(p.shape(), &[4, 2, 3]);
    for i in 0..2 {
        for j in 0..3 {
            for k in 0..4 {
                assert_eq!(p.get(&[k, i, j]), a.get(&[i, j, k]));
            }
        }
    }
}

#[test]
fn swap_axes_view() {
    let data: Vec<f64> = (1..=24).map(|x| x as f64).collect();
    let a = NdArray::from_slice(&data, &[2, 3, 4]);
    let s = a.as_view().swap_axes(0, 2);
    assert_eq!(s.shape(), &[4, 3, 2]);
    assert_eq!(s.get(&[3, 2, 1]), a.get(&[1, 2, 3]));
    assert_eq!(s.get(&[0, 0, 0]), a.get(&[0, 0, 0]));
}

#[test]
fn swap_axes_with_itself_keeps_the_layout() {
    let data: Vec<f64> = (1..=6).map(|x| x as f64).collect();
    let a = NdArray::from_slice(&data, &[3, 2]);
    let s = a.as_view().swap_axes(1, 1);
    assert_eq!(s.shape(), &[3, 2]);
    assert_eq!(s.strides(), &[1, 3]);
    assert_eq!(s.get(&[2, 1]), 6.0);
}

#[test]
fn identity_permutation_keeps_every_element() {
    let data: Vec<f64> = (1..=24).map(|x| x as f64).collect();
    let a = NdArray::from_slice(&data, &[2, 3, 4]);
    let p = a.as_view().permute_axes(&[0, 1, 2]);
    assert_eq!(p.to_vec(), data);
}
