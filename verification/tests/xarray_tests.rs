use minarrow::coords::{Coords, Scalar};
use minarrow::ndarray::NdArray;
use minarrow::selection::AxisSel;
use minarrow::xarray::{Axis, XArray};

fn make_2d() -> NdArray<f64> {
    NdArray::from_slice(&[1.0, 2.0, 3.0, 4.0, 5.0, 6.0], &[3, 2])
}

fn int_coords(vals: &[i64]) -> Coords {
    Coords::Int64(vals.to_vec())
}

fn text_coords(vals: &[&str]) -> Coords {
    Coords::Text(vals.iter().map(|s| s.to_string()).collect())
}

fn text(s: &str) -> Scalar {
    Scalar::Str(s.to_string())
}

#[test]
fn axis_selection_positional() {
    let xa = XArray::new(
        NdArray::from_slice(&[1.0, 2.0, 3.0, 4.0, 5.0, 6.0], &[3, 2]),
        &["obs", "feat"],
    );
    let v = xa.slice(&[AxisSel::Range(0, 2), AxisSel::Index(1)]);
    assert_eq!(v.shape(), &[2]);
    assert_eq!(v.get(&[0]), 4.0);
    assert_eq!(v.get(&[1]), 5.0);
}

#[test]
fn apply_preserves_axes() {
    let xa = XArray::new(NdArray::from_slice(&[1.0, 2.0, 3.0, 4.0], &[2, 2]), &["obs", "feat"]);
    let out = xa.apply(|x| x * 2.0);
    assert_eq!(out.dim_names(), vec!["obs", "feat"]);
    assert_eq!(out.get(&[1, 1]), 8.0);
    assert_eq!(xa.get(&[1, 1]), 4.0);
}

#[test]
fn apply_mut_owned() {
    let mut xa = XArray::new(NdArray::from_slice(&[1.0, 2.0], &[2]), &["t"]);
    xa.apply_mut(|x| x + 10.0);
    assert_eq!(xa.get(&[0]), 11.0);
    assert_eq!(xa.get(&[1]), 12.0);
}

#[test]
fn f32_element_type() {
    let data = NdArray::<f32>::from_slice(&[1.0f32, 2.0, 3.0, 4.0, 5.0, 6.0], &[3, 2]);
    let xa = XArray::new(data, &["obs", "feat"]);
    assert_eq!(xa.get(&[0, 0]), 1.0f32);
    assert_eq!(xa.get(&[2, 1]), 6.0f32);
    let sub = xa.select(&[("obs", AxisSel::Range(0, 2))]);
    assert_eq!(sub.shape(), vec![2, 2]);
    assert_eq!(sub.get(&[1, 1]), 5.0f32);
}

#[test]
fn rank_zero_scalar() {
    let xa = XArray::new(NdArray::from_slice(&[5.0], &[]), &[]);
    assert_eq!(xa.ndim(), 0);
    assert_eq!(xa.shape(), Vec::<usize>::new());
    assert!(xa.dim_names().is_empty());
    assert_eq!(xa.len(), 1);
    assert_eq!(xa.get(&[]), 5.0);
}

#[test]
fn new_with_dim_names() {
    let xa = XArray::new(make_2d(), &["obs", "feat"]);
    assert_eq!(xa.ndim(), 2);
    assert_eq!(xa.dim_names(), vec!["obs", "feat"]);
}

#[test]
fn from_ndarray_auto_names() {
    let xa = XArray::from_ndarray(make_2d());
    assert_eq!(xa.dim_names(), vec!["dim_0", "dim_1"]);
}

#[test]
fn with_axes_and_coords() {
    let axes = vec![Axis::named("obs"), Axis::with_coords("feat", int_coords(&[10, 20]))];
    let xa = XArray::with_axes(make_2d(), axes);
    assert!(xa.ax("feat").coords.is_some());
    assert!(xa.ax("obs").coords.is_none());
}

#[test]
fn ax_and_dim() {
    let xa = XArray::new(make_2d(), &["obs", "feat"]);
    assert_eq!(xa.ax("feat").name, "feat");
    assert_eq!(xa.dim("obs"), 0);
    assert_eq!(xa.dim("feat"), 1);
}

#[test]
fn try_ax_and_try_dim() {
    let xa = XArray::new(make_2d(), &["obs", "feat"]);
    assert!(xa.try_ax("feat").is_some());
    assert!(xa.try_ax("missing").is_none());
    assert_eq!(xa.try_dim("obs"), Some(0));
    assert_eq!(xa.try_dim("missing"), None);
}

#[test]
fn delegates_shape_and_access() {
    let xa = XArray::new(make_2d(), &["obs", "feat"]);
    assert_eq!(xa.shape(), vec![3, 2]);
    assert_eq!(xa.len(), 6);
    assert_eq!(xa.get(&[0, 0]), 1.0);
    let obs0: Vec<f64> = xa.obs(0).to_vec();
    assert_eq!(obs0, vec![1.0, 4.0]);
}

#[test]
fn xarray_iteration() {
    let xa = XArray::new(make_2d(), &["obs", "feat"]);
    let vals: Vec<f64> = xa.to_vec();
    assert_eq!(vals, vec![1.0, 2.0, 3.0, 4.0, 5.0, 6.0]);
}

#[test]
fn rename_dim() {
    let mut xa = XArray::new(make_2d(), &["obs", "feat"]);
    xa.rename_dim("feat", "variable");
    assert_eq!(xa.dim("variable"), 1);
}

#[test]
fn assign_and_drop_coords() {
    let mut xa = XArray::new(make_2d(), &["obs", "feat"]);
    assert!(xa.ax("feat").coords.is_none());
    xa.assign_coords("feat", int_coords(&[10, 20]));
    assert!(xa.ax("feat").coords.is_some());
    xa.drop_coords("feat");
    assert!(xa.ax("feat").coords.is_none());
}

#[test]
fn select_range() {
    let xa = XArray::new(make_2d(), &["obs", "feat"]);
    let result = xa.select(&[("obs", AxisSel::Range(0, 2))]);
    assert_eq!(result.shape(), &[2, 2]);
    assert_eq!(result.dim_names(), vec!["obs", "feat"]);
    assert!(!result.is_owned());
}

#[test]
fn select_index_collapses() {
    let xa = XArray::new(make_2d(), &["obs", "feat"]);
    let result = xa.select(&[("feat", AxisSel::Index(0))]);
    assert_eq!(result.ndim(), 1);
    assert_eq!(result.dim_names(), vec!["obs"]);
    let vals: Vec<f64> = result.to_vec();
    assert_eq!(vals, vec![1.0, 2.0, 3.0]);
}

#[test]
fn select_multi_axis() {
    let xa = XArray::new(make_2d(), &["obs", "feat"]);
    let result = xa.select(&[("obs", AxisSel::Range(1, 3)), ("feat", AxisSel::Index(1))]);
    assert_eq!(result.ndim(), 1);
    assert_eq!(result.dim_names(), vec!["obs"]);
    let vals: Vec<f64> = result.to_vec();
    assert_eq!(vals, vec![5.0, 6.0]);
}

#[test]
fn select_preserves_coords() {
    let mut xa = XArray::new(
        NdArray::from_slice(&[1.0, 2.0, 3.0, 4.0, 5.0, 6.0, 7.0, 8.0], &[4, 2]),
        &["obs", "feat"],
    );
    xa.assign_coords("obs", int_coords(&[10, 20, 30, 40]));
    let result = xa.select(&[("obs", AxisSel::Range(1, 3))]);
    let coords = result.ax("obs").coords.as_ref().unwrap();
    assert_eq!(coords.len(), 2);
}

#[test]
fn at_by_coord() {
    let mut xa = XArray::new(make_2d(), &["obs", "feat"]);
    xa.assign_coords("feat", int_coords(&[10, 20]));
    let result = xa.at("feat", Scalar::Int64(20));
    assert_eq!(result.ndim(), 1);
    assert_eq!(result.dim_names(), vec!["obs"]);
    let vals: Vec<f64> = result.to_vec();
    assert_eq!(vals, vec![4.0, 5.0, 6.0]);
}

#[test]
fn try_at_not_found() {
    let mut xa = XArray::new(make_2d(), &["obs", "feat"]);
    xa.assign_coords("feat", int_coords(&[10, 20]));
    assert!(xa.try_at("feat", Scalar::Int64(99)).is_err());
}

#[test]
fn between_coord_range() {
    let data = NdArray::from_slice(&[1.0, 2.0, 3.0, 4.0, 5.0, 10.0, 20.0, 30.0, 40.0, 50.0], &[5, 2]);
    let mut xa = XArray::new(data, &["obs", "feat"]);
    xa.assign_coords("obs", int_coords(&[0, 1, 2, 3, 4]));
    let result = xa.between("obs", Scalar::Int64(1), Scalar::Int64(3));
    assert_eq!(result.shape(), vec![3, 2]);
    let vals: Vec<f64> = result.to_vec().into_iter().take(3).collect();
    assert_eq!(vals, vec![2.0, 3.0, 4.0]);
}

#[test]
fn try_between_empty_range() {
    let mut xa = XArray::new(make_2d(), &["obs", "feat"]);
    xa.assign_coords("obs", int_coords(&[0, 1, 2]));
    assert!(xa.try_between("obs", Scalar::Int64(100), Scalar::Int64(200)).is_err());
}

#[test]
fn at_string_coords() {
    let mut xa = XArray::new(make_2d(), &["ticker", "feat"]);
    xa.assign_coords("ticker", text_coords(&["ES", "NQ", "CL"]));
    let result = xa.at("ticker", text("NQ"));
    assert_eq!(result.ndim(), 1);
    assert_eq!(result.dim_names(), vec!["feat"]);
    let vals: Vec<f64> = result.to_vec();
    assert_eq!(vals, vec![2.0, 5.0]);
    assert!(xa.try_at("ticker", text("ZB")).is_err());
}

#[test]
fn at_categorical_coords() {
    let mut xa = XArray::new(make_2d(), &["ticker", "feat"]);
    xa.assign_coords("ticker", text_coords(&["ES", "NQ", "ES"]));
    let result = xa.at("ticker", text("NQ"));
    assert_eq!(result.ndim(), 1);
    let vals: Vec<f64> = result.to_vec();
    assert_eq!(vals, vec![2.0, 5.0]);
    assert!(xa.try_at("ticker", text("ZB")).is_err());
}

#[test]
fn coord_lookup_integer_coords() {
    let mut xa = XArray::new(make_2d(), &["obs", "feat"]);
    xa.assign_coords("obs", int_coords(&[100, 200, 400]));
    let result = xa.at("obs", Scalar::Int64(200));
    let vals: Vec<f64> = result.to_vec();
    assert_eq!(vals, vec![2.0, 5.0]);
    let ranged = xa.between("obs", Scalar::Int64(150), Scalar::Int64(450));
    assert_eq!(ranged.shape(), vec![2, 2]);
    let near = xa.nearest("obs", Scalar::Int64(230));
    let vals: Vec<f64> = near.to_vec();
    assert_eq!(vals, vec![2.0, 5.0]);
}

#[test]
fn between_string_coords() {
    let mut xa = XArray::new(make_2d(), &["ticker", "feat"]);
    xa.assign_coords("ticker", text_coords(&["alpha", "bravo", "charlie"]));
    // Lexicographic inclusive bounds.
    let result = xa.between("ticker", text("bravo"), text("delta"));
    assert_eq!(result.shape(), vec![2, 2]);
    let vals: Vec<f64> = result.to_vec().into_iter().take(2).collect();
    assert_eq!(vals, vec![2.0, 3.0]);
}

#[test]
fn at_datetime_coords() {
    let mut xa = XArray::new(make_2d(), &["time", "feat"]);
    xa.assign_coords("time", Coords::Datetime64(vec![1_000, 2_000, 3_000]));
    let result = xa.at("time", Scalar::Int64(2_000));
    assert_eq!(result.ndim(), 1);
    let vals: Vec<f64> = result.to_vec();
    assert_eq!(vals, vec![2.0, 5.0]);
    assert!(xa.try_at("time", Scalar::Int64(5_000)).is_err());
}

#[test]
fn between_datetime_coords() {
    let mut xa = XArray::new(make_2d(), &["time", "feat"]);
    xa.assign_coords("time", Coords::Datetime64(vec![1_000, 2_000, 3_000]));
    let result = xa.between("time", Scalar::Int64(1_500), Scalar::Int64(3_500));
    assert_eq!(result.shape(), vec![2, 2]);
    let vals: Vec<f64> = result.to_vec().into_iter().take(2).collect();
    assert_eq!(vals, vec![2.0, 3.0]);
}

#[test]
fn nearest_datetime_coords() {
    let mut xa = XArray::new(make_2d(), &["time", "feat"]);
    xa.assign_coords("time", Coords::Datetime64(vec![1_000, 2_000, 4_000]));
    let result = xa.nearest("time", Scalar::Int64(2_700));
    let vals: Vec<f64> = result.to_vec();
    assert_eq!(vals, vec![2.0, 5.0]);
}

#[test]
fn nearest_numeric_coords() {
    let mut xa = XArray::new(make_2d(), &["obs", "feat"]);
    xa.assign_coords("obs", int_coords(&[10, 20, 40]));
    let result = xa.nearest("obs", Scalar::Int64(24));
    assert_eq!(result.ndim(), 1);
    let vals: Vec<f64> = result.to_vec();
    assert_eq!(vals, vec![2.0, 5.0]);
    // Ties resolve to the earliest position.
    let tied = xa.nearest("obs", Scalar::Int64(30));
    let vals: Vec<f64> = tied.to_vec();
    assert_eq!(vals, vec![2.0, 5.0]);
}

#[test]
fn nearest_text_coords_rejected() {
    let mut xa = XArray::new(make_2d(), &["ticker", "feat"]);
    xa.assign_coords("ticker", text_coords(&["a", "b", "c"]));
    assert!(xa.try_nearest("ticker", text("b")).is_err());
}

#[test]
fn axis_equality_includes_coords() {
    let a = Axis::with_coords("obs", int_coords(&[1, 2]));
    let b = Axis::with_coords("obs", int_coords(&[1, 2]));
    let c = Axis::with_coords("obs", int_coords(&[1, 3]));
    assert_eq!(a, b);
    assert_ne!(a, c);
    assert_ne!(a, Axis::named("obs"));
}

#[test]
fn transpose_reorders_axes() {
    let xa = XArray::new(make_2d(), &["obs", "feat"]);
    let t = xa.transpose(&["feat", "obs"]).unwrap();
    assert_eq!(t.dim_names(), vec!["feat", "obs"]);
    assert_eq!(t.shape(), &[2, 3]);
}

#[test]
fn concat_matching_dims() {
    let a = XArray::new(NdArray::from_slice(&[1.0, 2.0, 3.0, 4.0], &[2, 2]), &["obs", "feat"]);
    let b = XArray::new(NdArray::from_slice(&[5.0, 6.0, 7.0, 8.0], &[2, 2]), &["obs", "feat"]);
    let c = a.concat(b).unwrap();
    assert_eq!(c.shape(), &[4, 2]);
    assert_eq!(c.dim_names(), vec!["obs", "feat"]);
}

#[test]
fn concat_merges_axis0_coords() {
    let mut a = XArray::new(NdArray::from_slice(&[1.0, 2.0, 3.0, 4.0], &[2, 2]), &["obs", "feat"]);
    a.assign_coords("obs", int_coords(&[0, 1]));
    let mut b = XArray::new(NdArray::from_slice(&[5.0, 6.0, 7.0, 8.0], &[2, 2]), &["obs", "feat"]);
    b.assign_coords("obs", int_coords(&[2, 3]));
    let c = a.concat(b).unwrap();
    let coords = c.ax("obs").coords.as_ref().unwrap();
    assert_eq!(coords.len(), 4);
}

#[test]
fn concat_mismatched_dims_fails() {
    let a = XArray::new(make_2d(), &["obs", "feat"]);
    let b = XArray::new(make_2d(), &["obs", "variable"]);
    assert!(a.concat(b).is_err());
}

#[test]
fn xarray_clone_and_eq() {
    let xa = XArray::new(make_2d(), &["obs", "feat"]);
    assert_eq!(xa, xa.clone());
}

#[test]
fn debug_format() {
    let mut xa = XArray::new(make_2d(), &["obs", "feat"]);
    xa.assign_coords("feat", int_coords(&[10, 20]));
    let s = xa.summary();
    assert!(s.contains("obs=3"));
    assert!(s.contains("feat=2 (labelled)"));
    assert!(s.contains("owned"));
}

#[test]
fn select_produces_view_debug() {
    let xa = XArray::new(make_2d(), &["obs", "feat"]);
    let result = xa.select(&[("obs", AxisSel::Range(0, 2))]);
    assert!(!result.is_owned());
    assert!(result.summary().contains("view"));
}

#[test]
fn to_owned_from_view() {
    let xa = XArray::new(make_2d(), &["obs", "feat"]);
    let view = xa.select(&[("obs", AxisSel::Range(0, 2))]);
    assert!(!view.is_owned());
    let owned = view.to_owned();
    assert!(owned.is_owned());
    assert_eq!(owned.shape(), &[2, 2]);
}

#[test]
fn three_dimensional() {
    let data = NdArray::from_slice(&(1..=24).map(|x| x as f64).collect::<Vec<_>>(), &[2, 3, 4]);
    let xa = XArray::new(data, &["obs", "feat", "time"]);
    assert_eq!(xa.ndim(), 3);
    assert_eq!(xa.dim("time"), 2);
}

#[test]
fn transpose_current_order_is_identity() {
    let xa = XArray::new(make_2d(), &["obs", "feat"]);
    let same = xa.transpose(&["obs", "feat"]).unwrap();
    assert_eq!(same.dim_names(), vec!["obs", "feat"]);
    assert_eq!(same.shape(), vec![3, 2]);
    assert_eq!(same.get(&[2, 1]), xa.get(&[2, 1]));
}

#[test]
fn transpose_reversed_moves_data() {
    let xa = XArray::new(make_2d(), &["obs", "feat"]);
    let t = xa.transpose(&["feat", "obs"]).unwrap();
    assert_eq!(t.dim_names(), vec!["feat", "obs"]);
    assert_eq!(t.get(&[0, 2]), xa.get(&[2, 0]));
    assert_eq!(t.get(&[1, 0]), xa.get(&[0, 1]));
}

#[test]
fn transpose_duplicate_dim_errors() {
    let xa = XArray::new(make_2d(), &["obs", "feat"]);
    let err = xa.transpose(&["obs", "obs"]).unwrap_err();
    assert!(err.to_message().contains("must be distinct"));
}

#[test]
fn transpose_unknown_dim_errors() {
    let xa = XArray::new(make_2d(), &["obs", "feat"]);
    let err = xa.transpose(&["obs", "missing"]).unwrap_err();
    assert!(err.to_message().contains("no axis named 'missing'"));
}

#[test]
fn try_between_unsorted_coords_errors() {
    // The covering span 0..3 includes the out-of-bounds 100, so a window
    // would return wrong rows.
    let mut xa = XArray::new(make_2d(), &["obs", "feat"]);
    xa.assign_coords("obs", int_coords(&[20, 100, 21]));
    let err = xa.try_between("obs", Scalar::Int64(15), Scalar::Int64(25)).unwrap_err();
    assert!(err.to_message().contains("not monotonic"));

    // Sorted coordinates over the same bounds window cleanly.
    let mut sorted = XArray::new(make_2d(), &["obs", "feat"]);
    sorted.assign_coords("obs", int_coords(&[20, 21, 100]));
    let result = sorted.try_between("obs", Scalar::Int64(15), Scalar::Int64(25)).unwrap();
    assert_eq!(result.shape(), vec![2, 2]);
}

#[test]
fn concat_axis0_coords_on_one_side_fails() {
    let mut a = XArray::new(NdArray::from_slice(&[1.0, 2.0, 3.0, 4.0], &[2, 2]), &["obs", "feat"]);
    a.assign_coords("obs", int_coords(&[0, 1]));
    let b = XArray::new(NdArray::from_slice(&[5.0, 6.0, 7.0, 8.0], &[2, 2]), &["obs", "feat"]);
    let err = a.concat(b).unwrap_err();
    assert!(err.to_message().contains("labelled on one side"));
}

#[test]
fn concat_non_zero_axis_coord_mismatch_fails() {
    let mut a = XArray::new(NdArray::from_slice(&[1.0, 2.0, 3.0, 4.0], &[2, 2]), &["obs", "feat"]);
    a.assign_coords("feat", int_coords(&[10, 20]));
    let mut b = XArray::new(NdArray::from_slice(&[5.0, 6.0, 7.0, 8.0], &[2, 2]), &["obs", "feat"]);
    b.assign_coords("feat", int_coords(&[10, 30]));
    let err = a.concat(b).unwrap_err();
    assert!(err.to_message().contains("coordinates differ"));
}

#[test]
fn concat_non_zero_axis_adopts_coords() {
    let mut a = XArray::new(NdArray::from_slice(&[1.0, 2.0, 3.0, 4.0], &[2, 2]), &["obs", "feat"]);
    a.assign_coords("feat", int_coords(&[10, 20]));
    let b = XArray::new(NdArray::from_slice(&[5.0, 6.0, 7.0, 8.0], &[2, 2]), &["obs", "feat"]);
    let c = a.concat(b).unwrap();
    let coords = c.ax("feat").coords.as_ref().unwrap();
    assert_eq!(*coords, int_coords(&[10, 20]));
}
