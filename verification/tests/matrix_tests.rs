use std::sync::Arc;

use minarrow::matrix::Matrix;
use minarrow::matrix_view::MatrixV;
use minarrow::ndarray::{NdArray, Shape, ShapeDim};
use minarrow::ndarray_view::NdArrayV;
use minarrow::selection::AxisSel;

/// A 5-row, 3-column matrix whose values encode `row + 10 * col`.
fn sample() -> Matrix<f64> {
    Matrix::from_unaligned(
        &[
            0.0, 1.0, 2.0, 3.0, 4.0, // col 0
            10.0, 11.0, 12.0, 13.0, 14.0, // col 1
            20.0, 21.0, 22.0, 23.0, 24.0, // col 2
        ],
        5,
        3,
        Some("m".to_string()),
    )
}

#[test]
fn from_matrix_windows_rows_and_keeps_every_column() {
    let v = MatrixV::from_matrix(sample(), 1, 3);
    assert_eq!(v.offset, 1);
    assert_eq!(v.len, 3);
    assert_eq!(v.n_rows(), 3);
    assert_eq!(v.len(), 3);
    assert_eq!(v.n_cols(), 3);
    assert_eq!(v.end(), 4);
    assert_eq!(v.name(), Some("m"));
    assert_eq!(v.stride(), 8);
    assert!(!v.is_empty());
    assert!(!v.spans_backing());
}

#[test]
fn from_arc_matrix_shares_the_backing_allocation() {
    let arc = Arc::new(sample());
    let v = MatrixV::from_arc_matrix(arc.clone(), 2, 2);
    assert!(Arc::ptr_eq(&arc, &v.matrix));
    assert_eq!(v.col(0), &[2.0, 3.0]);
    assert_eq!(v.col(2), &[22.0, 23.0]);
}

#[test]
fn whole_matrix_window_spans_backing() {
    let v = MatrixV::from(sample());
    assert!(v.spans_backing());
    assert_eq!(v.n_rows(), 5);
    assert_eq!(v.end(), 5);
}

#[test]
fn from_self_rewindows_relative_to_the_view() {
    let v = MatrixV::from_matrix(sample(), 1, 4);
    let inner = v.from_self(1, 2);
    assert_eq!(inner.offset, 2);
    assert_eq!(inner.len, 2);
    assert_eq!(inner.col(0), &[2.0, 3.0]);
    // Multiple re-windowing operations compose against the same backing matrix.
    let innermost = inner.from_self(1, 1);
    assert_eq!(innermost.offset, 3);
    assert_eq!(innermost.col(1), &[13.0]);
}

#[test]
fn col_windows_are_sub_slices_of_the_backing_buffer() {
    let arc = Arc::new(sample());
    let v = MatrixV::from_arc_matrix(arc.clone(), 1, 3);
    let backing = arc.data.as_slice().as_ptr_range();
    for c in 0..v.n_cols() {
        let window = v.col(c).as_ptr_range();
        assert!(
            backing.contains(&window.start) && window.end <= backing.end,
            "column {c} window must lie inside the backing buffer"
        );
    }
}

#[test]
fn to_matrix_copies_the_window_and_matches_the_source_rows() {
    let src = sample();
    let v = MatrixV::from_matrix(src.clone(), 1, 3);
    let owned = v.to_matrix();

    assert_eq!(owned.n_rows, 3);
    assert_eq!(owned.n_cols, 3);
    assert_eq!(owned.name.as_deref(), Some("m"));
    for c in 0..3 {
        assert_eq!(owned.col(c), v.col(c));
        assert_eq!(owned.col(c), &src.col(c)[1..4]);
    }
    // The materialised matrix is independent of the source and backing allocation.
    assert!(!std::ptr::eq(owned.as_slice().as_ptr(), v.matrix.as_slice().as_ptr()));
}

#[test]
fn to_matrix_round_trips_through_a_view() {
    let v = MatrixV::from_matrix(sample(), 1, 3);
    let round_tripped = MatrixV::from(v.to_matrix());
    assert_eq!(round_tripped, v);
}

#[test]
fn columns_and_row_read_the_window() {
    let v = MatrixV::from_matrix(sample(), 2, 2);
    let cols = v.columns();
    assert_eq!(cols.len(), 3);
    assert_eq!(cols[0], &[2.0, 3.0]);
    assert_eq!(cols[1], &[12.0, 13.0]);
    assert_eq!(v.get(0, 1), 12.0);
    assert_eq!(v.row(1), vec![3.0, 13.0, 23.0]);
}

#[test]
fn as_tuple_describes_the_window_over_the_flat_buffer() {
    let m = sample();
    let v = MatrixV::from_matrix(m.clone(), 1, 3);
    let (data, offset, len, stride) = v.as_tuple();

    assert_eq!(offset, 1);
    assert_eq!(len, 3);
    assert_eq!(stride, 8);
    // Column count is derived from buffer length and stride.
    assert_eq!(data.len() / stride, 3);
    // Column j of the window is accessible through the tuple.
    for j in 0..3 {
        let start = j * stride + offset;
        assert_eq!(&data[start..start + len], v.col(j));
    }

    // A full matrix produces the same tuple shape (zero offset) so kernels
    // can accept either form without knowing which was passed.
    let (whole, offset, len, stride) = m.as_tuple();
    assert_eq!((offset, len, stride), (0, 5, 8));
    assert_eq!(whole.len() / stride, 3);
}

#[test]
fn as_strided_hands_blas_the_window_start_and_leading_dimension() {
    let v = MatrixV::from_matrix(sample(), 1, 3);
    let (a, lda) = v.as_strided();

    assert_eq!(lda, 8);
    assert_eq!((v.m(), v.n()), (3, 3));
    assert_eq!(v.lda(), lda);
    // Element (i, j) is at index j * lda + i in the BLAS layout.
    for j in 0..v.n_cols() {
        for i in 0..v.n_rows() {
            assert_eq!(a[j * lda as usize + i], v.get(i, j));
        }
    }
    // The last column's data is within the borrowed slice.
    assert!((v.n_cols() - 1) * lda as usize + v.n_rows() <= a.len());
}

#[test]
fn gather_rows_reads_window_relative_indices() {
    let v = MatrixV::from_matrix(sample(), 1, 4);
    let gathered = v.gather_rows(&[2, 0]);
    assert_eq!(gathered.n_rows, 2);
    assert_eq!(gathered.col(0), &[3.0, 1.0]);
    assert_eq!(gathered.col(2), &[23.0, 21.0]);
}

#[test]
fn empty_window_reads_as_empty() {
    let v = MatrixV::from_matrix(sample(), 2, 0);
    assert!(v.is_empty());
    assert_eq!(v.n_rows(), 0);
    assert!(v.col(0).is_empty());
    assert_eq!(v.to_matrix().n_rows, 0);
}

#[test]
fn shape_reports_the_window() {
    let v = MatrixV::from_matrix(sample(), 1, 3);
    assert_eq!(Shape::shape(&v), ShapeDim::Rank2 { rows: 3, cols: 3 });
}

#[test]
fn equality_compares_window_contents_not_backing_matrices() {
    let a = MatrixV::from_matrix(sample(), 1, 3);
    let b = MatrixV::from(a.to_matrix());
    assert_eq!(a, b);
    assert_ne!(a, MatrixV::from_matrix(sample(), 0, 3));
}

#[test]
fn concat_stacks_two_windows_into_one_owned_matrix() {
    let m = sample();
    let top = MatrixV::from_matrix(m.clone(), 0, 2);
    let bottom = MatrixV::from_matrix(m, 3, 2);
    let joined = top.concat(bottom).unwrap();
    assert_eq!(joined.n_rows(), 4);
    assert_eq!(joined.n_cols(), 3);
    assert!(joined.spans_backing());
    assert_eq!(joined.col(0), &[0.0, 1.0, 3.0, 4.0]);
    assert_eq!(joined.col(2), &[20.0, 21.0, 23.0, 24.0]);
}

#[test]
fn concat_rejects_a_column_count_mismatch() {
    let a = MatrixV::from(Matrix::from_unaligned(&[1.0, 2.0], 2, 1, None));
    let b = MatrixV::from(Matrix::from_unaligned(&[1.0, 2.0, 3.0, 4.0], 2, 2, None));
    assert!(a.concat(b).is_err());
}

#[test]
fn debug_states_the_window_over_its_backing_matrix() {
    let v = MatrixV::from_matrix(sample(), 1, 2);
    assert_eq!(v.describe(), "MatrixV 'm': 2 × 3 [col-major, rows 1..3 of 5]");
}

#[test]
fn unnamed_window_description_has_no_label() {
    let m: Matrix<f64> = Matrix::from_unaligned(&[1.0, 2.0, 3.0], 3, 1, None);
    let v = MatrixV::from_matrix(m, 0, 3);
    assert_eq!(v.describe(), "MatrixV: 3 × 1 [col-major, rows 0..3 of 3]");
}

#[test]
fn padded_stride_rounds_rows_up_to_eight() {
    let m: Matrix<f64> = Matrix::from_unaligned(&[1.0; 9], 9, 1, None);
    assert_eq!(m.stride, 16);
    assert_eq!(m.data.len(), 16);
    // Padding rows hold the default value.
    assert_eq!(m.data[9], 0.0);
    let empty: Matrix<f64> = Matrix::from_unaligned(&[], 0, 2, None);
    assert_eq!(empty.stride, 0);
    assert!(empty.data.is_empty());
}

#[test]
fn matrix_concat_stacks_rows_and_keeps_the_first_name() {
    let a = Matrix::from_unaligned(&[1.0, 2.0, 3.0, 4.0], 2, 2, Some("a".to_string()));
    let b = Matrix::from_unaligned(&[5.0, 6.0], 1, 2, Some("b".to_string()));
    let c = a.concat(b).unwrap();
    assert_eq!(c.n_rows, 3);
    assert_eq!(c.col(0), &[1.0, 2.0, 5.0]);
    assert_eq!(c.col(1), &[3.0, 4.0, 6.0]);
    assert_eq!(c.name.as_deref(), Some("a"));
}

#[test]
fn extract_rows_follows_the_index_order() {
    let m = sample();
    let e = m.extract_rows(&[4, 4, 0]);
    assert_eq!(e.n_rows, 3);
    assert_eq!(e.stride, 8);
    assert_eq!(e.col(1), &[14.0, 14.0, 10.0]);
    assert_eq!(e.row(0), vec![4.0, 14.0, 24.0]);
    assert_eq!(e.get(2, 2), 20.0);
}

// NdArray interop

#[test]
fn from_matrix() {
    let mat = Matrix::from_unaligned(&[1.0, 2.0, 3.0, 4.0, 5.0, 6.0], 3, 2, Some("m".into()));
    let a = NdArray::from_matrix(mat);
    assert_eq!(a.shape(), &[3, 2]);
    assert_eq!(a.name.as_deref(), Some("m"));
    assert_eq!(a.col(0), &[1.0, 2.0, 3.0]);
    assert_eq!(a.col(1), &[4.0, 5.0, 6.0]);
}

#[test]
fn to_matrix_roundtrip() {
    let data = [1.0, 2.0, 3.0, 4.0, 5.0, 6.0];
    let a = NdArray::from_slice(&data, &[3, 2]);
    let mat = a.to_matrix().unwrap();
    assert_eq!(mat.n_rows, 3);
    assert_eq!(mat.n_cols, 2);
    assert_eq!(mat.col(0), &[1.0, 2.0, 3.0]);
    assert_eq!(mat.col(1), &[4.0, 5.0, 6.0]);
}

#[test]
fn to_matrix_non_2d_fails() {
    let a: NdArray<f64> = NdArray::new(&[5]);
    assert!(a.to_matrix().is_err());
}

#[test]
fn to_matrix_non_2d_error_names_the_rank() {
    let a: NdArray<f64> = NdArray::new(&[2, 2, 2]);
    let e = a.to_matrix().unwrap_err();
    assert_eq!(e.to_message(), "to_matrix requires a 2D array, got 3D");
}

#[test]
fn to_matrix_repacks_compact_layout() {
    // Compact tensor data re-lays into Matrix's padded column layout.
    let a = NdArray::from_slice(&[1.0, 2.0, 3.0, 4.0, 5.0, 6.0], &[3, 2]);
    let mat = a.to_matrix().unwrap();
    assert_eq!(mat.n_rows, 3);
    assert_eq!(mat.n_cols, 2);
    assert_eq!(mat.stride, 8);
    assert_eq!(&mat.data.as_slice()[..3], &[1.0, 2.0, 3.0]);
    assert_eq!(&mat.data.as_slice()[8..11], &[4.0, 5.0, 6.0]);
}

#[test]
fn matrix_roundtrip_via_contiguous() {
    // Matrix -> NdArray is zero-copy with the padded stride carried
    // through. to_contiguous compacts, and to_matrix re-pads.
    let mat = Matrix::from_unaligned(&[1.0, 2.0, 3.0, 4.0, 5.0, 6.0], 3, 2, None);
    let a = NdArray::from_matrix(mat);
    assert!(!a.is_contiguous());
    assert_eq!(a.get(&[2, 1]), 6.0);
    let compact = a.to_contiguous();
    assert!(compact.is_contiguous());
    assert_eq!(compact.span(0, 2), &[1.0, 2.0, 3.0, 4.0, 5.0, 6.0]);
    let back = compact.to_matrix().unwrap();
    assert_eq!(back.stride, 8);
    assert_eq!(&back.data.as_slice()[8..11], &[4.0, 5.0, 6.0]);
}

#[test]
fn apply_mut_non_contiguous_touches_logical_only() {
    // A Matrix-imported array carries stride padding. The logical walk
    // mutates only real elements.
    let mat = Matrix::from_unaligned(&[1.0, 2.0, 3.0, 4.0, 5.0, 6.0], 3, 2, None);
    let mut a = NdArray::from_matrix(mat);
    assert!(!a.is_contiguous());
    a.apply_mut(|x| x * 2.0);
    assert_eq!(a.get(&[0, 0]), 2.0);
    assert_eq!(a.get(&[2, 1]), 12.0);
}

#[test]
fn padded_matrix_moves_back_without_relayout() {
    let mat = Matrix::from_unaligned(&[1.0, 2.0, 3.0, 4.0, 5.0, 6.0], 3, 2, Some("p".into()));
    let a = NdArray::from_matrix(mat);
    let back = a.to_matrix().unwrap();
    assert_eq!(back.stride, 8);
    assert_eq!(back.name.as_deref(), Some("p"));
    assert_eq!(back.col(1), &[4.0, 5.0, 6.0]);
}

#[test]
fn to_matrix() {
    let a = NdArray::from_slice(&[1.0, 2.0, 3.0, 4.0, 5.0, 6.0], &[3, 2]);
    let v = NdArrayV::from_ndarray(a);
    let mat = v.to_matrix().unwrap();
    assert_eq!(mat.n_rows, 3);
    assert_eq!(mat.n_cols, 2);
}

#[test]
fn view_to_matrix_reads_the_window() {
    let a = NdArray::from_slice(&[1.0, 2.0, 3.0, 4.0, 5.0, 6.0], &[3, 2]);
    let m = a.slice(&[AxisSel::Range(1, 3), AxisSel::Range(0, 2)]).to_matrix().unwrap();
    assert_eq!(m.n_rows, 2);
    assert_eq!(m.col(1), &[5.0, 6.0]);
    assert!(a.obs(1).to_matrix().is_err());
}

// Row selection

#[test]
fn row_selection_on_a_matrix_windows_a_contiguous_range() {
    let selected = sample().r(1..4);
    assert_eq!(selected.n_rows(), 3);
    assert_eq!(selected.offset, 1);
    assert_eq!(selected.col(0), &[1.0, 2.0, 3.0]);
}

#[test]
fn row_selection_on_a_matrix_gathers_an_index_array() {
    let selected = sample().r(&[3usize, 0][..]);
    assert_eq!(selected.n_rows(), 2);
    assert!(selected.spans_backing());
    assert_eq!(selected.col(1), &[13.0, 10.0]);
}

#[test]
fn row_selection_on_a_view_composes_windows() {
    let v = MatrixV::from_matrix(sample(), 1, 4);
    let chained = v.r(1..4).r(0..2);
    assert_eq!(chained.offset, 2);
    assert_eq!(chained.n_rows(), 2);
    assert_eq!(chained.col(0), &[2.0, 3.0]);
    assert_eq!(chained.get_row_count(), 2);

    // Non-contiguous selections gather rows into a new matrix.
    let picked = v.r(&[3usize, 1][..]);
    assert_eq!(picked.col(0), &[4.0, 2.0]);
}

#[test]
fn empty_range_selection_is_an_empty_window() {
    let selected = sample().r(2..2);
    assert_eq!(selected.n_rows(), 0);
    assert_eq!(selected.offset, 0);
    assert_eq!(sample().get_row_count(), 5);
}
