//! # MatrixV - windowed matrix view
//!
//! `MatrixV` is a row window over a [`Matrix`]: rows `[offset, offset + len)`
//! of every column, sharing the backing matrix through an `Arc`. Windows are
//! re-windowed without copying; [`MatrixV::to_matrix`] materialises one as
//! an owned matrix with the padded layout for its own row count.

use std::sync::Arc;

use vstd::prelude::*;
use vstd::std_specs::cmp::{PartialEqSpec, PartialEqSpecImpl};
use vstd::std_specs::convert::FromSpecImpl;

use crate::error::{append_usize, decimal, name_label, MinarrowError};
use crate::ndarray::{Shape, ShapeDim};
use crate::shared::share;
use crate::matrix::{aligned, fits_padded, lemma_col_span, Matrix};

verus! {

/// The row numbers `[start, start + len)`.
fn window_rows(start: usize, len: usize) -> (rows: Vec<usize>)
    requires
        start + len <= usize::MAX,
    ensures
        rows@.len() == len,
        forall|k: int| 0 <= k < len ==> #[trigger] rows@[k] == start + k,
{
    let mut rows: Vec<usize> = Vec::new();
    let mut k: usize = 0;
    while k < len
        invariant
            start + len <= usize::MAX,
            k <= len,
            rows@.len() == k,
            forall|j: int| 0 <= j < k ==> #[trigger] rows@[j] == start + j,
        decreases len - k,
    {
        rows.push(start + k);
        k = k + 1;
    }
    rows
}

/// Row window `[offset, offset + len)` over a shared matrix.
#[derive(Debug)]
pub struct MatrixV<T> {
    /// Backing matrix shared by every view over the same data.
    pub matrix: Arc<Matrix<T>>,
    /// First row of the window in the backing matrix.
    pub offset: usize,
    /// Number of rows in the window.
    pub len: usize,
}

impl<T> MatrixV<T> {
    /// The backing matrix is well formed and holds every row of the window.
    pub open spec fn wf(&self) -> bool {
        &&& self.matrix.wf()
        &&& self.offset + self.len <= self.matrix.n_rows
    }

    /// Element at window-relative row `r` of column `c`.
    pub open spec fn at(&self, r: int, c: int) -> T {
        self.matrix.at(self.offset + r, c)
    }

    /// The window's part of column `c`.
    pub open spec fn window(&self, c: int) -> Seq<T> {
        self.matrix.data@.subrange(
            c * self.matrix.stride + self.offset,
            c * self.matrix.stride + self.offset + self.len,
        )
    }
}

impl<T: Copy> MatrixV<T> {
    /// View over rows `[offset, offset + len)` of `matrix`, which moves into
    /// shared storage.
    pub fn from_matrix(matrix: Matrix<T>, offset: usize, len: usize) -> (v: Self)
        requires
            matrix.wf(),
            offset <= matrix.n_rows,
            len <= matrix.n_rows - offset,
        ensures
            v.wf(),
            *v.matrix == matrix,
            v.offset == offset,
            v.len == len,
    {
        Self::from_arc_matrix(Arc::new(matrix), offset, len)
    }

    /// View over rows `[offset, offset + len)` of an already shared matrix.
    pub fn from_arc_matrix(matrix: Arc<Matrix<T>>, offset: usize, len: usize) -> (v: Self)
        requires
            matrix.wf(),
            offset <= matrix.n_rows,
            len <= matrix.n_rows - offset,
        ensures
            v.wf(),
            v.matrix == matrix,
            v.offset == offset,
            v.len == len,
    {
        MatrixV { matrix, offset, len }
    }

    /// Sub-window with `offset` relative to this view, over the same
    /// backing matrix.
    pub fn from_self(&self, offset: usize, len: usize) -> (v: Self)
        requires
            self.wf(),
            offset <= self.len,
            len <= self.len - offset,
        ensures
            v.wf(),
            *v.matrix == *self.matrix,
            v.offset == self.offset + offset,
            v.len == len,
            forall|r: int, c: int| #[trigger] v.at(r, c) == self.at(offset + r, c),
    {
        MatrixV { matrix: share(&self.matrix), offset: self.offset + offset, len }
    }

    /// Number of rows in the window.
    pub fn n_rows(&self) -> (n: usize)
        ensures
            n == self.len,
    {
        self.len
    }

    /// Number of columns of the backing matrix; windows keep every column.
    pub fn n_cols(&self) -> (n: usize)
        ensures
            n == self.matrix.n_cols,
    {
        self.matrix.n_cols
    }

    /// Number of rows in the window.
    pub fn len(&self) -> (n: usize)
        ensures
            n == self.len,
    {
        self.len
    }

    /// `true` when the window has no rows or the matrix has no columns.
    pub fn is_empty(&self) -> (b: bool)
        ensures
            b == (self.len == 0 || self.matrix.n_cols == 0),
    {
        self.len == 0 || self.matrix.n_cols == 0
    }

    /// Exclusive end row of the window in backing-matrix rows.
    pub fn end(&self) -> (e: usize)
        requires
            self.wf(),
        ensures
            e == self.offset + self.len,
    {
        self.offset + self.len
    }

    /// `true` when the window covers every row of the backing matrix.
    pub fn spans_backing(&self) -> (b: bool)
        ensures
            b == (self.offset == 0 && self.len == self.matrix.n_rows),
    {
        self.offset == 0 && self.len == self.matrix.n_rows
    }

    /// The backing matrix's name.
    pub fn name(&self) -> (n: Option<&str>)
        ensures
            n is Some <==> self.matrix.name is Some,
            n matches Some(s) ==> s@ == self.matrix.name->Some_0@,
    {
        match &self.matrix.name {
            Some(s) => Some(s.as_str()),
            None => None,
        }
    }

    /// Column stride of the backing matrix (the BLAS leading dimension).
    pub fn stride(&self) -> (s: usize)
        ensures
            s == self.matrix.stride,
    {
        self.matrix.stride
    }

    /// The window's part of column `c`, as a contiguous slice.
    pub fn col(&self, c: usize) -> (s: &[T])
        requires
            self.wf(),
            c < self.matrix.n_cols,
        ensures
            s@ == self.window(c as int),
            s@.len() == self.len,
            forall|r: int| 0 <= r < self.len ==> #[trigger] s@[r] == self.at(r, c as int),
    {
        let m: &Matrix<T> = &self.matrix;
        proof {
            lemma_col_span(c as int, m.stride as int, m.n_rows as int, m.n_cols as int);
        }
        let _n = m.data.len();
        let start = c * m.stride + self.offset;
        vstd::slice::slice_subrange(m.data.as_slice(), start, start + self.len)
    }

    /// Every column's window, in column order.
    pub fn columns(&self) -> (cols: Vec<&[T]>)
        requires
            self.wf(),
        ensures
            cols@.len() == self.matrix.n_cols,
            forall|c: int| 0 <= c < cols@.len() ==> #[trigger] cols@[c]@ == self.window(c),
    {
        let n = self.n_cols();
        let mut cols: Vec<&[T]> = Vec::new();
        let mut c: usize = 0;
        while c < n
            invariant
                self.wf(),
                n == self.matrix.n_cols,
                c <= n,
                cols@.len() == c,
                forall|k: int| 0 <= k < c ==> #[trigger] cols@[k]@ == self.window(k),
            decreases n - c,
        {
            cols.push(self.col(c));
            c = c + 1;
        }
        cols
    }

    /// Element at window-relative row `r` of column `c`.
    pub fn get(&self, r: usize, c: usize) -> (v: T)
        requires
            self.wf(),
            r < self.len,
            c < self.matrix.n_cols,
        ensures
            v == self.at(r as int, c as int),
    {
        self.matrix.get(self.offset + r, c)
    }

    /// Window-relative row `r` across every column.
    pub fn row(&self, r: usize) -> (v: Vec<T>)
        requires
            self.wf(),
            r < self.len,
        ensures
            v@.len() == self.matrix.n_cols,
            forall|c: int| 0 <= c < self.matrix.n_cols ==> #[trigger] v@[c] == self.at(r as int, c),
    {
        self.matrix.row(self.offset + r)
    }

    /// `(data, offset, length, stride)`: the whole backing buffer, the
    /// window's rows and the column stride.
    pub fn as_tuple(&self) -> (t: (&[T], usize, usize, usize))
        ensures
            t.0@ == self.matrix.data@,
            t.1 == self.offset,
            t.2 == self.len,
            t.3 == self.matrix.stride,
    {
        (self.matrix.data.as_slice(), self.offset, self.len, self.matrix.stride)
    }

    /// Window row count as `i32` for BLAS.
    pub fn m(&self) -> (m: i32)
        ensures
            m == self.len as i32,
    {
        self.len as i32
    }

    /// Column count as `i32` for BLAS.
    pub fn n(&self) -> (n: i32)
        ensures
            n == self.matrix.n_cols as i32,
    {
        self.matrix.n_cols as i32
    }

    /// Leading dimension for BLAS: the backing column stride, which row
    /// windowing leaves unchanged.
    pub fn lda(&self) -> (lda: i32)
        ensures
            lda == self.matrix.stride as i32,
    {
        self.matrix.stride as i32
    }

    /// `(data, lda)` for BLAS, with `data` starting at the window's first
    /// row: element `(i, j)` of the window sits at `data[j * lda + i]`.
    pub fn as_strided(&self) -> (t: (&[T], i32))
        requires
            self.wf(),
            self.offset <= self.matrix.data@.len(),
        ensures
            t.0@ == self.matrix.data@.subrange(self.offset as int, self.matrix.data@.len() as int),
            t.1 == self.matrix.stride as i32,
    {
        let m: &Matrix<T> = &self.matrix;
        let n = m.data.len();
        (vstd::slice::slice_subrange(m.data.as_slice(), self.offset, n), m.stride as i32)
    }

    /// Materialises the window as an owned matrix. A window over every
    /// backing row copies the backing matrix as it is; any other window is
    /// copied into the padded layout for its own row count.
    pub fn to_matrix(&self) -> (out: Matrix<T>)
        where
            T: Default,
        requires
            self.wf(),
            fits_padded(self.len as int, self.matrix.n_cols as int),
        ensures
            out.wf(),
            out.n_rows == self.len,
            out.n_cols == self.matrix.n_cols,
            out.name == self.matrix.name,
            self.offset == 0 && self.len == self.matrix.n_rows ==> out.same(&*self.matrix),
            !(self.offset == 0 && self.len == self.matrix.n_rows) ==> out.stride == aligned(self.len as int),
            forall|r: int, c: int|
                0 <= r < self.len && 0 <= c < self.matrix.n_cols ==> #[trigger] out.at(r, c) == self.at(r, c),
    {
        if self.spans_backing() {
            return self.matrix.duplicate();
        }
        let rows = window_rows(self.offset, self.len);
        let out = self.matrix.extract_rows(rows.as_slice());
        assert forall|r: int, c: int| 0 <= r < self.len && 0 <= c < self.matrix.n_cols implies #[trigger] out.at(
            r,
            c,
        ) == self.at(r, c) by {
            assert(rows@[r] == self.offset + r);
        }
        out
    }

    /// Gathers window-relative rows, in the order of `indices`, into a new
    /// owned matrix.
    pub fn gather_rows(&self, indices: &[usize]) -> (out: Matrix<T>)
        where
            T: Default,
        requires
            self.wf(),
            forall|i: int| 0 <= i < indices@.len() ==> #[trigger] indices@[i] < self.len,
            fits_padded(indices@.len() as int, self.matrix.n_cols as int),
        ensures
            out.wf(),
            out.n_rows == indices@.len(),
            out.n_cols == self.matrix.n_cols,
            out.stride == aligned(indices@.len() as int),
            out.name == self.matrix.name,
            forall|r: int, c: int|
                0 <= r < out.n_rows && 0 <= c < out.n_cols ==> #[trigger] out.at(r, c) == self.at(
                    indices@[r] as int,
                    c,
                ),
    {
        let mut absolute: Vec<usize> = Vec::new();
        let mut i: usize = 0;
        while i < indices.len()
            invariant
                self.wf(),
                forall|k: int| 0 <= k < indices@.len() ==> #[trigger] indices@[k] < self.len,
                i <= indices@.len(),
                absolute@.len() == i,
                forall|k: int| 0 <= k < i ==> #[trigger] absolute@[k] == self.offset + indices@[k],
            decreases indices@.len() - i,
        {
            absolute.push(self.offset + indices[i]);
            i = i + 1;
        }
        let out = self.matrix.extract_rows(absolute.as_slice());
        assert forall|r: int, c: int| 0 <= r < out.n_rows && 0 <= c < out.n_cols implies #[trigger] out.at(r, c)
            == self.at(indices@[r] as int, c) by {
            assert(absolute@[r] == self.offset + indices@[r]);
        }
        out
    }

    /// Stacks `other`'s rows below this window's rows into one owned
    /// matrix, returned as a view over all of it. Both windows must have
    /// the same column count.
    pub fn concat(self, other: Self) -> (out: Result<MatrixV<T>, MinarrowError>)
        where
            T: Default,
        requires
            self.wf(),
            other.wf(),
            fits_padded(self.len as int, self.matrix.n_cols as int),
            fits_padded(other.len as int, other.matrix.n_cols as int),
            self.matrix.n_cols == other.matrix.n_cols ==> fits_padded(
                self.len + other.len,
                self.matrix.n_cols as int,
            ),
        ensures
            out is Ok <==> self.matrix.n_cols == other.matrix.n_cols,
            out matches Err(e) ==> (e matches MinarrowError::IncompatibleTypeError { from, to, message: Some(msg) }
                && from@ == "Matrix"@ && to@ == "Matrix"@ && msg@ == "Cannot concatenate matrices with "@ + decimal(
                self.matrix.n_cols as nat,
            ) + " and "@ + decimal(other.matrix.n_cols as nat) + " columns"@),
            out matches Ok(v) ==> {
                &&& v.wf()
                &&& v.offset == 0
                &&& v.len == v.matrix.n_rows
                &&& v.len == self.len + other.len
                &&& v.matrix.n_cols == self.matrix.n_cols
                &&& v.matrix.name == self.matrix.name
                &&& forall|r: int, c: int|
                    0 <= r < v.len && 0 <= c < v.matrix.n_cols ==> #[trigger] v.at(r, c) == (if r < self.len {
                        self.at(r, c)
                    } else {
                        other.at(r - self.len, c)
                    })
            },
    {
        let a = self.to_matrix();
        let b = other.to_matrix();
        match a.concat(b) {
            Ok(joined) => {
                let n = joined.n_rows;
                Ok(MatrixV::from_matrix(joined, 0, n))
            },
            Err(e) => Err(e),
        }
    }

    /// One-line description: name, size and the window's rows over the
    /// backing matrix.
    pub fn describe(&self) -> (s: String)
        requires
            self.wf(),
        ensures
            s@ == "MatrixV"@ + name_label(self.matrix.name) + ": "@ + decimal(self.len as nat) + " × "@
                + decimal(self.matrix.n_cols as nat) + " [col-major, rows "@ + decimal(self.offset as nat)
                + ".."@ + decimal((self.offset + self.len) as nat) + " of "@ + decimal(
                self.matrix.n_rows as nat,
            ) + "]"@,
    {
        let mut s = String::from_str("MatrixV");
        match &self.matrix.name {
            Some(n) => {
                s.append(" '");
                s.append(n.as_str());
                s.append("'");
            },
            None => {},
        }
        s.append(": ");
        append_usize(&mut s, self.len);
        s.append(" × ");
        append_usize(&mut s, self.matrix.n_cols);
        s.append(" [col-major, rows ");
        append_usize(&mut s, self.offset);
        s.append("..");
        append_usize(&mut s, self.end());
        s.append(" of ");
        append_usize(&mut s, self.matrix.n_rows);
        s.append("]");
        s
    }
}


impl<T: Copy> MatrixV<T> {
    /// Exec check of [`MatrixV::wf`].
    fn check_wf(&self) -> (b: bool)
        ensures
            b == self.wf(),
    {
        let m: &Matrix<T> = &self.matrix;
        let _n = m.data.len();
        if m.n_rows > m.stride {
            return false;
        }
        match m.n_cols.checked_mul(m.stride) {
            Some(total) => {
                if total != m.data.len() {
                    return false;
                }
            },
            None => {
                return false;
            },
        }
        match self.offset.checked_add(self.len) {
            Some(end) => end <= m.n_rows,
            None => false,
        }
    }
}

impl<T: Copy + PartialEq> MatrixV<T> {
    /// Two well-formed windows of the same size holding equal elements,
    /// whatever their backing matrices and offsets.
    pub open spec fn same_window(&self, other: &Self) -> bool {
        &&& self.wf()
        &&& other.wf()
        &&& self.len == other.len
        &&& self.matrix.n_cols == other.matrix.n_cols
        &&& forall|r: int, c: int|
            0 <= r < self.len && 0 <= c < self.matrix.n_cols ==> #[trigger] self.at(r, c).eq_spec(&other.at(r, c))
    }

    /// Window equality by shape and values, not by backing storage.
    pub fn equals(&self, other: &Self) -> (b: bool)
        ensures
            <T as PartialEqSpec>::obeys_eq_spec() ==> b == self.same_window(other),
    {
        if !self.check_wf() || !other.check_wf() {
            return false;
        }
        if self.len != other.len || self.n_cols() != other.n_cols() {
            return false;
        }
        let n = self.n_cols();
        let mut c: usize = 0;
        while c < n
            invariant
                self.wf(),
                other.wf(),
                self.len == other.len,
                n == self.matrix.n_cols,
                n == other.matrix.n_cols,
                c <= n,
                <T as PartialEqSpec>::obeys_eq_spec() ==> forall|rr: int, cc: int|
                    0 <= rr < self.len && 0 <= cc < c ==> #[trigger] self.at(rr, cc).eq_spec(&other.at(rr, cc)),
            decreases n - c,
        {
            let mut r: usize = 0;
            while r < self.len
                invariant
                    self.wf(),
                    other.wf(),
                    self.len == other.len,
                    n == self.matrix.n_cols,
                    n == other.matrix.n_cols,
                    c < n,
                    r <= self.len,
                    <T as PartialEqSpec>::obeys_eq_spec() ==> forall|rr: int, cc: int|
                        0 <= rr < self.len && 0 <= cc < c ==> #[trigger] self.at(rr, cc).eq_spec(&other.at(rr, cc)),
                    <T as PartialEqSpec>::obeys_eq_spec() ==> forall|rr: int|
                        0 <= rr < r ==> #[trigger] self.at(rr, c as int).eq_spec(&other.at(rr, c as int)),
                decreases self.len - r,
            {
                let x = self.get(r, c);
                let y = other.get(r, c);
                if !(x == y) {
                    return false;
                }
                r = r + 1;
            }
            c = c + 1;
        }
        true
    }
}

impl<T: Copy + PartialEq> PartialEq for MatrixV<T> {
    fn eq(&self, other: &Self) -> (r: bool) {
        self.equals(other)
    }
}

impl<T: Copy + PartialEq> PartialEqSpecImpl for MatrixV<T> {
    open spec fn obeys_eq_spec() -> bool {
        <T as PartialEqSpec>::obeys_eq_spec()
    }

    open spec fn eq_spec(&self, other: &Self) -> bool {
        self.same_window(other)
    }
}

impl<T: Copy> Shape for MatrixV<T> {
    open spec fn classifies(&self, d: ShapeDim) -> bool {
        d == (ShapeDim::Rank2 { rows: self.len, cols: self.matrix.n_cols })
    }

    fn shape(&self) -> (d: ShapeDim) {
        ShapeDim::Rank2 { rows: self.len, cols: self.matrix.n_cols }
    }
}


impl<T: Copy> From<Matrix<T>> for MatrixV<T> {
    fn from(matrix: Matrix<T>) -> (v: Self) {
        let n = matrix.n_rows;
        MatrixV { matrix: Arc::new(matrix), offset: 0, len: n }
    }
}

impl<T: Copy> FromSpecImpl<Matrix<T>> for MatrixV<T> {
    open spec fn obeys_from_spec() -> bool {
        true
    }

    open spec fn from_spec(matrix: Matrix<T>) -> Self {
        MatrixV { matrix: Arc::new(matrix), offset: 0, len: matrix.n_rows }
    }
}


/// Materialising a window and viewing the result whole reads the window
/// back: same size, same element at every position.
pub proof fn law_window_round_trip<T>(v: MatrixV<T>, m: Matrix<T>)
    requires
        v.wf(),
        m.wf(),
        m.n_rows == v.len,
        m.n_cols == v.matrix.n_cols,
        forall|r: int, c: int| 0 <= r < v.len && 0 <= c < v.matrix.n_cols ==> #[trigger] m.at(r, c) == v.at(r, c),
    ensures
        ({
            let w = MatrixV { matrix: Arc::new(m), offset: 0, len: m.n_rows };
            &&& w.wf()
            &&& w.len == v.len
            &&& w.matrix.n_cols == v.matrix.n_cols
            &&& forall|r: int, c: int| 0 <= r < w.len && 0 <= c < w.matrix.n_cols ==> #[trigger] w.at(r, c) == v.at(r, c)
        }),
{
    let w = MatrixV { matrix: Arc::new(m), offset: 0, len: m.n_rows };
    assert forall|r: int, c: int| 0 <= r < w.len && 0 <= c < w.matrix.n_cols implies #[trigger] w.at(r, c) == v.at(r, c) by {
        assert(w.at(r, c) == m.at(r, c));
    }
}

/// Splitting a window in two and concatenating the halves gives back the
/// window's rows, in order.
pub proof fn law_split_then_concat<T>(v: MatrixV<T>, k: int, top: MatrixV<T>, bottom: MatrixV<T>, joined: MatrixV<T>)
    requires
        v.wf(),
        0 <= k <= v.len,
        top.len == k,
        bottom.len == v.len - k,
        forall|r: int, c: int| #[trigger] top.at(r, c) == v.at(r, c),
        forall|r: int, c: int| #[trigger] bottom.at(r, c) == v.at(k + r, c),
        joined.len == top.len + bottom.len,
        forall|r: int, c: int|
            0 <= r < joined.len && 0 <= c < joined.matrix.n_cols ==> #[trigger] joined.at(r, c) == (if r < top.len {
                top.at(r, c)
            } else {
                bottom.at(r - top.len, c)
            }),
    ensures
        joined.len == v.len,
        forall|r: int, c: int| 0 <= r < joined.len && 0 <= c < joined.matrix.n_cols ==> #[trigger] joined.at(r, c) == v.at(r, c),
{
    assert forall|r: int, c: int| 0 <= r < joined.len && 0 <= c < joined.matrix.n_cols implies #[trigger] joined.at(r, c)
        == v.at(r, c) by {
        if r < k {
            assert(top.at(r, c) == v.at(r, c));
        } else {
            assert(bottom.at(r - k, c) == v.at(k + (r - k), c));
        }
    }
}

} // verus!
