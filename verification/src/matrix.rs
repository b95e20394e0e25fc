//! # Matrix - padded column-major matrix
//!
//! A dense 2D matrix stored column by column. Each column starts on an
//! eight-element boundary (64 bytes of `f64`), so the column stride is the
//! row count rounded up to a multiple of eight; the padding rows after each
//! column are never part of the matrix's contents. The stride is the BLAS
//! leading dimension (`lda`).

use vstd::prelude::*;

use crate::error::{append_usize, decimal, MinarrowError};
use crate::layout::{dot, fits, flatten, in_bounds, ints, layout_ok, lemma_logical_at, logical, max_offset, prod};
use crate::ndarray::{clone_name, NdArray, NdDims};
use crate::ndarray_view::NdArrayV;

verus! {

/// The row count rounded up to the next multiple of eight.
pub open spec fn aligned(n: int) -> int {
    (n + 7) / 8 * 8
}

/// A padded matrix of `n_rows` by `n_cols` fits in memory: the aligned
/// stride and the whole buffer length fit in a `usize`.
pub open spec fn fits_padded(n_rows: int, n_cols: int) -> bool {
    &&& n_rows + 7 <= usize::MAX
    &&& n_cols * aligned(n_rows) <= usize::MAX
}

/// `r + c * stride` addresses a cell inside the `stride * cols` buffer.
pub proof fn lemma_cell(r: int, c: int, stride: int, rows: int, cols: int)
    requires
        0 <= r < rows,
        rows <= stride,
        0 <= c < cols,
    ensures
        0 <= c * stride + r < cols * stride,
        c * stride + rows <= cols * stride,
{
    assert(c * stride + stride <= cols * stride) by (nonlinear_arith)
        requires
            0 <= c < cols,
            0 <= stride,
    ;
    assert(0 <= c * stride) by (nonlinear_arith)
        requires
            0 <= c,
            0 <= stride,
    ;
}

/// Column `c` spans `[c * stride, c * stride + rows)` inside the buffer.
pub proof fn lemma_col_span(c: int, stride: int, rows: int, cols: int)
    requires
        0 <= rows <= stride,
        0 <= c < cols,
    ensures
        0 <= c * stride,
        c * stride + rows <= cols * stride,
{
    assert(c * stride + stride <= cols * stride) by (nonlinear_arith)
        requires
            0 <= c < cols,
            0 <= stride,
    ;
    assert(0 <= c * stride) by (nonlinear_arith)
        requires
            0 <= c,
            0 <= stride,
    ;
}

/// Splitting a flat position into its row within a column and its column.
pub proof fn lemma_cell_div_mod(r: int, c: int, stride: int)
    requires
        0 <= r < stride,
        0 <= c,
    ensures
        (c * stride + r) / stride == c,
        (c * stride + r) % stride == r,
{
    vstd::arithmetic::div_mod::lemma_fundamental_div_mod_converse(c * stride + r, stride, c, r);
}

/// Column stride for `n_rows` rows: `n_rows` rounded up to a multiple of
/// eight.
pub fn aligned_stride(n_rows: usize) -> (s: usize)
    requires
        n_rows + 7 <= usize::MAX,
    ensures
        s == aligned(n_rows as int),
        n_rows <= s < n_rows + 8,
{
    let q = (n_rows + 7) / 8;
    assert(n_rows <= q * 8 < n_rows + 8) by (nonlinear_arith)
        requires
            q == (n_rows + 7) / 8,
            0 <= n_rows,
    ;
    q * 8
}

/// Column-major matrix whose columns are padded to the aligned stride.
#[derive(Debug, PartialEq)]
pub struct Matrix<T> {
    /// Number of rows.
    pub n_rows: usize,
    /// Number of columns.
    pub n_cols: usize,
    /// Elements between the starts of two neighbouring columns.
    pub stride: usize,
    /// Column-major buffer of `n_cols * stride` elements.
    pub data: Vec<T>,
    /// Optional matrix name.
    pub name: Option<String>,
}

impl<T> Matrix<T> {
    /// Every column fits its stride, and the buffer holds every column.
    pub open spec fn wf(&self) -> bool {
        &&& self.n_rows <= self.stride
        &&& self.data@.len() == self.n_cols * self.stride
    }

    /// The element at row `r` of column `c`.
    pub open spec fn at(&self, r: int, c: int) -> T {
        self.data@[c * self.stride + r]
    }

    /// The `n_rows` elements of column `c`.
    pub open spec fn column(&self, c: int) -> Seq<T> {
        self.data@.subrange(c * self.stride, c * self.stride + self.n_rows)
    }

    /// Same size, layout, contents and name.
    pub open spec fn same(&self, other: &Matrix<T>) -> bool {
        &&& self.n_rows == other.n_rows
        &&& self.n_cols == other.n_cols
        &&& self.stride == other.stride
        &&& self.data@ == other.data@
        &&& self.name == other.name
    }
}

/// The padded column-major image of a compact column-major buffer: flat
/// position `k` holds row `k % stride` of column `k / stride`, or `pad` in
/// the padding rows.
pub open spec fn padded<T>(data: Seq<T>, n_rows: int, stride: int, pad: T, k: int) -> T {
    if k % stride < n_rows {
        data[(k / stride) * n_rows + k % stride]
    } else {
        pad
    }
}

impl<T: Copy> Clone for Matrix<T> {
    fn clone(&self) -> (out: Self)
        ensures
            out.same(self),
    {
        self.duplicate()
    }
}

impl<T: Copy> Matrix<T> {
    /// An equal copy of this matrix.
    pub fn duplicate(&self) -> (out: Self)
        ensures
            out.same(self),
    {
        Matrix {
            n_rows: self.n_rows,
            n_cols: self.n_cols,
            stride: self.stride,
            data: vstd::slice::slice_to_vec(self.data.as_slice()),
            name: clone_name(&self.name),
        }
    }

    /// Column `c` as a contiguous slice of `n_rows` elements.
    pub fn col(&self, c: usize) -> (s: &[T])
        requires
            self.wf(),
            c < self.n_cols,
        ensures
            s@ == self.column(c as int),
    {
        proof {
            lemma_col_span(c as int, self.stride as int, self.n_rows as int, self.n_cols as int);
        }
        let _len = self.data.len();
        let start = c * self.stride;
        vstd::slice::slice_subrange(self.data.as_slice(), start, start + self.n_rows)
    }

    /// The element at row `r` of column `c`.
    pub fn get(&self, r: usize, c: usize) -> (v: T)
        requires
            self.wf(),
            r < self.n_rows,
            c < self.n_cols,
        ensures
            v == self.at(r as int, c as int),
    {
        proof {
            lemma_cell(r as int, c as int, self.stride as int, self.n_rows as int, self.n_cols as int);
        }
        let _len = self.data.len();
        self.data[c * self.stride + r]
    }

    /// Row `r` across every column.
    pub fn row(&self, r: usize) -> (v: Vec<T>)
        requires
            self.wf(),
            r < self.n_rows,
        ensures
            v@.len() == self.n_cols,
            forall|c: int| 0 <= c < self.n_cols ==> #[trigger] v@[c] == self.at(r as int, c),
    {
        let mut v: Vec<T> = Vec::new();
        let mut c: usize = 0;
        while c < self.n_cols
            invariant
                self.wf(),
                r < self.n_rows,
                c <= self.n_cols,
                v@.len() == c,
                forall|k: int| 0 <= k < c ==> #[trigger] v@[k] == self.at(r as int, k),
            decreases self.n_cols - c,
        {
            v.push(self.get(r, c));
            c = c + 1;
        }
        v
    }

    /// The whole padded buffer.
    pub fn as_slice(&self) -> (s: &[T])
        ensures
            s@ == self.data@,
    {
        self.data.as_slice()
    }

    /// `(data, offset, length, stride)`: the whole buffer, with the matrix's
    /// rows as the window `[0, n_rows)`.
    pub fn as_tuple(&self) -> (t: (&[T], usize, usize, usize))
        ensures
            t.0@ == self.data@,
            t.1 == 0,
            t.2 == self.n_rows,
            t.3 == self.stride,
    {
        (self.data.as_slice(), 0, self.n_rows, self.stride)
    }

    /// New matrix holding the rows `indices`, in that order, of every
    /// column.
    pub fn extract_rows(&self, indices: &[usize]) -> (out: Matrix<T>)
        where
            T: Default,
        requires
            self.wf(),
            forall|i: int| 0 <= i < indices@.len() ==> #[trigger] indices@[i] < self.n_rows,
            fits_padded(indices@.len() as int, self.n_cols as int),
        ensures
            out.wf(),
            out.n_rows == indices@.len(),
            out.n_cols == self.n_cols,
            out.stride == aligned(indices@.len() as int),
            out.name == self.name,
            forall|r: int, c: int|
                0 <= r < out.n_rows && 0 <= c < out.n_cols ==> #[trigger] out.at(r, c) == self.at(
                    indices@[r] as int,
                    c,
                ),
    {
        let n = indices.len();
        let ghost a = aligned(n as int);
        proof {
            assert(self.n_cols * n <= self.n_cols * a) by (nonlinear_arith)
                requires
                    n <= a,
                    0 <= self.n_cols,
            ;
        }
        let total = self.n_cols * n;
        assert(n > 0 || total == 0) by (nonlinear_arith)
            requires
                total == self.n_cols * n,
                n >= 0,
        ;
        let mut buf: Vec<T> = Vec::new();
        let mut k: usize = 0;
        while k < total
            invariant
                self.wf(),
                forall|i: int| 0 <= i < indices@.len() ==> #[trigger] indices@[i] < self.n_rows,
                n == indices@.len(),
                total == self.n_cols * n,
                n > 0 || total == 0,
                k <= total,
                buf@.len() == k,
                forall|j: int|
                    0 <= j < k ==> #[trigger] buf@[j] == self.at(indices@[j % (n as int)] as int, j / (n as int)),
            decreases total - k,
        {
            let r = k % n;
            let c = k / n;
            proof {
                vstd::arithmetic::div_mod::lemma_fundamental_div_mod(k as int, n as int);
                assert(c < self.n_cols) by (nonlinear_arith)
                    requires
                        k < self.n_cols * n,
                        k == n * c + r,
                        0 <= r,
                        0 < n,
                ;
            }
            buf.push(self.get(indices[r], c));
            k = k + 1;
        }
        proof {
            assert(total == n * self.n_cols) by (nonlinear_arith)
                requires
                    total == self.n_cols * n,
            ;
        }
        let out = Matrix::from_unaligned(buf.as_slice(), n, self.n_cols, clone_name(&self.name));
        proof {
            assert forall|r: int, c: int| 0 <= r < out.n_rows && 0 <= c < out.n_cols implies #[trigger] out.at(r, c)
                == self.at(indices@[r] as int, c) by {
                lemma_cell(r, c, n as int, n as int, self.n_cols as int);
                assert(self.n_cols * n == n * self.n_cols) by (nonlinear_arith);
                lemma_cell_div_mod(r, c, n as int);
                assert(out.at(r, c) == buf@[c * n + r]);
            }
        }
        out
    }

    /// Stacks `other`'s rows below this matrix's rows, column by column.
    /// Both must have the same column count; the result keeps this
    /// matrix's name.
    pub fn concat(self, other: Self) -> (out: Result<Matrix<T>, MinarrowError>)
        where
            T: Default,
        requires
            self.wf(),
            other.wf(),
            self.n_cols == other.n_cols ==> fits_padded(self.n_rows + other.n_rows, self.n_cols as int),
        ensures
            out is Ok <==> self.n_cols == other.n_cols,
            out matches Err(e) ==> (e matches MinarrowError::IncompatibleTypeError { from, to, message: Some(msg) }
                && from@ == "Matrix"@ && to@ == "Matrix"@ && msg@ == "Cannot concatenate matrices with "@ + decimal(
                self.n_cols as nat,
            ) + " and "@ + decimal(other.n_cols as nat) + " columns"@),
            out matches Ok(m) ==> {
                &&& m.wf()
                &&& m.n_rows == self.n_rows + other.n_rows
                &&& m.n_cols == self.n_cols
                &&& m.stride == aligned(m.n_rows as int)
                &&& m.name == self.name
                &&& forall|r: int, c: int|
                    0 <= r < m.n_rows && 0 <= c < m.n_cols ==> #[trigger] m.at(r, c) == (if r < self.n_rows {
                        self.at(r, c)
                    } else {
                        other.at(r - self.n_rows, c)
                    })
            },
    {
        if self.n_cols != other.n_cols {
            let mut message = String::from_str("Cannot concatenate matrices with ");
            append_usize(&mut message, self.n_cols);
            message.append(" and ");
            append_usize(&mut message, other.n_cols);
            message.append(" columns");
            return Err(MinarrowError::IncompatibleTypeError {
                from: String::from_str("Matrix"),
                to: String::from_str("Matrix"),
                message: Some(message),
            });
        }
        let na = self.n_rows;
        let n = self.n_rows + other.n_rows;
        let ghost a = aligned(n as int);
        proof {
            assert(self.n_cols * n <= self.n_cols * a) by (nonlinear_arith)
                requires
                    n <= a,
                    0 <= self.n_cols,
            ;
        }
        let total = self.n_cols * n;
        assert(n > 0 || total == 0) by (nonlinear_arith)
            requires
                total == self.n_cols * n,
                n >= 0,
        ;
        let mut buf: Vec<T> = Vec::new();
        let mut k: usize = 0;
        while k < total
            invariant
                self.wf(),
                other.wf(),
                self.n_cols == other.n_cols,
                na == self.n_rows,
                n == self.n_rows + other.n_rows,
                total == self.n_cols * n,
                n > 0 || total == 0,
                k <= total,
                buf@.len() == k,
                forall|j: int|
                    0 <= j < k ==> #[trigger] buf@[j] == (if j % (n as int) < na {
                        self.at(j % (n as int), j / (n as int))
                    } else {
                        other.at(j % (n as int) - na, j / (n as int))
                    }),
            decreases total - k,
        {
            let r = k % n;
            let c = k / n;
            proof {
                vstd::arithmetic::div_mod::lemma_fundamental_div_mod(k as int, n as int);
                assert(c < self.n_cols) by (nonlinear_arith)
                    requires
                        k < self.n_cols * n,
                        k == n * c + r,
                        0 <= r,
                        0 < n,
                ;
            }
            if r < na {
                buf.push(self.get(r, c));
            } else {
                buf.push(other.get(r - na, c));
            }
            k = k + 1;
        }
        proof {
            assert(total == n * self.n_cols) by (nonlinear_arith)
                requires
                    total == self.n_cols * n,
            ;
        }
        let out = Matrix::from_unaligned(buf.as_slice(), n, self.n_cols, self.name);
        proof {
            assert forall|r: int, c: int| 0 <= r < out.n_rows && 0 <= c < out.n_cols implies #[trigger] out.at(r, c)
                == (if r < self.n_rows {
                self.at(r, c)
            } else {
                other.at(r - self.n_rows, c)
            }) by {
                lemma_cell(r, c, n as int, n as int, self.n_cols as int);
                assert(self.n_cols * n == n * self.n_cols) by (nonlinear_arith);
                lemma_cell_div_mod(r, c, n as int);
                assert(out.at(r, c) == buf@[c * n + r]);
            }
        }
        Ok(out)
    }

    /// Matrix of `n_rows * n_cols` elements from a compact column-major
    /// slice: column `c` is `data[c * n_rows .. (c + 1) * n_rows]`. Each
    /// column is copied into the padded layout; padding holds `T::default()`.
    pub fn from_unaligned(data: &[T], n_rows: usize, n_cols: usize, name: Option<String>) -> (out: Self)
        where
            T: Default,
        requires
            data@.len() == n_rows * n_cols,
            fits_padded(n_rows as int, n_cols as int),
        ensures
            out.wf(),
            out.n_rows == n_rows,
            out.n_cols == n_cols,
            out.stride == aligned(n_rows as int),
            out.name == name,
            forall|r: int, c: int|
                0 <= r < n_rows && 0 <= c < n_cols ==> #[trigger] out.at(r, c) == data@[c * n_rows + r],
            forall|r: int, c: int|
                n_rows <= r < out.stride && 0 <= c < n_cols ==> call_ensures(T::default, (), #[trigger] out.at(r, c)),
    {
        let _len = data.len();
        let stride = aligned_stride(n_rows);
        let total = n_cols * stride;
        let pad = T::default();
        let mut buf: Vec<T> = Vec::new();
        let mut k: usize = 0;
        while k < total
            invariant
                stride == aligned(n_rows as int),
                n_rows <= stride,
                total == n_cols * stride,
                data@.len() == n_rows * n_cols,
                data@.len() <= usize::MAX,
                k <= total,
                buf@.len() == k,
                forall|j: int| 0 <= j < k ==> #[trigger] buf@[j] == padded(data@, n_rows as int, stride as int, pad, j),
            decreases total - k,
        {
            let r = k % stride;
            let c = k / stride;
            if r < n_rows {
                proof {
                    vstd::arithmetic::div_mod::lemma_fundamental_div_mod(k as int, stride as int);
                    assert(c < n_cols) by (nonlinear_arith)
                        requires
                            k < n_cols * stride,
                            k == stride * c + r,
                            0 <= r,
                            0 < stride,
                    ;
                    lemma_cell(r as int, c as int, n_rows as int, n_rows as int, n_cols as int);
                    assert(n_cols * n_rows == n_rows * n_cols) by (nonlinear_arith);
                }
                buf.push(data[c * n_rows + r]);
            } else {
                buf.push(pad);
            }
            k = k + 1;
        }
        let out = Matrix { n_rows, n_cols, stride, data: buf, name };
        proof {
            assert forall|r: int, c: int| 0 <= r < n_rows && 0 <= c < n_cols implies #[trigger] out.at(r, c)
                == data@[c * n_rows + r] by {
                lemma_cell(r, c, stride as int, n_rows as int, n_cols as int);
                lemma_cell_div_mod(r, c, stride as int);
            }
            assert forall|r: int, c: int| n_rows <= r < out.stride && 0 <= c < n_cols implies call_ensures(
                T::default,
                (),
                #[trigger] out.at(r, c),
            ) by {
                lemma_cell(r, c, stride as int, stride as int, n_cols as int);
                lemma_cell_div_mod(r, c, stride as int);
            }
        }
        out
    }
}


/// The 2D shape `[rows, cols]` as integers.
pub open spec fn shape2(rows: usize, cols: usize) -> Seq<int> {
    seq![rows as int, cols as int]
}

/// Logical position `c * rows + r` of a 2D array holds the element at
/// `[r, c]`, which a `[1, stride]` layout keeps at `r + c * stride`.
proof fn lemma_padded_logical<T>(data: Seq<T>, rows: int, cols: int, stride: int, r: int, c: int)
    requires
        0 <= r < rows,
        0 <= c < cols,
    ensures
        0 <= c * rows + r < logical(data, 0, seq![rows, cols], seq![1, stride]).len(),
        logical(data, 0, seq![rows, cols], seq![1, stride])[c * rows + r] == data[c * stride + r],
{
    let shape = seq![rows, cols];
    let idx = seq![r, c];
    assert(in_bounds(idx, shape));
    lemma_logical_at(data, 0, shape, seq![1, stride], idx);
    assert(idx.drop_first() =~= seq![c]);
    assert(shape.drop_first() =~= seq![cols]);
    assert(seq![c].drop_first() =~= Seq::<int>::empty());
    assert(seq![cols].drop_first() =~= Seq::<int>::empty());
    assert(seq![1, stride].drop_first() =~= seq![stride]);
    assert(seq![stride].drop_first() =~= Seq::<int>::empty());
    assert(flatten(seq![c], seq![cols]) == c + cols * flatten(Seq::<int>::empty(), Seq::<int>::empty()));
    assert(flatten(seq![c], seq![cols]) == c);
    assert(flatten(idx, shape) == r + rows * flatten(seq![c], seq![cols]));
    assert(flatten(idx, shape) == r + rows * c);
    assert(dot(seq![c], seq![stride]) == c * stride + dot(Seq::<int>::empty(), Seq::<int>::empty()));
    assert(dot(idx, seq![1, stride]) == r * 1 + dot(seq![c], seq![stride]));
    assert(dot(idx, seq![1, stride]) == r + c * stride);
    assert(rows * c == c * rows) by (nonlinear_arith);
}

impl<T: Copy> NdArray<T> {
    /// 2D array over a matrix's buffer, moved without copying: shape
    /// `[n_rows, n_cols]` with the matrix's padded stride, so the array is
    /// not contiguous when the rows fall short of the stride.
    pub fn from_matrix(mat: Matrix<T>) -> (out: NdArray<T>)
        requires
            mat.wf(),
        ensures
            out.wf(),
            out.dims.shape@ == seq![mat.n_rows, mat.n_cols],
            out.dims.strides@ == seq![1usize, mat.stride],
            out.data@ == mat.data@,
            out.name == mat.name,
            forall|r: int, c: int|
                0 <= r < mat.n_rows && 0 <= c < mat.n_cols ==> #[trigger] out.values()[c * mat.n_rows + r] == mat.at(
                    r,
                    c,
                ),
    {
        let _n = mat.data.len();
        let shape = [mat.n_rows, mat.n_cols];
        let strides = [1usize, mat.stride];
        let ghost s = shape2(mat.n_rows, mat.n_cols);
        proof {
            assert(ints(shape@) =~= s);
            assert(ints(strides@) =~= seq![1int, mat.stride as int]);
            lemma_shape2_fits(mat.n_rows as int, mat.n_cols as int, mat.stride as int);
        }
        let out = NdArray {
            data: mat.data,
            dims: NdDims::from_shape_and_strides(&shape, &strides),
            name: mat.name,
        };
        proof {
            assert(out.shape_s() =~= s);
            assert(out.strides_s() =~= seq![1int, mat.stride as int]);
            assert forall|r: int, c: int| 0 <= r < mat.n_rows && 0 <= c < mat.n_cols implies #[trigger] out.values()[c
                * mat.n_rows + r] == mat.at(r, c) by {
                lemma_padded_logical(mat.data@, mat.n_rows as int, mat.n_cols as int, mat.stride as int, r, c);
            }
        }
        out
    }

    /// Converts a 2D array to a matrix with the padded column layout. An
    /// array whose strides already are `[1, aligned stride]` over a buffer
    /// of exactly `n_cols * stride` elements moves across without copying;
    /// any other layout is copied column by column. Fails with a shape
    /// error for any other rank.
    pub fn to_matrix(self) -> (out: Result<Matrix<T>, MinarrowError>)
        where
            T: Default,
        requires
            self.wf(),
            self.dims.shape@.len() == 2 ==> fits_padded(self.dims.shape@[0] as int, self.dims.shape@[1] as int),
        ensures
            out is Ok <==> self.dims.shape@.len() == 2,
            out matches Err(e) ==> e is ShapeError && e->ShapeError_message@ == "to_matrix requires a 2D array, got "@
                + decimal(self.dims.shape@.len()) + "D"@,
            out matches Ok(m) ==> {
                &&& m.wf()
                &&& m.n_rows == self.dims.shape@[0]
                &&& m.n_cols == self.dims.shape@[1]
                &&& m.stride == aligned(m.n_rows as int)
                &&& m.name == self.name
                &&& forall|r: int, c: int|
                    0 <= r < m.n_rows && 0 <= c < m.n_cols ==> #[trigger] m.at(r, c) == self.values()[c
                        * m.n_rows + r]
            },
    {
        let nd = self.dims.shape.len();
        if nd != 2 {
            let mut message = String::from_str("to_matrix requires a 2D array, got ");
            append_usize(&mut message, nd);
            message.append("D");
            return Err(MinarrowError::ShapeError { message });
        }
        let n_rows = self.dims.shape[0];
        let n_cols = self.dims.shape[1];
        let stride = aligned_stride(n_rows);
        let ghost s = self.shape_s();
        proof {
            assert(s =~= seq![n_rows as int, n_cols as int]);
        }
        let _n = self.data.len();
        if self.dims.strides[0] == 1 && self.dims.strides[1] == stride && n_cols.checked_mul(stride) == Some(
            self.data.len(),
        ) {
            let ghost vals = self.values();
            proof {
                assert(self.strides_s() =~= seq![1int, stride as int]);
            }
            let m = Matrix { n_rows, n_cols, stride, data: self.data, name: self.name };
            proof {
                assert forall|r: int, c: int| 0 <= r < m.n_rows && 0 <= c < m.n_cols implies #[trigger] m.at(r, c)
                    == vals[c * m.n_rows + r] by {
                    lemma_padded_logical(m.data@, n_rows as int, n_cols as int, stride as int, r, c);
                }
            }
            return Ok(m);
        }
        let flat = self.to_vec();
        proof {
            assert(prod(s) == n_rows * n_cols) by {
                assert(s.drop_first() =~= seq![n_cols as int]);
                assert(seq![n_cols as int].drop_first() =~= Seq::<int>::empty());
                assert(prod(seq![n_cols as int]) == n_cols * prod(Seq::<int>::empty()));
                assert(prod(s) == n_rows * prod(seq![n_cols as int]));
            }
        }
        let m = Matrix::from_unaligned(flat.as_slice(), n_rows, n_cols, self.name);
        proof {
            assert forall|r: int, c: int| 0 <= r < m.n_rows && 0 <= c < m.n_cols implies #[trigger] m.at(r, c)
                == flat@[c * m.n_rows + r] by {
                assert(c * n_rows == n_rows * c) by (nonlinear_arith);
            }
        }
        Ok(m)
    }
}

impl<T: Copy> NdArrayV<T> {
    /// Materialises a 2D view as a matrix with the padded column layout.
    /// Fails with a shape error for any other rank.
    pub fn to_matrix(&self) -> (out: Result<Matrix<T>, MinarrowError>)
        where
            T: Default,
        requires
            self.wf(),
            self.dims.shape@.len() == 2 ==> fits_padded(self.dims.shape@[0] as int, self.dims.shape@[1] as int),
        ensures
            out is Ok <==> self.dims.shape@.len() == 2,
            out matches Err(e) ==> e is ShapeError && e->ShapeError_message@ == "to_matrix requires a 2D array, got "@
                + decimal(self.dims.shape@.len()) + "D"@,
            out matches Ok(m) ==> {
                &&& m.wf()
                &&& m.n_rows == self.dims.shape@[0]
                &&& m.n_cols == self.dims.shape@[1]
                &&& m.stride == aligned(m.n_rows as int)
                &&& m.name == self.source.name
                &&& forall|r: int, c: int|
                    0 <= r < m.n_rows && 0 <= c < m.n_cols ==> #[trigger] m.at(r, c) == self.values()[c
                        * m.n_rows + r]
            },
    {
        self.to_ndarray().to_matrix()
    }
}

/// A `[rows, cols]` shape over a `[1, stride]` layout with `rows <= stride`
/// fits a buffer of `cols * stride` elements.
proof fn lemma_shape2_fits(rows: int, cols: int, stride: int)
    requires
        0 <= rows <= stride,
        rows <= usize::MAX,
        0 <= cols,
        cols * stride <= usize::MAX,
    ensures
        fits(seq![rows, cols]),
        layout_ok(cols * stride, 0, seq![rows, cols], seq![1, stride]),
{
    let s = seq![rows, cols];
    assert(s.drop_first() =~= seq![cols]);
    assert(s.drop_first().drop_first() =~= Seq::<int>::empty());
    assert(prod(seq![cols]) == cols * prod(Seq::<int>::empty()));
    assert(prod(s) == rows * prod(seq![cols]));
    assert(prod(s) == rows * cols);
    assert(rows * cols <= cols * stride) by (nonlinear_arith)
        requires
            0 <= rows <= stride,
            0 <= cols,
    ;
    assert forall|d: int| 0 <= d <= s.len() implies #[trigger] prod(s.take(d)) <= usize::MAX by {
        if d == 0 {
            assert(s.take(0) =~= Seq::<int>::empty());
        } else if d == 1 {
            assert(s.take(1) =~= seq![rows]);
            assert(seq![rows].drop_first() =~= Seq::<int>::empty());
            assert(prod(seq![rows]) == rows * prod(Seq::<int>::empty()));
        } else {
            assert(s.take(2) =~= s);
        }
    }
    let st = seq![1, stride];
    assert(st.drop_first() =~= seq![stride]);
    assert(seq![stride].drop_first() =~= Seq::<int>::empty());
    if prod(s) > 0 {
        assert(max_offset(seq![cols], seq![stride]) == (cols - 1) * stride + max_offset(
            Seq::<int>::empty(),
            Seq::<int>::empty(),
        ));
        assert(max_offset(s, st) == (rows - 1) * 1 + max_offset(seq![cols], seq![stride]));
        assert(max_offset(s, st) == (rows - 1) + (cols - 1) * stride);
        assert((cols - 1) * stride + stride == cols * stride) by (nonlinear_arith);
    }
}

} // verus!
