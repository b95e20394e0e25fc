//! # NdArrayV - strided view into a shared NdArray
//!
//! Holds the parent array behind an `Arc`, together with its own start
//! offset and dimension metadata, so slicing, observation access,
//! transposition and cloning of a view share the parent's buffer and never
//! copy elements. [`NdArrayV::from_ndarray`] and [`NdArrayV::new`] move an
//! owned array in; [`NdArrayV::from_shared`] takes a parent that is
//! already shared.

use std::sync::Arc;

use vstd::prelude::*;

use crate::layout::{
    dot, fits, gather, in_bounds, ints, layout_ok, lemma_dot_bound, lemma_dot_reverse,
    lemma_layout_reverse, lemma_prod_all_pos, lemma_prod_nonneg, logical,
    nonneg, offset_of_impl, prod, };
use crate::ndarray::{NdArray, NdDims};
use crate::shared::share;
use crate::selection::{
    lemma_selection_offset_nonneg, lemma_window_elem, lemma_window_layout, resolve_selection, sel_offset,
    sel_valid, window_shape, window_source, window_strides, AxisSel,
};

verus! {

/// Strided view into an [`NdArray`]: the parent shared behind an `Arc`, a
/// start offset into its buffer, and the view's own shape and strides.
#[derive(Debug, PartialEq)]
pub struct NdArrayV<T> {
    pub source: Arc<NdArray<T>>,
    pub offset: usize,
    pub dims: NdDims,
}

impl<T> NdArrayV<T> {
    pub open spec fn shape_s(&self) -> Seq<int> {
        self.dims.shape_s()
    }

    pub open spec fn strides_s(&self) -> Seq<int> {
        self.dims.strides_s()
    }

    /// Well-formed: the parent is, and every element the view addresses
    /// lies in the parent's buffer.
    pub open spec fn wf(&self) -> bool {
        &&& self.source.wf()
        &&& self.dims.wf()
        &&& layout_ok(self.source.data@.len() as int, self.offset as int, self.shape_s(), self.strides_s())
    }

    /// The viewed elements in column-major order.
    pub open spec fn values(&self) -> Seq<T> {
        logical(self.source.data@, self.offset as int, self.shape_s(), self.strides_s())
    }

    /// The viewed element at a multi-index.
    pub open spec fn elem(&self, idx: Seq<int>) -> T {
        self.source.data@[self.offset + dot(idx, self.strides_s())]
    }

    /// Same parent, offset and layout.
    pub open spec fn same(&self, other: &NdArrayV<T>) -> bool {
        &&& self.source.same(&other.source)
        &&& self.offset == other.offset
        &&& self.dims.shape@ == other.dims.shape@
        &&& self.dims.strides@ == other.dims.strides@
    }
}

impl<T: Copy> Clone for NdArrayV<T> {
    fn clone(&self) -> (out: Self)
        ensures
            out.same(self),
    {
        NdArrayV { source: share(&self.source), offset: self.offset, dims: self.dims.duplicate() }
    }
}

impl<T: Copy> NdArrayV<T> {
    /// A view over `source` starting at `offset` with the given shape and
    /// strides.
    pub fn new(source: NdArray<T>, offset: usize, shape: &[usize], strides: &[usize]) -> (v: Self)
        requires
            source.wf(),
            shape@.len() == strides@.len(),
            fits(ints(shape@)),
            layout_ok(source.data@.len() as int, offset as int, ints(shape@), ints(strides@)),
        ensures
            v.wf(),
            *v.source == source,
            v.offset == offset,
            v.dims.shape@ == shape@,
            v.dims.strides@ == strides@,
    {
        NdArrayV { source: Arc::new(source), offset, dims: NdDims::from_shape_and_strides(shape, strides) }
    }

    /// A view over a shared parent starting at `offset` with the given
    /// shape and strides; the parent's buffer is not copied.
    pub fn from_shared(source: Arc<NdArray<T>>, offset: usize, shape: &[usize], strides: &[usize]) -> (v: Self)
        requires
            source.wf(),
            shape@.len() == strides@.len(),
            fits(ints(shape@)),
            layout_ok(source.data@.len() as int, offset as int, ints(shape@), ints(strides@)),
        ensures
            v.wf(),
            *v.source == *source,
            v.offset == offset,
            v.dims.shape@ == shape@,
            v.dims.strides@ == strides@,
    {
        NdArrayV { source, offset, dims: NdDims::from_shape_and_strides(shape, strides) }
    }

    /// A full view with the array's own shape and strides. The array is
    /// moved in, not copied.
    pub fn from_ndarray(source: NdArray<T>) -> (v: Self)
        requires
            source.wf(),
        ensures
            v.wf(),
            v.offset == 0,
            v.dims.shape@ == source.dims.shape@,
            v.dims.strides@ == source.dims.strides@,
            v.values() == source.values(),
            *v.source == source,
    {
        let dims = source.dims.duplicate();
        NdArrayV { source: Arc::new(source), offset: 0, dims }
    }

    /// Number of dimensions.
    pub fn ndim(&self) -> (n: usize)
        ensures
            n == self.dims.shape@.len(),
    {
        self.dims.ndim()
    }

    /// Shape as a slice.
    pub fn shape(&self) -> (s: &[usize])
        ensures
            s@ == self.dims.shape@,
    {
        self.dims.shape()
    }

    /// Strides as a slice.
    pub fn strides(&self) -> (s: &[usize])
        ensures
            s@ == self.dims.strides@,
    {
        self.dims.strides()
    }

    /// Total logical element count.
    pub fn len(&self) -> (n: usize)
        requires
            self.wf(),
        ensures
            n == prod(self.shape_s()),
            n == self.values().len(),
    {
        proof {
            lemma_prod_nonneg(self.shape_s());
        }
        self.dims.len()
    }

    /// True if any dimension is zero.
    pub fn is_empty(&self) -> (b: bool)
        requires
            self.wf(),
        ensures
            b == (prod(self.shape_s()) == 0),
    {
        self.len() == 0
    }

    /// Buffer offset of an N-dimensional index.
    fn offset_of(&self, indices: &[usize]) -> (off: usize)
        requires
            self.wf(),
            in_bounds(ints(indices@), self.shape_s()),
        ensures
            off == self.offset + dot(ints(indices@), self.strides_s()),
            off < self.source.data@.len(),
    {
        let _n = self.source.data.len();
        proof {
            let s = self.shape_s();
            let idx = ints(indices@);
            assert forall|d: int| 0 <= d < s.len() implies #[trigger] s[d] > 0 by {
                assert(0 <= idx[d] < s[d]);
            }
            lemma_prod_all_pos(s);
            lemma_dot_bound(idx, s, self.strides_s());
        }
        self.offset + offset_of_impl(indices, self.dims.shape(), self.dims.strides())
    }

    /// Get an element by its N-dimensional index.
    pub fn get(&self, indices: &[usize]) -> (v: T)
        requires
            self.wf(),
            in_bounds(ints(indices@), self.shape_s()),
        ensures
            v == self.elem(ints(indices@)),
    {
        let off = self.offset_of(indices);
        self.source.data[off]
    }

    /// The viewed elements in column-major order.
    pub fn to_vec(&self) -> (out: Vec<T>)
        requires
            self.wf(),
        ensures
            out@ == self.values(),
    {
        gather(&self.source.data, self.offset, self.dims.shape(), self.dims.strides())
    }

    /// Slice this view. Each axis takes an index (collapsing it) or a range
    /// (keeping it); when every axis collapses the result is a single
    /// element view of shape `[1]`. Shares this view's parent; no element is
    /// copied.
    pub fn slice(&self, sels: &[AxisSel]) -> (v: NdArrayV<T>)
        requires
            self.wf(),
            sel_valid(sels@, self.shape_s()),
            self.offset + sel_offset(sels@, self.strides_s()) <= usize::MAX,
        ensures
            v.wf(),
            v.source.same(&self.source),
            v.offset == self.offset + sel_offset(sels@, self.strides_s()),
            v.shape_s() == window_shape(sels@),
            v.strides_s() == window_strides(sels@, self.strides_s()),
            forall|j: Seq<int>|
                in_bounds(j, v.shape_s()) ==> #[trigger] v.elem(j) == self.elem(window_source(sels@, j)),
            forall|j: Seq<int>|
                in_bounds(j, v.shape_s()) ==> in_bounds(#[trigger] window_source(sels@, j), self.shape_s()),
    {
        proof {
            lemma_selection_offset_nonneg(sels@, self.strides_s());
            lemma_window_layout(
                self.source.data@.len() as int,
                self.offset as int,
                sels@,
                self.shape_s(),
                self.strides_s(),
            );
        }
        let (off, shape, strides) = resolve_selection(sels, self.dims.shape(), self.dims.strides());
        let w = NdArrayV {
            source: share(&self.source),
            offset: self.offset + off,
            dims: NdDims { shape, strides },
        };
        proof {
            assert(w.source.data@ == self.source.data@);
            assert(w.shape_s() == window_shape(sels@));
            assert(w.strides_s() == window_strides(sels@, self.strides_s()));
            assert forall|j: Seq<int>| in_bounds(j, w.shape_s()) implies #[trigger] w.elem(j) == self.elem(
                window_source(sels@, j),
            ) by {
                lemma_window_elem(sels@, self.shape_s(), self.strides_s(), j);
                assert(w.offset + dot(j, w.strides_s()) == self.offset + dot(window_source(sels@, j), self.strides_s()));
            }
            assert forall|j: Seq<int>| in_bounds(j, w.shape_s()) implies in_bounds(#[trigger] window_source(sels@, j), self.shape_s()) by {
                lemma_window_elem(sels@, self.shape_s(), self.strides_s(), j);
            }
        }
        w
    }

    /// View of one axis-0 observation: an (N-1)-dimensional view.
    /// Requires rank 2 or higher.
    pub fn obs(&self, idx: usize) -> (v: NdArrayV<T>)
        requires
            self.wf(),
            self.dims.shape@.len() >= 2,
            idx < self.dims.shape@[0],
            self.offset + idx * self.dims.strides@[0] <= usize::MAX,
        ensures
            v.wf(),
            v.source.same(&self.source),
            v.offset == self.offset + idx * self.dims.strides@[0],
            v.dims.shape@ == self.dims.shape@.drop_first(),
            v.dims.strides@ == self.dims.strides@.drop_first(),
            forall|j: Seq<int>|
                in_bounds(j, v.shape_s()) ==> #[trigger] v.elem(j) == self.elem(seq![idx as int] + j),
    {
        let shape = self.dims.shape();
        let n = shape.len();
        let mut sels: Vec<AxisSel> = Vec::new();
        sels.push(AxisSel::Index(idx));
        let mut d: usize = 1;
        while d < n
            invariant
                shape@ == self.dims.shape@,
                n == shape@.len(),
                1 <= d <= n,
                sels@.len() == d,
                sels@[0] == AxisSel::Index(idx),
                forall|e: int| 1 <= e < d ==> #[trigger] sels@[e] == AxisSel::Range(0, shape@[e]),
            decreases n - d,
        {
            sels.push(AxisSel::Range(0, shape[d]));
            d = d + 1;
        }
        let ghost s = self.shape_s();
        let ghost st = self.strides_s();
        proof {
            lemma_obs_sels(sels@, idx, s, st);
        }
        let v = self.slice(sels.as_slice());
        proof {
            assert(ints(v.dims.shape@) == ints(self.dims.shape@).drop_first());
            assert forall|i: int| 0 <= i < v.dims.shape@.len() implies v.dims.shape@[i] == self.dims.shape@.drop_first()[i] by {
                assert(ints(v.dims.shape@)[i] == ints(self.dims.shape@).drop_first()[i]);
            }
            assert(v.dims.shape@ =~= self.dims.shape@.drop_first());
            assert(ints(v.dims.strides@) == ints(self.dims.strides@).drop_first());
            assert forall|i: int| 0 <= i < v.dims.strides@.len() implies v.dims.strides@[i] == self.dims.strides@.drop_first()[i] by {
                assert(ints(v.dims.strides@)[i] == ints(self.dims.strides@).drop_first()[i]);
            }
            assert(v.dims.strides@ =~= self.dims.strides@.drop_first());
        }
        v
    }

    /// View with the axis order reversed. Shares this view's parent; no
    /// element is copied.
    pub fn transpose(&self) -> (v: NdArrayV<T>)
        requires
            self.wf(),
            fits(self.shape_s().reverse()),
        ensures
            v.wf(),
            v.source.same(&self.source),
            v.offset == self.offset,
            v.dims.shape@ == self.dims.shape@.reverse(),
            v.dims.strides@ == self.dims.strides@.reverse(),
            forall|j: Seq<int>|
                in_bounds(j, self.shape_s()) ==> #[trigger] v.elem(j.reverse()) == self.elem(j),
    {
        let shape = reversed(self.dims.shape());
        let strides = reversed(self.dims.strides());
        proof {
            assert(ints(shape@) =~= self.shape_s().reverse());
            assert(ints(strides@) =~= self.strides_s().reverse());
            lemma_layout_reverse(self.source.data@.len() as int, self.offset as int, self.shape_s(), self.strides_s());
        }
        let v = NdArrayV {
            source: share(&self.source),
            offset: self.offset,
            dims: NdDims { shape, strides },
        };
        proof {
            assert forall|j: Seq<int>| in_bounds(j, self.shape_s()) implies #[trigger] v.elem(j.reverse())
                == self.elem(j) by {
                lemma_dot_reverse(j, self.strides_s());
            }
        }
        v
    }

    /// Materialise this view as an owned compact array carrying the parent's
    /// name.
    pub fn to_ndarray(&self) -> (out: NdArray<T>)
        requires
            self.wf(),
        ensures
            out.wf(),
            out.compact(),
            out.dims.shape@ == self.dims.shape@,
            out.values() == self.values(),
            out.name == self.source.name,
    {
        let flat = self.to_vec();
        proof {
            lemma_prod_nonneg(self.shape_s());
        }
        let mut out = NdArray::from_slice(flat.as_slice(), self.dims.shape());
        out.name = crate::ndarray::clone_name(&self.source.name);
        out
    }
}

/// Reversed copy of a slice.
pub fn reversed(s: &[usize]) -> (out: Vec<usize>)
    ensures
        out@ == s@.reverse(),
{
    let mut out: Vec<usize> = Vec::new();
    let n = s.len();
    let mut i: usize = 0;
    while i < n
        invariant
            n == s@.len(),
            i <= n,
            out@.len() == i,
            forall|k: int| 0 <= k < i ==> #[trigger] out@[k] == s@[n - 1 - k],
        decreases n - i,
    {
        out.push(s[n - 1 - i]);
        i = i + 1;
    }
    assert(out@ =~= s@.reverse());
    out
}

/// The selection an observation access resolves to: its index on axis 0
/// and the full range on every other axis.
proof fn lemma_obs_sels(sels: Seq<AxisSel>, idx: usize, s: Seq<int>, st: Seq<int>)
    requires
        sels.len() == s.len(),
        s.len() >= 2,
        st.len() == s.len(),
        nonneg(s),
        idx < s[0],
        sels[0] == AxisSel::Index(idx),
        forall|e: int| 1 <= e < sels.len() ==> #[trigger] sels[e] == AxisSel::Range(0, s[e] as usize),
        forall|e: int| 0 <= e < s.len() ==> s[e] <= usize::MAX,
    ensures
        sel_valid(sels, s),
        sel_offset(sels, st) == idx * st[0],
        window_shape(sels) == s.drop_first(),
        window_strides(sels, st) == st.drop_first(),
        forall|j: Seq<int>| #[trigger] window_source(sels, j) == seq![idx as int] + j || !in_bounds(j, s.drop_first()),
{
    assert forall|d: int| 0 <= d < sels.len() implies match #[trigger] sels[d] {
        AxisSel::Index(i) => i < s[d],
        AxisSel::Range(a, b) => a <= b && b <= s[d],
    } by {
        if d >= 1 {
            assert(sels[d] == AxisSel::Range(0, s[d] as usize));
        }
    }
    let rest = sels.drop_first();
    assert forall|e: int| 0 <= e < rest.len() implies #[trigger] rest[e] == AxisSel::Range(0, s.drop_first()[e] as usize) by {
        assert(rest[e] == sels[e + 1]);
    }
    crate::selection::lemma_full_ranges(rest, s.drop_first(), st.drop_first());
    assert(crate::selection::kept_shape(sels) == crate::selection::kept_shape(rest));
    assert forall|j: Seq<int>| #[trigger] window_source(sels, j) == seq![idx as int] + j || !in_bounds(j, s.drop_first()) by {
        if in_bounds(j, s.drop_first()) {
            crate::selection::lemma_full_ranges_expand(rest, s.drop_first(), j);
        }
    }
}


impl<T: Copy> NdArrayV<T> {
    /// Column `col` of a 2D view: `shape[0]` contiguous elements starting
    /// at `offset + col * strides[1]`.
    pub fn col(&self, col: usize) -> (c: &[T])
        requires
            self.wf(),
            self.dims.shape@.len() == 2,
            col < self.dims.shape@[1],
            self.offset + col * self.dims.strides@[1] + self.dims.shape@[0] <= self.source.data@.len(),
        ensures
            c@ == self.source.data@.subrange(
                self.offset + col * self.dims.strides@[1],
                self.offset + col * self.dims.strides@[1] + self.dims.shape@[0],
            ),
    {
        let _n = self.source.data.len();
        let start = self.offset + col * self.dims.strides[1];
        vstd::slice::slice_subrange(self.source.data.as_slice(), start, start + self.dims.shape[0])
    }

    /// Every column of a 2D view, in order.
    pub fn columns(&self) -> (cols: Vec<&[T]>)
        requires
            self.wf(),
            self.dims.shape@.len() == 2,
            self.dims.shape@[1] == 0 || self.offset + (self.dims.shape@[1] - 1) * self.dims.strides@[1]
                + self.dims.shape@[0] <= self.source.data@.len(),
        ensures
            cols@.len() == self.dims.shape@[1],
            forall|c: int|
                0 <= c < cols@.len() ==> #[trigger] cols@[c]@ == self.source.data@.subrange(
                    self.offset + c * self.dims.strides@[1],
                    self.offset + c * self.dims.strides@[1] + self.dims.shape@[0],
                ),
    {
        let n_cols = self.dims.shape[1];
        let mut cols: Vec<&[T]> = Vec::new();
        let mut c: usize = 0;
        while c < n_cols
            invariant
                self.wf(),
                self.dims.shape@.len() == 2,
                self.dims.shape@[1] == 0 || self.offset + (self.dims.shape@[1] - 1) * self.dims.strides@[1]
                    + self.dims.shape@[0] <= self.source.data@.len(),
                n_cols == self.dims.shape@[1],
                c <= n_cols,
                cols@.len() == c,
                forall|k: int|
                    0 <= k < c ==> #[trigger] cols@[k]@ == self.source.data@.subrange(
                        self.offset + k * self.dims.strides@[1],
                        self.offset + k * self.dims.strides@[1] + self.dims.shape@[0],
                    ),
            decreases n_cols - c,
        {
            proof {
                assert(c * self.dims.strides@[1] <= (self.dims.shape@[1] - 1) * self.dims.strides@[1])
                    by (nonlinear_arith)
                    requires
                        c <= self.dims.shape@[1] - 1,
                        self.dims.strides@[1] >= 0,
                ;
            }
            cols.push(self.col(c));
            c = c + 1;
        }
        cols
    }

    /// Row count as `i32` for BLAS. 2D only.
    pub fn m(&self) -> (m: i32)
        requires
            self.wf(),
            self.dims.shape@.len() == 2,
        ensures
            m == self.dims.shape@[0] as i32,
    {
        self.dims.shape[0] as i32
    }

    /// Column count as `i32` for BLAS. 2D only.
    pub fn n(&self) -> (n: i32)
        requires
            self.wf(),
            self.dims.shape@.len() == 2,
        ensures
            n == self.dims.shape@[1] as i32,
    {
        self.dims.shape[1] as i32
    }

    /// Leading dimension for BLAS: the column stride. 2D only.
    pub fn lda(&self) -> (lda: i32)
        requires
            self.wf(),
            self.dims.shape@.len() == 2,
        ensures
            lda == self.dims.strides@[1] as i32,
    {
        self.dims.strides[1] as i32
    }

    /// Apply a function to every viewed element, materialising a compact
    /// array with this view's shape and the parent's name.
    pub fn apply<F: Fn(T) -> T>(&self, f: F) -> (out: NdArray<T>)
        requires
            self.wf(),
            forall|x: T| #[trigger] f.requires((x,)),
        ensures
            out.wf(),
            out.compact(),
            out.dims.shape@ == self.dims.shape@,
            out.name == self.source.name,
            out.values().len() == self.values().len(),
            forall|k: int| 0 <= k < self.values().len() ==> #[trigger] f.ensures((self.values()[k],), out.values()[k]),
    {
        let flat = self.to_vec();
        let mapped = crate::ndarray::map_vec(&flat, &f);
        proof {
            lemma_prod_nonneg(self.shape_s());
        }
        let mut out = NdArray::from_slice(mapped.as_slice(), self.dims.shape());
        out.name = crate::ndarray::clone_name(&self.source.name);
        out
    }
}

} // verus!
