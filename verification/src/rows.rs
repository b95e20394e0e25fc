//! # Row selection
//!
//! Selecting axis-0 observations (rows) by a range or an explicit index
//! list. A range selects a contiguous window: on a view it shares the
//! view's parent, on a borrowed array it views one copy of that array. An
//! index list gathers the chosen rows, in order, into a new owned
//! container wrapped in a full view.

use std::ops::Range;

use vstd::prelude::*;

use crate::layout::{
    flatten, fits, in_bounds, ints, lemma_flatten_roundtrip, lemma_logical_at, lemma_prod_nonneg, nonneg, prod,
};
use crate::matrix::{fits_padded, lemma_cell_div_mod, Matrix};
use crate::matrix_view::MatrixV;
use crate::ndarray::NdArray;
use crate::ndarray_view::NdArrayV;
use crate::selection::{
    expand, kept_shape, lemma_full_ranges, lemma_full_ranges_expand, sel_offset, sel_start, sel_valid,
    window_shape, window_source, window_strides, AxisSel,
};
use crate::xarray::{full_ranges, full_sels};

verus! {

/// The picks are `p[0], p[0] + 1, ...`.
pub open spec fn consecutive(p: Seq<int>) -> bool {
    forall|i: int| 0 <= i < p.len() ==> #[trigger] p[i] == p[0] + i
}

/// Every pick is a row of an axis with `n` rows.
pub open spec fn picks_within(p: Seq<int>, n: int) -> bool {
    forall|i: int| 0 <= i < p.len() ==> 0 <= #[trigger] p[i] < n
}

/// First row of a contiguous selection; `0` when it selects nothing.
pub open spec fn first_pick(p: Seq<int>) -> int {
    if p.len() > 0 {
        p[0]
    } else {
        0
    }
}

/// Rows chosen by a selection: a range or an index list.
pub trait DataSelector {
    /// The selected rows, in order.
    spec fn picks(&self) -> Seq<int>;

    /// The selection is a range, so its picks are consecutive.
    spec fn is_range(&self) -> bool;

    /// The selected rows of an axis with `n` rows.
    fn resolve_indices(&self, n: usize) -> (v: Vec<usize>)
        requires
            picks_within(self.picks(), n as int),
        ensures
            ints(v@) == self.picks(),
    ;

    /// `true` for a range selection.
    fn is_contiguous(&self) -> (b: bool)
        ensures
            b == self.is_range(),
            b ==> consecutive(self.picks()),
    ;
}

impl DataSelector for Range<usize> {
    open spec fn picks(&self) -> Seq<int> {
        if self.start <= self.end {
            Seq::new((self.end - self.start) as nat, |i: int| self.start + i)
        } else {
            Seq::empty()
        }
    }

    open spec fn is_range(&self) -> bool {
        true
    }

    fn resolve_indices(&self, n: usize) -> (v: Vec<usize>) {
        let mut v: Vec<usize> = Vec::new();
        if self.start > self.end {
            assert(ints(v@) =~= self.picks());
            return v;
        }
        let mut i: usize = self.start;
        while i < self.end
            invariant
                self.start <= i <= self.end,
                v@.len() == i - self.start,
                forall|k: int| 0 <= k < v@.len() ==> #[trigger] v@[k] == self.start + k,
            decreases self.end - i,
        {
            v.push(i);
            i = i + 1;
        }
        assert(ints(v@) =~= self.picks());
        v
    }

    fn is_contiguous(&self) -> (b: bool) {
        true
    }
}

impl<'a> DataSelector for &'a [usize] {
    open spec fn picks(&self) -> Seq<int> {
        ints(self@)
    }

    open spec fn is_range(&self) -> bool {
        false
    }

    fn resolve_indices(&self, n: usize) -> (v: Vec<usize>) {
        vstd::slice::slice_to_vec(*self)
    }

    fn is_contiguous(&self) -> (b: bool) {
        false
    }
}

impl<T: Copy> Matrix<T> {
    /// Number of rows a row selection chooses from.
    pub fn get_row_count(&self) -> (n: usize)
        ensures
            n == self.n_rows,
    {
        self.n_rows
    }

    /// Row selection. A range selects a window over a copy of this matrix;
    /// an index list gathers the chosen rows into a new matrix and returns
    /// a view over all of it.
    pub fn r<S: DataSelector>(&self, selection: S) -> (v: MatrixV<T>)
        where
            T: Default,
        requires
            self.wf(),
            picks_within(selection.picks(), self.n_rows as int),
            fits_padded(selection.picks().len() as int, self.n_cols as int),
        ensures
            v.wf(),
            v.len == selection.picks().len(),
            v.matrix.n_cols == self.n_cols,
            v.matrix.name == self.name,
            forall|r: int, c: int|
                0 <= r < v.len && 0 <= c < self.n_cols ==> #[trigger] v.at(r, c) == self.at(
                    selection.picks()[r],
                    c,
                ),
            selection.is_range() ==> v.matrix.same(self) && v.offset == first_pick(selection.picks()),
            !selection.is_range() ==> v.offset == 0 && v.len == v.matrix.n_rows,
    {
        let indices = selection.resolve_indices(self.n_rows);
        let ghost p = selection.picks();
        assert(indices@.len() == p.len());
        if selection.is_contiguous() {
            let start = if indices.len() > 0 { indices[0] } else { 0 };
            proof {
                if p.len() > 0 {
                    assert(ints(indices@)[0] == indices@[0]);
                    assert(p[p.len() - 1] == p[0] + p.len() - 1);
                }
            }
            let v = MatrixV::from_matrix(self.duplicate(), start, indices.len());
            assert forall|r: int, c: int| 0 <= r < v.len && 0 <= c < self.n_cols implies #[trigger] v.at(r, c)
                == self.at(p[r], c) by {
                assert(p[r] == p[0] + r);
            }
            return v;
        }
        proof {
            assert forall|i: int| 0 <= i < indices@.len() implies #[trigger] indices@[i] < self.n_rows by {
                assert(ints(indices@)[i] == indices@[i]);
            }
        }
        let m = self.extract_rows(indices.as_slice());
        let n = m.n_rows;
        let v = MatrixV::from_matrix(m, 0, n);
        assert forall|r: int, c: int| 0 <= r < v.len && 0 <= c < self.n_cols implies #[trigger] v.at(r, c)
            == self.at(p[r], c) by {
            assert(ints(indices@)[r] == indices@[r]);
        }
        v
    }
}

impl<T: Copy> MatrixV<T> {
    /// Number of rows a row selection chooses from.
    pub fn get_row_count(&self) -> (n: usize)
        ensures
            n == self.len,
    {
        self.len
    }

    /// Row selection relative to this window. A range narrows the window
    /// over the same backing matrix; an index list gathers the chosen rows
    /// into a new matrix and returns a view over all of it.
    pub fn r<S: DataSelector>(&self, selection: S) -> (v: MatrixV<T>)
        where
            T: Default,
        requires
            self.wf(),
            picks_within(selection.picks(), self.len as int),
            fits_padded(selection.picks().len() as int, self.matrix.n_cols as int),
        ensures
            v.wf(),
            v.len == selection.picks().len(),
            v.matrix.n_cols == self.matrix.n_cols,
            v.matrix.name == self.matrix.name,
            forall|r: int, c: int|
                0 <= r < v.len && 0 <= c < self.matrix.n_cols ==> #[trigger] v.at(r, c) == self.at(
                    selection.picks()[r],
                    c,
                ),
            selection.is_range() ==> *v.matrix == *self.matrix && v.offset == self.offset + first_pick(
                selection.picks(),
            ),
            !selection.is_range() ==> v.offset == 0 && v.len == v.matrix.n_rows,
    {
        let indices = selection.resolve_indices(self.len);
        let ghost p = selection.picks();
        assert(indices@.len() == p.len());
        if selection.is_contiguous() {
            let start = if indices.len() > 0 { indices[0] } else { 0 };
            proof {
                if p.len() > 0 {
                    assert(ints(indices@)[0] == indices@[0]);
                    assert(p[p.len() - 1] == p[0] + p.len() - 1);
                }
            }
            let v = self.from_self(start, indices.len());
            assert forall|r: int, c: int| 0 <= r < v.len && 0 <= c < self.matrix.n_cols implies #[trigger] v.at(
                r,
                c,
            ) == self.at(p[r], c) by {
                assert(p[r] == p[0] + r);
            }
            return v;
        }
        proof {
            assert forall|i: int| 0 <= i < indices@.len() implies #[trigger] indices@[i] < self.len by {
                assert(ints(indices@)[i] == indices@[i]);
            }
        }
        let m = self.gather_rows(indices.as_slice());
        let n = m.n_rows;
        let v = MatrixV::from_matrix(m, 0, n);
        assert forall|r: int, c: int| 0 <= r < v.len && 0 <= c < self.matrix.n_cols implies #[trigger] v.at(r, c)
            == self.at(p[r], c) by {
            assert(ints(indices@)[r] == indices@[r]);
        }
        v
    }
}


/// The selection for rows `[start, start + k)` of axis 0 and everything on
/// the other axes.
proof fn lemma_row_window(sels: Seq<AxisSel>, s: Seq<int>, st: Seq<int>, start: int, k: int)
    requires
        sels.len() == s.len(),
        s.len() >= 1,
        st.len() == s.len(),
        nonneg(s),
        0 <= start,
        0 <= k,
        start + k <= s[0],
        sels[0] == AxisSel::Range(start as usize, (start + k) as usize),
        forall|e: int| 1 <= e < sels.len() ==> #[trigger] sels[e] == AxisSel::Range(0, s[e] as usize),
        forall|e: int| 0 <= e < s.len() ==> s[e] <= usize::MAX,
    ensures
        sel_valid(sels, s),
        sel_offset(sels, st) == start * st[0] + sel_offset(sels.drop_first(), st.drop_first()),
        sel_offset(sels.drop_first(), st.drop_first()) == 0,
        window_shape(sels) == s.update(0, k),
        window_strides(sels, st) == st,
        forall|j: Seq<int>|
            in_bounds(j, s.update(0, k)) ==> #[trigger] window_source(sels, j) == j.update(0, start + j[0]),
{
    assert forall|d: int| 0 <= d < sels.len() implies match #[trigger] sels[d] {
        AxisSel::Index(i) => i < s[d],
        AxisSel::Range(a, b) => a <= b && b <= s[d],
    } by {
        if d >= 1 {
            assert(sels[d] == AxisSel::Range(0, s[d] as usize));
        }
    }
    let rest = sels.drop_first();
    assert forall|e: int| 0 <= e < rest.len() implies #[trigger] rest[e] == AxisSel::Range(0, s.drop_first()[e] as usize) by {
        assert(rest[e] == sels[e + 1]);
    }
    assert(nonneg(s.drop_first())) by {
        assert forall|i: int| 0 <= i < s.drop_first().len() implies #[trigger] s.drop_first()[i] >= 0 by {
            assert(s.drop_first()[i] == s[i + 1]);
        }
    }
    lemma_full_ranges(rest, s.drop_first(), st.drop_first());
    assert(sel_start(sels[0]) == start);
    assert(kept_shape(sels) == seq![k] + kept_shape(rest));
    assert(kept_shape(sels) =~= s.update(0, k));
    assert(window_strides(sels, st) =~= st);
    assert forall|j: Seq<int>| in_bounds(j, s.update(0, k)) implies #[trigger] window_source(sels, j) == j.update(
        0,
        start + j[0],
    ) by {
        assert(in_bounds(j.drop_first(), s.drop_first())) by {
            assert forall|d: int| 0 <= d < j.drop_first().len() implies 0 <= #[trigger] j.drop_first()[d]
                < s.drop_first()[d] by {
                assert(j.drop_first()[d] == j[d + 1]);
                assert(s.update(0, k)[d + 1] == s[d + 1]);
            }
        }
        lemma_full_ranges_expand(rest, s.drop_first(), j.drop_first());
        assert(expand(sels, j) == seq![start + j[0]] + expand(rest, j.drop_first()));
        assert(window_source(sels, j) =~= j.update(0, start + j[0]));
    }
}

/// Dropping the first dimension keeps a shape within `usize` when that
/// dimension is at least one.
pub proof fn lemma_fits_rest(s: Seq<int>)
    requires
        s.len() >= 1,
        s[0] >= 1,
        fits(s),
    ensures
        fits(s.drop_first()),
        prod(s) == s[0] * prod(s.drop_first()),
{
    let rest = s.drop_first();
    assert(nonneg(rest)) by {
        assert forall|i: int| 0 <= i < rest.len() implies #[trigger] rest[i] >= 0 by {
            assert(rest[i] == s[i + 1]);
        }
    }
    assert forall|d: int| 0 <= d <= rest.len() implies #[trigger] prod(rest.take(d)) <= usize::MAX by {
        let t = s.take(d + 1);
        assert(t.drop_first() =~= rest.take(d));
        assert(prod(t) == t[0] * prod(t.drop_first()));
        assert(prod(s.take(d + 1)) <= usize::MAX);
        lemma_prod_nonneg(rest.take(d));
        assert(prod(rest.take(d)) <= s[0] * prod(rest.take(d))) by (nonlinear_arith)
            requires
                s[0] >= 1,
                prod(rest.take(d)) >= 0,
        ;
    }
}

/// Compact column-major buffer of the rows `picks` of a layout whose
/// logical elements are `vals`: position `p` holds row `picks[p % k]` of
/// the `p / k`-th trailing position.
pub open spec fn gathered<T>(vals: Seq<T>, picks: Seq<int>, n0: int, total: int) -> Seq<T> {
    Seq::new(total as nat, |p: int| vals[picks[p % (picks.len() as int)] + n0 * (p / (picks.len() as int))])
}

impl<T: Copy> NdArrayV<T> {
    /// Number of axis-0 observations.
    pub fn get_row_count(&self) -> (n: usize)
        requires
            self.dims.shape@.len() >= 1,
        ensures
            n == self.dims.shape@[0],
    {
        self.dims.shape[0]
    }

    /// Axis-0 observation selection. A range narrows the view over the same
    /// parent without copying; an index list gathers the chosen
    /// observations, in order, into a compact owned array carrying the
    /// parent's name and returns a full view over it.
    pub fn r<S: DataSelector>(&self, selection: S) -> (v: NdArrayV<T>)
        requires
            self.wf(),
            self.dims.shape@.len() >= 1,
            picks_within(selection.picks(), self.dims.shape@[0] as int),
            fits(self.shape_s().update(0, selection.picks().len() as int)),
            selection.is_range() ==> self.offset + first_pick(selection.picks()) * self.strides_s()[0]
                <= usize::MAX,
        ensures
            v.wf(),
            v.shape_s() == self.shape_s().update(0, selection.picks().len() as int),
            forall|j: Seq<int>|
                in_bounds(j, v.shape_s()) ==> #[trigger] v.elem(j) == self.elem(
                    j.update(0, selection.picks()[j[0]]),
                ),
            selection.is_range() ==> v.source.same(&self.source) && v.strides_s() == self.strides_s() && v.offset
                == self.offset + first_pick(selection.picks()) * self.strides_s()[0],
            !selection.is_range() ==> v.offset == 0 && v.source.compact() && v.source.name == self.source.name,
    {
        let ghost s = self.shape_s();
        let ghost st = self.strides_s();
        let ghost p = selection.picks();
        let n0 = self.dims.shape[0];
        let indices = selection.resolve_indices(n0);
        let k = indices.len();
        assert(k == p.len());
        assert forall|i: int| 0 <= i < k implies #[trigger] indices@[i] < n0 && indices@[i] == p[i] by {
            assert(ints(indices@)[i] == indices@[i]);
        }
        if selection.is_contiguous() {
            let start = if k > 0 { indices[0] } else { 0 };
            proof {
                if k > 0 {
                    assert(p[k - 1] == p[0] + k - 1);
                }
            }
            let mut sels = full_sels(self.dims.shape());
            sels.set(0, AxisSel::Range(start, start + k));
            proof {
                assert forall|e: int| 1 <= e < sels@.len() implies #[trigger] sels@[e] == AxisSel::Range(
                    0,
                    s[e] as usize,
                ) by {
                    assert(sels@[e] == full_ranges(self.dims.shape@)[e]);
                }
                assert forall|e: int| 0 <= e < s.len() implies s[e] <= usize::MAX by {
                    assert(s[e] == self.dims.shape@[e]);
                }
                lemma_row_window(sels@, s, st, start as int, k as int);
            }
            let v = self.slice(sels.as_slice());
            proof {
                assert forall|j: Seq<int>| in_bounds(j, v.shape_s()) implies #[trigger] v.elem(j) == self.elem(
                    j.update(0, p[j[0]]),
                ) by {
                    assert(window_source(sels@, j) == j.update(0, start + j[0]));
                    assert(p[j[0]] == p[0] + j[0]);
                }
            }
            return v;
        }
        let vals = self.to_vec();
        let mut out_shape: Vec<usize> = vstd::slice::slice_to_vec(self.dims.shape());
        out_shape.set(0, k);
        proof {
            assert(ints(out_shape@) =~= s.update(0, k as int));
        }
        if k == 0 {
            let empty: Vec<T> = Vec::new();
            proof {
                let o = s.update(0, 0);
                assert(prod(o) == o[0] * prod(o.drop_first()));
                assert(prod(o) == 0);
            }
            let mut out = NdArray::from_compact_vec(empty, out_shape.as_slice());
            out.name = crate::ndarray::clone_name(&self.source.name);
            let v = NdArrayV::from_ndarray(out);
            proof {
                assert forall|j: Seq<int>| in_bounds(j, v.shape_s()) implies #[trigger] v.elem(j) == self.elem(
                    j.update(0, p[j[0]]),
                ) by {
                    assert(0 <= j[0] < v.shape_s()[0]);
                }
            }
            return v;
        }
        let ghost o = s.update(0, k as int);
        proof {
            lemma_fits_rest(o);
            assert(o.drop_first() =~= s.drop_first());
            lemma_prod_nonneg(s.drop_first());
            assert(prod(s) == s[0] * prod(s.drop_first()));
        }
        let rest = vstd::slice::slice_subrange(self.dims.shape(), 1, self.dims.shape.len());
        proof {
            assert(ints(rest@) =~= s.drop_first());
        }
        let r = crate::layout::shape_len(rest);
        proof {
            assert(o.take(o.len() as int) =~= o);
            assert(prod(o) <= usize::MAX);
        }
        let total = k * r;
        let _nv = vals.len();
        let mut buf: Vec<T> = Vec::new();
        let mut q: usize = 0;
        while q < total
            invariant
                vals@ == self.values(),
                vals@.len() == prod(s),
                vals@.len() <= usize::MAX,
                prod(s) == n0 * r,
                n0 == s[0],
                k == indices@.len(),
                k > 0,
                total == k * r,
                forall|i: int| 0 <= i < k ==> #[trigger] indices@[i] < n0 && indices@[i] == p[i],
                p.len() == k,
                q <= total,
                buf@.len() == q,
                forall|i: int| 0 <= i < q ==> #[trigger] buf@[i] == gathered(vals@, p, n0 as int, total as int)[i],
            decreases total - q,
        {
            let i = q % k;
            let c = q / k;
            proof {
                vstd::arithmetic::div_mod::lemma_fundamental_div_mod(q as int, k as int);
                assert(c < r) by (nonlinear_arith)
                    requires
                        q < k * r,
                        q == k * c + i,
                        0 <= i,
                        0 < k,
                ;
                assert(n0 * c + indices@[i as int] < n0 * r) by (nonlinear_arith)
                    requires
                        c < r,
                        indices@[i as int] < n0,
                ;
                assert(n0 * c == c * n0) by (nonlinear_arith);
            }
            buf.push(vals[indices[i] + n0 * c]);
            q = q + 1;
        }
        proof {
            assert(total == prod(o)) by (nonlinear_arith)
                requires
                    total == k * r,
                    prod(o) == k * r,
            ;
        }
        let mut out = NdArray::from_compact_vec(buf, out_shape.as_slice());
        out.name = crate::ndarray::clone_name(&self.source.name);
        let v = NdArrayV::from_ndarray(out);
        proof {
            assert forall|j: Seq<int>| in_bounds(j, v.shape_s()) implies #[trigger] v.elem(j) == self.elem(
                j.update(0, p[j[0]]),
            ) by {
                let jr = j.drop_first();
                let j2 = j.update(0, p[j[0]]);
                assert(in_bounds(jr, s.drop_first())) by {
                    assert forall|d: int| 0 <= d < jr.len() implies 0 <= #[trigger] jr[d] < s.drop_first()[d] by {
                        assert(jr[d] == j[d + 1]);
                        assert(o[d + 1] == s[d + 1]);
                    }
                }
                lemma_flatten_roundtrip(jr, s.drop_first());
                let f = flatten(jr, s.drop_first());
                assert(in_bounds(j2, s)) by {
                    assert forall|d: int| 0 <= d < j2.len() implies 0 <= #[trigger] j2[d] < s[d] by {
                        if d == 0 {
                            assert(indices@[j[0]] == p[j[0]]);
                        } else {
                            assert(j2[d] == j[d]);
                        }
                    }
                }
                assert(j2.drop_first() =~= jr);
                lemma_logical_at(self.source.data@, self.offset as int, s, st, j2);
                assert(flatten(j2, s) == p[j[0]] + s[0] * f);
                crate::ndarray::law_values_match_get(*v.source, j);
                assert(flatten(j, o) == j[0] + k * f);
                assert(f < r);
                assert(j[0] + k * f < total) by (nonlinear_arith)
                    requires
                        0 <= j[0] < k,
                        0 <= f < r,
                        total == k * r,
                ;
                assert(f * k == k * f) by (nonlinear_arith);
                lemma_cell_div_mod(j[0], f, k as int);
                assert(v.elem(j) == v.source.elem(j));
                assert(v.source.values()[j[0] + k * f] == buf@[j[0] + k * f]);
                assert(buf@[j[0] + k * f] == vals@[p[j[0]] + n0 * f]);
            }
        }
        v
    }
}

impl<T: Copy> NdArray<T> {
    /// Number of axis-0 observations.
    pub fn get_row_count(&self) -> (n: usize)
        requires
            self.dims.shape@.len() >= 1,
        ensures
            n == self.dims.shape@[0],
    {
        self.dims.shape[0]
    }

    /// Axis-0 observation selection. A range returns a window view over a
    /// copy of this array; an index list gathers the chosen observations,
    /// in order, into a compact owned array carrying this array's name and
    /// returns a full view over it.
    pub fn r<S: DataSelector>(&self, selection: S) -> (v: NdArrayV<T>)
        requires
            self.wf(),
            self.dims.shape@.len() >= 1,
            picks_within(selection.picks(), self.dims.shape@[0] as int),
            fits(self.shape_s().update(0, selection.picks().len() as int)),
            selection.is_range() ==> first_pick(selection.picks()) * self.strides_s()[0] <= usize::MAX,
        ensures
            v.wf(),
            v.shape_s() == self.shape_s().update(0, selection.picks().len() as int),
            forall|j: Seq<int>|
                in_bounds(j, v.shape_s()) ==> #[trigger] v.elem(j) == self.elem(
                    j.update(0, selection.picks()[j[0]]),
                ),
            selection.is_range() ==> v.source.same(self),
            !selection.is_range() ==> v.offset == 0 && v.source.compact() && v.source.name == self.name,
    {
        let w = self.as_view();
        let v = w.r(selection);
        assert forall|j: Seq<int>| in_bounds(j, v.shape_s()) implies #[trigger] v.elem(j) == self.elem(
            j.update(0, selection.picks()[j[0]]),
        ) by {
            assert(w.elem(j.update(0, selection.picks()[j[0]])) == self.elem(j.update(0, selection.picks()[j[0]])));
        }
        v
    }
}


/// A shape whose leading extent is at least one still fits with that
/// extent set to one.
pub proof fn lemma_fits_one_row(s: Seq<int>)
    requires
        s.len() >= 1,
        s[0] >= 1,
        fits(s),
    ensures
        fits(s.update(0, 1)),
{
    lemma_fits_rest(s);
    let u = s.update(0, 1);
    let rest = s.drop_first();
    assert(nonneg(u)) by {
        assert forall|i: int| 0 <= i < u.len() implies #[trigger] u[i] >= 0 by {}
    }
    assert forall|d: int| 0 <= d <= u.len() implies #[trigger] prod(u.take(d)) <= usize::MAX by {
        if d > 0 {
            let t = u.take(d);
            assert(t.drop_first() =~= rest.take(d - 1));
            assert(prod(t) == t[0] * prod(t.drop_first()));
            assert(prod(rest.take(d - 1)) <= usize::MAX);
        } else {
            assert(u.take(0) =~= Seq::<int>::empty());
        }
    }
}

impl<T: Copy> NdArray<T> {
    /// Observation `idx` as a window of one row: the array's shape with a
    /// leading extent of one.
    pub fn row(&self, idx: usize) -> (v: NdArrayV<T>)
        requires
            self.wf(),
            self.dims.shape@.len() >= 1,
            idx < self.dims.shape@[0],
            idx * self.strides_s()[0] <= usize::MAX,
        ensures
            v.wf(),
            v.shape_s() == self.shape_s().update(0, 1),
            forall|j: Seq<int>|
                in_bounds(j, v.shape_s()) ==> #[trigger] v.elem(j) == self.elem(j.update(0, idx as int)),
    {
        let sel = idx..idx + 1;
        proof {
            lemma_fits_one_row(self.shape_s());
            assert(sel.picks() =~= seq![idx as int]);
            assert(first_pick(sel.picks()) == idx);
        }
        let v = self.r(sel);
        proof {
            assert forall|j: Seq<int>| in_bounds(j, v.shape_s()) implies #[trigger] v.elem(j) == self.elem(
                j.update(0, idx as int),
            ) by {
                assert(j[0] == 0);
                assert(sel.picks()[j[0]] == idx);
            }
        }
        v
    }
}

} // verus!
