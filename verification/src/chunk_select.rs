//! Axis selection over chunked arrays: the leading selection windows the
//! rows across slice boundaries, the trailing selections narrow every
//! slice. On a view no element is copied; on a borrowed chunked array the
//! selection runs over one copy of each batch.

use vstd::prelude::*;

use crate::layout::{dot, in_bounds, ints, lemma_dot_nonneg, nonneg};
use crate::ndarray_view::NdArrayV;
use crate::selection::{
    as_row_range, expand, kept_extent, kept_shape, kept_strides, lemma_expand, lemma_kept_fits,
    lemma_kept_nonneg, lemma_kept_push, lemma_sel_extent_le, lemma_sel_offset_le, lemma_sel_rest,
    sel_valid, window_shape, window_source, window_strides, AxisSel,
};
use crate::super_ndarray::{lemma_locate, locate, SuperNdArray};
use crate::super_ndarray_view::{lemma_view_counts, slice_fits, view_counts, SuperNdArrayV};

verus! {

/// The selections with the leading one read as a range of rows.
pub open spec fn row_window_sels(sels: Seq<AxisSel>) -> Seq<AxisSel> {
    sels.update(0, as_row_range(sels[0]))
}

/// Reading the leading selection as a range of rows keeps the selections
/// valid.
proof fn lemma_row_window_valid(sels: Seq<AxisSel>, shape: Seq<int>)
    requires
        sel_valid(sels, shape),
        sels.len() > 0,
        shape[0] <= usize::MAX,
    ensures
        sel_valid(row_window_sels(sels), shape),
        row_window_sels(sels).drop_first() == sels.drop_first(),
{
    let g = row_window_sels(sels);
    assert(match sels[0] {
        AxisSel::Index(i) => i < shape[0],
        AxisSel::Range(a, b) => a <= b && b <= shape[0],
    });
    assert forall|d: int| 0 <= d < g.len() implies match #[trigger] g[d] {
        AxisSel::Index(i) => i < shape[d],
        AxisSel::Range(a, b) => a <= b && b <= shape[d],
    } by {
        if d > 0 {
            assert(g[d] == sels[d]);
        }
    }
    assert(g.drop_first() =~= sels.drop_first());
}

/// A slice's leading extent times its leading stride is part of its span.
proof fn lemma_rows_within<T>(v: &NdArrayV<T>)
    requires
        v.wf(),
        v.shape_s().len() > 0,
    ensures
        v.shape_s()[0] * v.strides_s()[0] <= dot(v.shape_s(), v.strides_s()),
{
    let s = v.shape_s();
    let st = v.strides_s();
    assert(nonneg(s.drop_first())) by {
        assert forall|i: int| 0 <= i < s.drop_first().len() implies #[trigger] s.drop_first()[i] >= 0 by {
            assert(s.drop_first()[i] == s[i + 1]);
        }
    }
    assert(nonneg(st.drop_first())) by {
        assert forall|i: int| 0 <= i < st.drop_first().len() implies #[trigger] st.drop_first()[i] >= 0 by {
            assert(st.drop_first()[i] == st[i + 1]);
        }
    }
    lemma_dot_nonneg(s.drop_first(), st.drop_first());
}

impl<T: Copy> SuperNdArrayV<T> {
    /// Selection on every axis at once. The leading selection narrows the
    /// window of rows; a single index there keeps the axis as a window of
    /// one row. The trailing selections narrow every slice: an index
    /// collapses its axis, a range keeps it. Every slice of the result
    /// shares its parent with a slice of this view; no element is copied.
    pub fn s(&self, sels: &[AxisSel]) -> (out: Self)
        requires
            self.wf(),
            self.rows_addressable(),
            self.addressable(),
            self.ndim == self.inner_shape@.len() + 1,
            sel_valid(sels@, self.full_shape()),
        ensures
            out.wf(),
            out.rows_addressable(),
            out.addressable(),
            out.ndim == kept_shape(row_window_sels(sels@)).len(),
            out.full_shape() == kept_shape(row_window_sels(sels@)),
            forall|j: Seq<int>|
                in_bounds(j, out.full_shape()) ==> #[trigger] out.elem(j) == self.elem(
                    expand(row_window_sels(sels@), j),
                ),
    {
        proof {
            lemma_view_counts(self);
            assert(match sels@[0] {
                AxisSel::Index(i) => i < self.full_shape()[0],
                AxisSel::Range(a, b) => a <= b && b <= self.full_shape()[0],
            });
        }
        let (start, end) = match sels[0] {
            AxisSel::Index(i) => (i, i + 1),
            AxisSel::Range(a, b) => (a, b),
        };
        let window = self.slice(start, end - start);
        let ghost g = row_window_sels(sels@);
        let ghost rest = sels@.drop_first();
        let ghost fs = self.full_shape();
        proof {
            lemma_row_window_valid(sels@, fs);
            assert(g[0] == AxisSel::Range(start, end));
            lemma_sel_rest(g, fs);
            assert(fs.drop_first() == self.inner_s());
            assert(kept_shape(g) == seq![(end - start) as int] + kept_shape(rest));
            lemma_kept_fits(g, fs);
        }
        if self.ndim == 1 {
            proof {
                assert(rest.len() == 0);
                assert(kept_shape(rest) =~= Seq::<int>::empty());
                assert(self.inner_s() =~= Seq::<int>::empty());
                assert(window.full_shape() =~= kept_shape(g));
                assert forall|j: Seq<int>| in_bounds(j, window.full_shape()) implies #[trigger] window.elem(j)
                    == self.elem(expand(g, j)) by {
                    assert(expand(rest, j.drop_first()) =~= Seq::<int>::empty());
                    assert(expand(g, j) =~= j.update(0, j[0] + start));
                }
            }
            return window;
        }
        let mut inner: Vec<usize> = Vec::new();
        let mut d: usize = 1;
        proof {
            assert(kept_shape(sels@.subrange(1, 1)) =~= Seq::<int>::empty());
            assert(ints(inner@) =~= Seq::<int>::empty());
        }
        while d < sels.len()
            invariant
                1 <= d <= sels@.len(),
                sels@.len() == fs.len(),
                sel_valid(sels@, fs),
                ints(inner@) == kept_shape(sels@.subrange(1, d as int)),
            decreases sels@.len() - d,
        {
            proof {
                assert(sels@.subrange(1, d as int + 1) =~= sels@.subrange(1, d as int).push(sels@[d as int]));
                lemma_kept_push(sels@.subrange(1, d as int), sels@[d as int]);
                assert(match sels@[d as int] {
                    AxisSel::Index(i) => i < fs[d as int],
                    AxisSel::Range(a, b) => a <= b && b <= fs[d as int],
                });
            }
            let ghost prev = inner@;
            match sels[d] {
                AxisSel::Index(_) => {},
                AxisSel::Range(a, b) => {
                    inner.push(b - a);
                },
            }
            proof {
                assert(ints(inner@) =~= ints(prev) + kept_extent(sels@[d as int]));
            }
            d = d + 1;
        }
        proof {
            assert(sels@.subrange(1, sels@.len() as int) =~= rest);
        }
        let mut refs: Vec<AxisSel> = vstd::slice::slice_to_vec(sels);
        refs.set(0, AxisSel::Range(0, 0));
        let n = window.slices.len();
        let mut outs: Vec<NdArrayV<T>> = Vec::new();
        let mut b: usize = 0;
        proof {
            lemma_view_counts(&window);
        }
        while b < n
            invariant
                window.wf(),
                window.addressable(),
                window.inner_shape@ == self.inner_shape@,
                n == window.slices@.len(),
                b <= n,
                outs@.len() == b,
                rest == sels@.drop_first(),
                refs@.drop_first() == rest,
                refs@.len() == sels@.len(),
                refs@.len() > 0,
                sel_valid(rest, self.inner_s()),
                ints(inner@) == kept_shape(rest),
                forall|i: int|
                    0 <= i < window.slices@.len() ==> #[trigger] window.slices@[i].shape_s() == seq![
                        window.counts()[i],
                    ] + self.inner_s() && window.slices@[i].wf(),
                forall|i: int| 0 <= i < b ==> #[trigger] slice_fits(outs@[i], inner@),
                forall|i: int| 0 <= i < b ==> (#[trigger] outs@[i]).shape_s()[0] == window.counts()[i],
                forall|i: int|
                    0 <= i < b ==> (#[trigger] outs@[i]).offset + dot(outs@[i].shape_s(), outs@[i].strides_s())
                        <= usize::MAX,
                forall|i: int, j: Seq<int>|
                    0 <= i < b && in_bounds(j, outs@[i].shape_s()) ==> #[trigger] outs@[i].elem(j)
                        == window.slices@[i].elem(seq![j[0]] + expand(rest, j.drop_first())),
            decreases n - b,
        {
            let sv = &window.slices[b];
            let rows = sv.shape()[0];
            refs.set(0, AxisSel::Range(0, rows));
            let ghost r = refs@;
            let ghost s = sv.shape_s();
            let ghost st = sv.strides_s();
            proof {
                assert(r.drop_first() =~= rest);
                assert(s == seq![window.counts()[b as int]] + self.inner_s());
                assert(sel_valid(r, s)) by {
                    assert forall|e: int| 0 <= e < r.len() implies match #[trigger] r[e] {
                        AxisSel::Index(i) => i < s[e],
                        AxisSel::Range(a, c) => a <= c && c <= s[e],
                    } by {
                        if e > 0 {
                            assert(r[e] == rest[e - 1]);
                            assert(s[e] == self.inner_s()[e - 1]);
                            assert(match rest[e - 1] {
                                AxisSel::Index(i) => i < self.inner_s()[e - 1],
                                AxisSel::Range(a, c) => a <= c && c <= self.inner_s()[e - 1],
                            });
                        }
                    }
                }
                crate::layout::lemma_ints_nonneg(sv.dims.strides@);
                lemma_sel_offset_le(r, s, st);
                lemma_sel_extent_le(r, s, st);
                assert(sv.offset + dot(s, st) <= usize::MAX);
                assert(kept_shape(r) == seq![rows as int] + kept_shape(rest));
                assert(window_shape(r) == kept_shape(r));
                assert(window_strides(r, st) == kept_strides(r, st));
            }
            let v = sv.slice(refs.as_slice());
            proof {
                assert(v.shape_s() == seq![rows as int] + ints(inner@));
                assert(v.dims.shape@.drop_first() =~= inner@) by {
                    assert forall|e: int| 0 <= e < inner@.len() implies v.dims.shape@.drop_first()[e] == inner@[e] by {
                        assert(v.shape_s()[e + 1] == ints(inner@)[e]);
                    }
                }
                assert(slice_fits(v, inner@));
                assert forall|j: Seq<int>| in_bounds(j, v.shape_s()) implies #[trigger] v.elem(j)
                    == sv.elem(seq![j[0]] + expand(rest, j.drop_first())) by {
                    assert(window_source(r, j) == expand(r, j));
                    assert(expand(r, j) =~= seq![j[0]] + expand(rest, j.drop_first()));
                }
            }
            outs.push(v);
            b = b + 1;
        }
        let ghost c = window.counts();
        proof {
            assert(view_counts(outs@) =~= c);
        }
        proof {
            crate::selection::lemma_kept_len(rest, self.inner_s());
        }
        let ndim = 1 + inner.len();
        let out = SuperNdArrayV { slices: outs, ndim, inner_shape: inner };
        proof {
            assert(out.counts() == c);
            assert(out.n_obs_s() == end - start);
            assert(out.full_shape() =~= kept_shape(g));
            lemma_kept_nonneg(rest, self.inner_s(), self.inner_s());
            assert forall|i: int| 0 <= i < out.slices@.len() implies (#[trigger] out.slices@[i]).offset
                + out.counts()[i] * out.slices@[i].dims.strides@[0] <= usize::MAX by {
                assert(slice_fits(out.slices@[i], inner@));
                lemma_rows_within(&out.slices@[i]);
            }
            assert forall|j: Seq<int>| in_bounds(j, out.full_shape()) implies #[trigger] out.elem(j) == self.elem(
                expand(g, j),
            ) by {
                let p = locate(c, j[0]);
                lemma_locate(c, j[0]);
                let jd = j.drop_first();
                assert(in_bounds(jd, kept_shape(rest))) by {
                    assert forall|e: int| 0 <= e < jd.len() implies 0 <= #[trigger] jd[e] < kept_shape(rest)[e] by {
                        assert(jd[e] == j[e + 1]);
                        assert(out.full_shape()[e + 1] == kept_shape(rest)[e]);
                    }
                }
                lemma_expand(rest, self.inner_s(), self.inner_s(), jd);
                let local = j.update(0, p.1);
                assert(local.drop_first() =~= jd);
                assert(in_bounds(local, outs@[p.0].shape_s())) by {
                    assert(outs@[p.0].shape_s() == seq![c[p.0]] + kept_shape(rest)) by {
                        assert(slice_fits(outs@[p.0], inner@));
                        assert(outs@[p.0].shape_s() =~= seq![c[p.0]] + ints(inner@));
                    }
                    assert forall|e: int| 0 <= e < local.len() implies 0 <= #[trigger] local[e]
                        < outs@[p.0].shape_s()[e] by {
                        if e > 0 {
                            assert(local[e] == jd[e - 1]);
                        }
                    }
                }
                let k = seq![j[0]] + expand(rest, jd);
                assert(in_bounds(k, window.full_shape())) by {
                    assert forall|e: int| 0 <= e < k.len() implies 0 <= #[trigger] k[e] < window.full_shape()[e] by {
                        if e > 0 {
                            assert(k[e] == expand(rest, jd)[e - 1]);
                        }
                    }
                }
                assert(k.update(0, p.1) =~= seq![local[0]] + expand(rest, local.drop_first()));
                assert(window.elem(k) == self.elem(k.update(0, k[0] + start)));
                assert(k.update(0, k[0] + start) =~= expand(g, j));
            }
        }
        out
    }
}

impl<T: Copy> SuperNdArray<T> {
    /// Selection on every axis at once, over a window of all rows: see
    /// [`SuperNdArrayV::s`]. The window is built over one copy of each
    /// batch (see [`SuperNdArrayV::from_super`]).
    pub fn s(&self, sels: &[AxisSel]) -> (out: SuperNdArrayV<T>)
        requires
            self.wf(),
            self.rows_addressable(),
            self.addressable(),
            self.ndim == self.inner_shape@.len() + 1,
            sel_valid(sels@, self.full_shape()),
        ensures
            out.wf(),
            out.full_shape() == kept_shape(row_window_sels(sels@)),
            out.ndim == kept_shape(row_window_sels(sels@)).len(),
            forall|j: Seq<int>|
                in_bounds(j, out.full_shape()) ==> #[trigger] out.elem(j) == self.elem(
                    expand(row_window_sels(sels@), j),
                ),
    {
        let whole = self.slice(0, self.n_obs());
        proof {
            assert(whole.full_shape() =~= self.full_shape());
        }
        let out = whole.s(sels);
        proof {
            assert forall|j: Seq<int>| in_bounds(j, out.full_shape()) implies #[trigger] out.elem(j) == self.elem(
                expand(row_window_sels(sels@), j),
            ) by {
                let g = row_window_sels(sels@);
                let src = expand(g, j);
                crate::super_ndarray_view::lemma_view_counts(&whole);
                lemma_row_window_valid(sels@, whole.full_shape());
                lemma_expand(g, whole.full_shape(), whole.full_shape(), j);
                assert(whole.elem(src) == self.elem(src.update(0, src[0] + 0)));
                assert(src.update(0, src[0] + 0) =~= src);
            }
        }
        out
    }
}

} // verus!
