//! # Lanes
//!
//! A lane is the 1D run of elements along one axis with every other index
//! fixed. `apply_axis` reduces each lane to one value, collapsing that
//! axis. Every lane of one call is a view over a single shared copy of
//! the array, so the array is copied once, not once per lane.

use std::sync::Arc;

use vstd::prelude::*;

use crate::layout::{
    dot, flatten, fits, in_bounds, ints, lemma_dot_bound, lemma_prod_nonneg, lemma_unflatten_in_bounds,
    max_offset, nonneg, position_offset, prod, unflatten,
};
use crate::ndarray::{clone_name, NdArray};
use crate::ndarray_view::NdArrayV;
use crate::shared::share;
use crate::super_ndarray::{counts_of, locate, total, SuperNdArray};
use crate::super_ndarray_view::SuperNdArrayV;

verus! {

/// Inserting position `t` at axis `a` adds `t * strides[a]` to the offset.
pub proof fn lemma_dot_insert(o: Seq<int>, st: Seq<int>, a: int, t: int)
    requires
        o.len() + 1 == st.len(),
        0 <= a < st.len(),
    ensures
        dot(o.insert(a, t), st) == dot(o, st.remove(a)) + t * st[a],
    decreases a,
{
    if a == 0 {
        assert(o.insert(0, t) =~= seq![t] + o);
        assert((seq![t] + o).drop_first() =~= o);
        assert(st.remove(0) =~= st.drop_first());
    } else {
        let oi = o.insert(a, t);
        lemma_dot_insert(o.drop_first(), st.drop_first(), a - 1, t);
        assert(oi.drop_first() =~= o.drop_first().insert(a - 1, t));
        assert(oi[0] == o[0]);
        assert(st.remove(a).drop_first() =~= st.drop_first().remove(a - 1));
        assert(st.remove(a)[0] == st[0]);
        assert(st.drop_first()[a - 1] == st[a]);
    }
}

/// Removing axis `a` drops its `(shape[a] - 1) * strides[a]` from the
/// maximum offset.
pub proof fn lemma_max_offset_remove(s: Seq<int>, st: Seq<int>, a: int)
    requires
        s.len() == st.len(),
        0 <= a < s.len(),
    ensures
        max_offset(s, st) == max_offset(s.remove(a), st.remove(a)) + (s[a] - 1) * st[a],
    decreases a,
{
    if a == 0 {
        assert(s.remove(0) =~= s.drop_first());
        assert(st.remove(0) =~= st.drop_first());
    } else {
        lemma_max_offset_remove(s.drop_first(), st.drop_first(), a - 1);
        assert(s.remove(a).drop_first() =~= s.drop_first().remove(a - 1));
        assert(st.remove(a).drop_first() =~= st.drop_first().remove(a - 1));
        assert(s.remove(a)[0] == s[0]);
        assert(st.remove(a)[0] == st[0]);
    }
}

/// The element count is the removed axis's extent times the rest.
pub proof fn lemma_prod_remove(s: Seq<int>, a: int)
    requires
        0 <= a < s.len(),
    ensures
        prod(s) == s[a] * prod(s.remove(a)),
    decreases a,
{
    if a == 0 {
        assert(s.remove(0) =~= s.drop_first());
    } else {
        lemma_prod_remove(s.drop_first(), a - 1);
        assert(s.remove(a).drop_first() =~= s.drop_first().remove(a - 1));
        assert(s.remove(a)[0] == s[0]);
        let x = s[0];
        let y = s[a];
        let z = prod(s.drop_first().remove(a - 1));
        assert(x * (y * z) == y * (x * z)) by (nonlinear_arith);
    }
}

/// An in-bounds index of the shape without axis `a`, with a position of
/// axis `a` inserted, is in bounds of the full shape.
pub proof fn lemma_in_bounds_insert(o: Seq<int>, s: Seq<int>, a: int, t: int)
    requires
        0 <= a < s.len(),
        in_bounds(o, s.remove(a)),
        0 <= t < s[a],
    ensures
        in_bounds(o.insert(a, t), s),
{
    o.insert_ensures(a, t);
    s.remove_ensures(a);
    assert forall|d: int| 0 <= d < s.len() implies 0 <= #[trigger] o.insert(a, t)[d] < s[d] by {
        if d < a {
            assert(o.insert(a, t)[d] == o[d]);
            assert(s.remove(a)[d] == s[d]);
        } else if d > a {
            assert(o.insert(a, t)[(d - 1) + 1] == o[d - 1]);
            assert(s.remove(a)[d - 1] == s[d]);
        }
    }
}

/// `lane` is the run of `a`'s elements along `axis` at the other axes'
/// index `o`: a one-dimensional view over the same parent.
pub open spec fn is_lane<T>(lane: NdArrayV<T>, a: NdArray<T>, axis: int, o: Seq<int>) -> bool {
    &&& lane.wf()
    &&& lane.source.same(&a)
    &&& lane.dims.shape@ == seq![a.dims.shape@[axis]]
    &&& forall|t: int| 0 <= t < a.shape_s()[axis] ==> #[trigger] lane.elem(seq![t]) == a.elem(o.insert(axis, t))
}

/// `v` is what `f` returned for the lane of `a` along `axis` at the
/// other axes' index `o`.
pub open spec fn lane_result<T, F: Fn(NdArrayV<T>) -> T>(a: NdArray<T>, axis: int, o: Seq<int>, f: F, v: T) -> bool {
    exists|lane: NdArrayV<T>| #[trigger] is_lane(lane, a, axis, o) && f.ensures((lane,), v)
}

impl<T: Copy> NdArray<T> {
    /// Applies `f` to every 1D lane along `axis`, collapsing that axis: the
    /// result has the shape without `axis`, its elements in column-major
    /// order of that shape, each one `f` of its lane, and this array's
    /// name. Requires rank 2 or higher.
    pub fn apply_axis<F: Fn(NdArrayV<T>) -> T>(&self, axis: usize, f: F) -> (out: NdArray<T>)
        requires
            self.wf(),
            self.dims.shape@.len() >= 2,
            axis < self.dims.shape@.len(),
            fits(self.shape_s().remove(axis as int)),
            forall|lane: NdArrayV<T>| lane.wf() ==> #[trigger] f.requires((lane,)),
        ensures
            out.wf(),
            out.compact(),
            out.shape_s() == self.shape_s().remove(axis as int),
            out.name == self.name,
            forall|k: int|
                0 <= k < out.values().len() ==> #[trigger] lane_result(
                    *self,
                    axis as int,
                    unflatten(k, out.shape_s()),
                    f,
                    out.values()[k],
                ),
            forall|j: Seq<int>|
                in_bounds(j, out.shape_s()) ==> #[trigger] lane_result(*self, axis as int, j, f, out.elem(j)),
    {
        let ghost s = self.shape_s();
        let ghost st = self.strides_s();
        let ghost os = s.remove(axis as int);
        let ghost ost = st.remove(axis as int);
        let mut out_shape: Vec<usize> = vstd::slice::slice_to_vec(self.dims.shape());
        let n_axis = out_shape.remove(axis);
        let mut out_strides: Vec<usize> = vstd::slice::slice_to_vec(self.dims.strides());
        let st_axis = out_strides.remove(axis);
        proof {
            assert(ints(out_shape@) =~= os);
            assert(ints(out_strides@) =~= ost);
            s.remove_ensures(axis as int);
            lemma_prod_remove(s, axis as int);
            lemma_max_offset_remove(s, st, axis as int);
        }
        let total = crate::layout::shape_len(out_shape.as_slice());
        let _dl = self.data.len();
        let lane_shape = [n_axis];
        let lane_strides = [st_axis];
        let parent: Arc<NdArray<T>> = Arc::new(self.duplicate());
        let mut buf: Vec<T> = Vec::new();
        let mut k: usize = 0;
        while k < total
            invariant
                self.wf(),
                self.data@.len() <= usize::MAX,
                parent.same(self),
                s == self.shape_s(),
                st == self.strides_s(),
                os == s.remove(axis as int),
                ost == st.remove(axis as int),
                axis < s.len(),
                s.len() >= 2,
                ints(out_shape@) == os,
                ints(out_strides@) == ost,
                n_axis == s[axis as int],
                st_axis == st[axis as int],
                lane_shape@ == seq![n_axis],
                lane_strides@ == seq![st_axis],
                total == prod(os),
                prod(s) == s[axis as int] * prod(os),
                max_offset(s, st) == max_offset(os, ost) + (s[axis as int] - 1) * st[axis as int],
                forall|lane: NdArrayV<T>| lane.wf() ==> #[trigger] f.requires((lane,)),
                k <= total,
                buf@.len() == k,
                forall|i: int|
                    0 <= i < k ==> #[trigger] lane_result(*self, axis as int, unflatten(i, os), f, buf@[i]),
            decreases total - k,
        {
            let ghost o = unflatten(k as int, os);
            proof {
                lemma_prod_nonneg(os);
                lemma_unflatten_in_bounds(k as int, os);
                assert(nonneg(ost)) by {
                    st.remove_ensures(axis as int);
                }
            }
            let offset = if n_axis == 0 {
                0
            } else {
                proof {
                    assert(prod(s) > 0) by (nonlinear_arith)
                        requires
                            prod(s) == s[axis as int] * prod(os),
                            s[axis as int] >= 1,
                            prod(os) > k >= 0,
                    ;
                    assert(max_offset(s, st) < self.data@.len());
                    assert((s[axis as int] - 1) * st[axis as int] >= 0) by (nonlinear_arith)
                        requires
                            s[axis as int] >= 1,
                            st[axis as int] >= 0,
                    ;
                }
                position_offset(k, out_shape.as_slice(), out_strides.as_slice())
            };
            proof {
                assert(seq![n_axis as int].drop_first() =~= Seq::<int>::empty());
                assert(seq![st_axis as int].drop_first() =~= Seq::<int>::empty());
                assert(prod(seq![n_axis as int]) == n_axis * prod(Seq::<int>::empty()));
                assert(max_offset(seq![n_axis as int], seq![st_axis as int]) == (n_axis - 1) * st_axis + max_offset(
                    Seq::<int>::empty(),
                    Seq::<int>::empty(),
                ));
                if n_axis > 0 {
                    let last = o.insert(axis as int, n_axis - 1);
                    lemma_in_bounds_insert(o, s, axis as int, n_axis - 1);
                    lemma_dot_insert(o, st, axis as int, n_axis - 1);
                    lemma_dot_bound(last, s, st);
                    assert(offset == dot(o, ost));
                    assert(offset + (n_axis - 1) * st_axis < self.data@.len());
                }
                assert(nonneg(seq![n_axis as int]));
                assert(nonneg(seq![st_axis as int]));
                assert(ints(lane_shape@) =~= seq![n_axis as int]);
                assert(ints(lane_strides@) =~= seq![st_axis as int]);
                assert(fits(seq![n_axis as int])) by {
                    let l = seq![n_axis as int];
                    assert(l.drop_first() =~= Seq::<int>::empty());
                    assert(prod(l) == n_axis * prod(l.drop_first()));
                    assert forall|d: int| 0 <= d <= l.len() implies #[trigger] prod(l.take(d)) <= usize::MAX by {
                        if d == 0 {
                            assert(l.take(0) =~= Seq::<int>::empty());
                        } else {
                            assert(l.take(1) =~= l);
                        }
                    }
                }
            }
            let lane = NdArrayV::from_shared(share(&parent), offset, &lane_shape, &lane_strides);
            let ghost gl = lane;
            proof {
                assert forall|t: int| 0 <= t < s[axis as int] implies #[trigger] gl.elem(seq![t]) == self.elem(
                    o.insert(axis as int, t),
                ) by {
                    lemma_dot_insert(o, st, axis as int, t);
                    assert(seq![t].drop_first() =~= Seq::<int>::empty());
                    assert(dot(seq![t], gl.strides_s()) == t * st_axis + dot(Seq::<int>::empty(), Seq::<int>::empty()));
                    assert(gl.strides_s() =~= seq![st_axis as int]);
                }
                assert(is_lane(gl, *self, axis as int, o));
            }
            let r = f(lane);
            let ghost before = buf@;
            buf.push(r);
            proof {
                assert forall|i: int| 0 <= i < k + 1 implies #[trigger] lane_result(
                    *self,
                    axis as int,
                    unflatten(i, os),
                    f,
                    buf@[i],
                ) by {
                    if i < k {
                        assert(buf@[i] == before[i]);
                        assert(lane_result(*self, axis as int, unflatten(i, os), f, before[i]));
                    } else {
                        assert(is_lane(gl, *self, axis as int, unflatten(i, os)) && f.ensures((gl,), buf@[i]));
                    }
                }
            }
            k = k + 1;
        }
        let ghost b = buf@;
        let mut out = NdArray::from_compact_vec(buf, out_shape.as_slice());
        out.name = clone_name(&self.name);
        assert forall|i: int| 0 <= i < out.values().len() implies #[trigger] lane_result(
            *self,
            axis as int,
            unflatten(i, out.shape_s()),
            f,
            out.values()[i],
        ) by {
            assert(out.values()[i] == b[i]);
            assert(out.shape_s() == os);
            assert(lane_result(*self, axis as int, unflatten(i, os), f, b[i]));
        }
        assert forall|j: Seq<int>| in_bounds(j, out.shape_s()) implies #[trigger] lane_result(
            *self,
            axis as int,
            j,
            f,
            out.elem(j),
        ) by {
            crate::ndarray::law_values_match_get(out, j);
            crate::layout::lemma_flatten_roundtrip(j, out.shape_s());
            let k = flatten(j, out.shape_s());
            assert(lane_result(*self, axis as int, unflatten(k, out.shape_s()), f, out.values()[k]));
        }
        out
    }
}


/// `lane` is the run of `a`'s elements along `axis` at the other axes'
/// global index `o`: a one-dimensional view with those elements in order.
pub open spec fn is_super_lane<T>(lane: NdArrayV<T>, a: SuperNdArray<T>, axis: int, o: Seq<int>) -> bool {
    &&& lane.wf()
    &&& lane.dims.shape@.len() == 1
    &&& lane.shape_s()[0] == a.full_shape()[axis]
    &&& forall|t: int| 0 <= t < a.full_shape()[axis] ==> #[trigger] lane.elem(seq![t]) == a.elem(o.insert(axis, t))
}

/// `v` is what `f` returned for the lane of `a` along `axis` at the other
/// axes' global index `o`.
pub open spec fn super_lane_result<T, F: Fn(NdArrayV<T>) -> T>(
    a: SuperNdArray<T>,
    axis: int,
    o: Seq<int>,
    f: F,
    v: T,
) -> bool {
    exists|lane: NdArrayV<T>| #[trigger] is_super_lane(lane, a, axis, o) && f.ensures((lane,), v)
}

impl<T: Copy> SuperNdArray<T> {
    /// Applies `f` to every 1D lane along `axis`, collapsing that axis and
    /// keeping the name. Lanes along a trailing axis stay inside one batch,
    /// so the result keeps the batch boundaries; lanes along axis 0 cross
    /// batches, and the result is one batch of the trailing shape. Requires
    /// rank 2 or higher.
    pub fn apply_axis<F: Fn(NdArrayV<T>) -> T>(&self, axis: usize, f: F) -> (out: SuperNdArray<T>)
        requires
            self.wf(),
            self.ndim >= 2,
            axis < self.ndim,
            fits(self.full_shape().remove(axis as int)),
            forall|lane: NdArrayV<T>| lane.wf() ==> #[trigger] f.requires((lane,)),
        ensures
            out.wf(),
            out.name@ == self.name@,
            out.full_shape() == self.full_shape().remove(axis as int),
            axis > 0 ==> out.counts() == self.counts(),
            axis == 0 ==> out.batches@.len() == 1,
            forall|j: Seq<int>|
                in_bounds(j, out.full_shape()) ==> #[trigger] super_lane_result(*self, axis as int, j, f, out.elem(j)),
    {
        proof {
            crate::super_ndarray::lemma_counts_nonneg(self);
        }
        if axis == 0 {
            let whole = SuperNdArrayV::from_super(self);
            let nd = whole.consolidate();
            let r = nd.apply_axis(0, f);
            let mut one: Vec<NdArray<T>> = Vec::new();
            one.push(r);
            let ghost fs = self.full_shape();
            proof {
                assert(fs.remove(0) =~= self.inner_s());
                assert(r.shape_s() == self.inner_s());
                assert(r.dims.shape@.len() >= 1);
                assert(counts_of(one@) =~= seq![r.shape_s()[0]]);
                assert(total(seq![r.shape_s()[0]]) == r.shape_s()[0] + total(seq![r.shape_s()[0]].drop_first()));
                assert(seq![r.shape_s()[0]].drop_first() =~= Seq::<int>::empty());
                assert(seq![total(Seq::new(one@.len(), |b: int| one@[b].shape_s()[0]))] + ints(
                    one@[0].dims.shape@.drop_first(),
                ) =~= self.inner_s()) by {
                    assert(Seq::new(one@.len(), |b: int| one@[b].shape_s()[0]) =~= seq![r.shape_s()[0]]);
                    assert(ints(r.dims.shape@.drop_first()) =~= self.inner_s().drop_first());
                }
            }
            let out = SuperNdArray::from_batches(one, self.name.as_str());
            proof {
                assert(out.counts() =~= seq![r.shape_s()[0]]);
                assert(out.inner_shape@ == r.dims.shape@.drop_first());
                assert(out.full_shape() =~= r.shape_s());
                assert forall|j: Seq<int>| in_bounds(j, out.full_shape()) implies #[trigger] super_lane_result(
                    *self,
                    0,
                    j,
                    f,
                    out.elem(j),
                ) by {
                    assert(locate(out.counts(), j[0]) == (0int, j[0]));
                    assert(j.update(0, j[0]) =~= j);
                    assert(out.elem(j) == r.elem(j));
                    assert(lane_result(nd, 0, j, f, r.elem(j)));
                    let lane = choose|lane: NdArrayV<T>| #[trigger] is_lane(lane, nd, 0, j) && f.ensures((lane,), r.elem(j));
                    assert forall|t: int| 0 <= t < fs[0] implies #[trigger] lane.elem(seq![t]) == self.elem(
                        j.insert(0, t),
                    ) by {
                        let src = j.insert(0, t);
                        assert(src =~= seq![t] + j);
                        assert(in_bounds(src, fs)) by {
                            assert forall|d: int| 0 <= d < src.len() implies 0 <= #[trigger] src[d] < fs[d] by {
                                if d > 0 {
                                    assert(src[d] == j[d - 1]);
                                    assert(fs[d] == self.inner_s()[d - 1]);
                                }
                            }
                        }
                        crate::ndarray::law_values_match_get(nd, src);
                        crate::super_ndarray_view::lemma_view_values_elem(&whole, src);
                    }
                    assert(is_super_lane(lane, *self, 0, j));
                }
            }
            return out;
        }
        let mut batches: Vec<NdArray<T>> = Vec::new();
        let mut i: usize = 0;
        let ghost fs = self.full_shape();
        let ghost os = fs.remove(axis as int);
        proof {
            assert(os[0] == self.n_obs_s());
        }
        while i < self.batches.len()
            invariant
                self.wf(),
                0 < axis < self.ndim,
                self.ndim == self.inner_shape@.len() + 1,
                fs == self.full_shape(),
                os == fs.remove(axis as int),
                fits(os),
                os[0] == self.n_obs_s(),
                forall|lane: NdArrayV<T>| lane.wf() ==> #[trigger] f.requires((lane,)),
                forall|b: int|
                    0 <= b < self.batches@.len() ==> #[trigger] self.batches@[b].shape_s() == seq![self.counts()[b]]
                        + self.inner_s() && self.batches@[b].wf(),
                nonneg(self.counts()),
                i <= self.batches@.len(),
                batches@.len() == i,
                forall|b: int|
                    0 <= b < i ==> (#[trigger] batches@[b]).wf() && batches@[b].shape_s() == self.batches@[b].shape_s().remove(
                        axis as int,
                    ) && batches@[b].name == self.batches@[b].name && forall|j: Seq<int>|
                        in_bounds(j, batches@[b].shape_s()) ==> #[trigger] lane_result(
                            self.batches@[b],
                            axis as int,
                            j,
                            f,
                            batches@[b].elem(j),
                        ),
            decreases self.batches@.len() - i,
        {
            let ghost bs = self.batches@[i as int].shape_s();
            proof {
                assert(bs == seq![self.counts()[i as int]] + self.inner_s());
                crate::super_ndarray::lemma_count_le_total(self.counts(), i as int);
                assert(bs.remove(axis as int) =~= os.update(0, self.counts()[i as int]));
                crate::super_ndarray::lemma_prefix_fits(os, self.counts()[i as int]);
            }
            let r = self.batches[i].apply_axis(axis, &f);
            let ghost before = batches@;
            batches.push(r);
            proof {
                assert forall|b: int| 0 <= b < i + 1 implies (#[trigger] batches@[b]).wf() && batches@[b].shape_s()
                    == self.batches@[b].shape_s().remove(axis as int) && batches@[b].name == self.batches@[b].name
                    && forall|j: Seq<int>|
                    in_bounds(j, batches@[b].shape_s()) ==> #[trigger] lane_result(
                        self.batches@[b],
                        axis as int,
                        j,
                        f,
                        batches@[b].elem(j),
                    ) by {
                    if b < i {
                        assert(batches@[b] == before[b]);
                    } else {
                        assert forall|j: Seq<int>| in_bounds(j, r.shape_s()) implies #[trigger] lane_result(
                            self.batches@[b],
                            axis as int,
                            j,
                            f,
                            r.elem(j),
                        ) by {
                            assert(lane_result(self.batches@[b], axis as int, j, &f, r.elem(j)));
                            let lane = choose|lane: NdArrayV<T>| #[trigger] is_lane(lane, self.batches@[b], axis as int, j)
                                && (&f).ensures((lane,), r.elem(j));
                            assert(is_lane(lane, self.batches@[b], axis as int, j) && f.ensures((lane,), r.elem(j)));
                        }
                    }
                }
            }
            i = i + 1;
        }
        let ghost inner2 = self.inner_s().remove(axis as int - 1);
        proof {
            assert(self.batches@.len() > 0);
            assert forall|b: int| 0 <= b < batches@.len() implies (#[trigger] batches@[b]).dims.shape@.drop_first()
                == batches@[0].dims.shape@.drop_first() && batches@[b].dims.shape@.len()
                == batches@[0].dims.shape@.len() by {
                let sb = self.batches@[b].shape_s();
                let s0 = self.batches@[0].shape_s();
                assert(sb.remove(axis as int).drop_first() =~= inner2);
                assert(s0.remove(axis as int).drop_first() =~= inner2);
                assert(batches@[b].shape_s().drop_first() == batches@[0].shape_s().drop_first());
                assert(batches@[b].dims.shape@.drop_first() =~= batches@[0].dims.shape@.drop_first()) by {
                    assert forall|d: int| 0 <= d < batches@[b].dims.shape@.drop_first().len() implies batches@[b].dims.shape@.drop_first()[d]
                        == batches@[0].dims.shape@.drop_first()[d] by {
                        assert(batches@[b].shape_s()[d + 1] == batches@[0].shape_s()[d + 1]);
                    }
                }
            }
            assert(Seq::new(batches@.len(), |b: int| batches@[b].shape_s()[0]) =~= self.counts()) by {
                assert forall|b: int| 0 <= b < batches@.len() implies batches@[b].shape_s()[0] == self.counts()[b] by {
                    assert(self.batches@[b].shape_s().remove(axis as int)[0] == self.counts()[b]);
                }
            }
            assert(ints(batches@[0].dims.shape@.drop_first()) =~= inner2) by {
                assert(self.batches@[0].shape_s().remove(axis as int).drop_first() =~= inner2);
            }
            assert(seq![self.n_obs_s()] + inner2 =~= os);
        }
        let out = SuperNdArray::from_batches(batches, self.name.as_str());
        proof {
            assert(out.counts() =~= self.counts()) by {
                assert forall|b: int| 0 <= b < out.batches@.len() implies out.counts()[b] == self.counts()[b] by {
                    assert(self.batches@[b].shape_s().remove(axis as int)[0] == self.counts()[b]);
                }
            }
            assert(out.inner_s() =~= inner2);
            assert(out.full_shape() =~= os);
            assert forall|j: Seq<int>| in_bounds(j, out.full_shape()) implies #[trigger] super_lane_result(
                *self,
                axis as int,
                j,
                f,
                out.elem(j),
            ) by {
                let c = self.counts();
                crate::super_ndarray::lemma_locate(c, j[0]);
                let p = locate(c, j[0]);
                let jl = j.update(0, p.1);
                let bt = self.batches@[p.0];
                let ob = out.batches@[p.0];
                assert(in_bounds(jl, ob.shape_s())) by {
                    assert forall|d: int| 0 <= d < jl.len() implies 0 <= #[trigger] jl[d] < ob.shape_s()[d] by {
                        if d > 0 {
                            assert(ob.shape_s()[d] == os[d]);
                        }
                    }
                }
                assert(lane_result(bt, axis as int, jl, f, ob.elem(jl)));
                let lane = choose|lane: NdArrayV<T>| #[trigger] is_lane(lane, bt, axis as int, jl) && f.ensures(
                    (lane,),
                    ob.elem(jl),
                );
                assert(bt.shape_s()[axis as int] == fs[axis as int]);
                assert(lane.shape_s() =~= seq![fs[axis as int]]);
                assert forall|t: int| 0 <= t < fs[axis as int] implies #[trigger] lane.elem(seq![t]) == self.elem(
                    j.insert(axis as int, t),
                ) by {
                    let g = j.insert(axis as int, t);
                    j.insert_ensures(axis as int, t);
                    assert(g[0] == j[0]);
                    assert(g.update(0, p.1) =~= jl.insert(axis as int, t));
                }
                assert(is_super_lane(lane, *self, axis as int, j));
            }
        }
        out
    }
}

} // verus!
