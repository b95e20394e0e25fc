//! # SuperNdArrayV - windowed view over a chunked n-dimensional array
//!
//! A logical n-dimensional array made of axis-0 window slices, each an
//! [`NdArrayV`] over its own parent. The slices agree on rank and on every
//! dimension but the leading one; the view's rows are the slices' rows,
//! slice after slice. Windowing, observation access and selection narrow
//! the slices over their shared parents without copying elements; a view
//! taken from a borrowed [`SuperNdArray`] ([`SuperNdArrayV::from_super`])
//! is built over one copy of each batch.

use vstd::prelude::*;
use vstd::std_specs::cmp::PartialEqSpec;

use crate::error::{append_dims, append_usize, decimal, dims_text, MinarrowError};
use crate::rows::{picks_within, DataSelector};
use crate::layout::{dot, fits, flatten, in_bounds, ints, lemma_prod_nonneg, nonneg, prod};
use crate::ndarray::NdArray;
use crate::ndarray_view::NdArrayV;
use crate::super_ndarray::{
    batch_fits, lemma_locate, lemma_skip_nonneg, lemma_total_nonneg, lemma_total_push,
    lemma_total_split, locate, same_usizes, total, SuperNdArray,
};

verus! {

/// Leading-axis rows of each of a sequence of slices.
pub open spec fn view_counts<T>(vs: Seq<NdArrayV<T>>) -> Seq<int> {
    Seq::new(vs.len(), |b: int| vs[b].shape_s()[0])
}

/// A slice that fits the shared trailing shape.
pub open spec fn slice_fits<T>(v: NdArrayV<T>, inner: Seq<usize>) -> bool {
    &&& v.wf()
    &&& v.dims.shape@.len() == inner.len() + 1
    &&& v.dims.shape@.drop_first() == inner
}

/// Chunked view: axis-0 window slices that agree on rank and trailing
/// shape.
#[derive(Debug)]
pub struct SuperNdArrayV<T> {
    pub slices: Vec<NdArrayV<T>>,
    pub ndim: usize,
    pub inner_shape: Vec<usize>,
}

impl<T> SuperNdArrayV<T> {
    /// Leading-axis rows of each slice.
    pub open spec fn counts(&self) -> Seq<int> {
        view_counts(self.slices@)
    }

    /// Total leading-axis rows.
    pub open spec fn n_obs_s(&self) -> int {
        total(self.counts())
    }

    pub open spec fn inner_s(&self) -> Seq<int> {
        ints(self.inner_shape@)
    }

    /// Shape of the array the slices make: total rows, then the trailing
    /// shape.
    pub open spec fn full_shape(&self) -> Seq<int> {
        seq![self.n_obs_s()] + self.inner_s()
    }

    /// Number of positions of the trailing shape.
    pub open spec fn inner_len(&self) -> int {
        prod(self.inner_s())
    }

    /// Well-formed: each slice is well formed with the shared rank and
    /// trailing shape, and the whole shape fits in a `usize`.
    pub open spec fn wf(&self) -> bool {
        &&& self.slices@.len() > 0 ==> self.ndim == self.inner_shape@.len() + 1
        &&& forall|b: int| 0 <= b < self.slices@.len() ==> #[trigger] slice_fits(self.slices@[b], self.inner_shape@)
        &&& fits(self.full_shape())
    }

    /// Every row of every slice has a start offset that fits a `usize`.
    pub open spec fn rows_addressable(&self) -> bool {
        forall|b: int|
            0 <= b < self.slices@.len() ==> (#[trigger] self.slices@[b]).offset + self.counts()[b]
                * self.slices@[b].dims.strides@[0] <= usize::MAX
    }

    /// Every position of every slice has an offset that fits a `usize`:
    /// the slice's offset plus its shape dotted with its strides.
    pub open spec fn addressable(&self) -> bool {
        forall|b: int|
            0 <= b < self.slices@.len() ==> (#[trigger] self.slices@[b]).offset + dot(
                self.slices@[b].shape_s(),
                self.slices@[b].strides_s(),
            ) <= usize::MAX
    }

    /// Element at row `r` (global) and trailing position `c`.
    pub open spec fn value_at(&self, r: int, c: int) -> T {
        let p = locate(self.counts(), r);
        self.slices@[p.0].values()[p.1 + self.counts()[p.0] * c]
    }

    /// The logical elements in column-major order.
    pub open spec fn values(&self) -> Seq<T> {
        Seq::new(
            prod(self.full_shape()) as nat,
            |k: int| self.value_at(k % self.n_obs_s(), k / self.n_obs_s()),
        )
    }

    /// The element at a global multi-index: its row resolved to a slice.
    pub open spec fn elem(&self, idx: Seq<int>) -> T {
        slices_elem(self.slices@, idx)
    }
}

/// The element at a global multi-index of slices laid end to end along
/// axis 0.
pub open spec fn slices_elem<T>(vs: Seq<NdArrayV<T>>, idx: Seq<int>) -> T {
    let p = locate(view_counts(vs), idx[0]);
    vs[p.0].elem(idx.update(0, p.1))
}

/// A row between the totals before and after count `b` lies in batch `b`.
pub proof fn lemma_locate_in(c: Seq<int>, b: int, r: int)
    requires
        nonneg(c),
        0 <= b < c.len(),
        total(c.take(b)) <= r < total(c.take(b)) + c[b],
    ensures
        locate(c, r) == (b, r - total(c.take(b))),
    decreases b,
{
    if b == 0 {
        assert(c.take(0) =~= Seq::<int>::empty());
    } else {
        let rest = c.drop_first();
        assert(nonneg(rest)) by {
            assert forall|i: int| 0 <= i < rest.len() implies rest[i] >= 0 by {
                assert(c[i + 1] >= 0);
            }
        }
        assert(c.take(b).drop_first() =~= rest.take(b - 1));
        assert(c.take(b)[0] == c[0]);
        assert(total(c.take(b)) == c[0] + total(rest.take(b - 1)));
        assert(nonneg(rest.take(b - 1))) by {
            assert forall|i: int| 0 <= i < rest.take(b - 1).len() implies #[trigger] rest.take(b - 1)[i] >= 0 by {
                assert(rest[i] >= 0);
            }
        }
        lemma_total_nonneg(rest.take(b - 1));
        lemma_locate_in(rest, b - 1, r - c[0]);
    }
}

/// Appending a count keeps where earlier rows land, and places the rows
/// past the old total in the new last batch.
pub proof fn lemma_locate_push(c: Seq<int>, x: int, r: int)
    requires
        nonneg(c),
        x >= 0,
        0 <= r < total(c) + x,
    ensures
        r < total(c) ==> locate(c.push(x), r) == locate(c, r),
        r >= total(c) ==> locate(c.push(x), r) == (c.len() as int, r - total(c)),
{
    let cp = c.push(x);
    assert(nonneg(cp)) by {
        assert forall|i: int| 0 <= i < cp.len() implies cp[i] >= 0 by {
            if i < c.len() {
                assert(cp[i] == c[i]);
            }
        }
    }
    if r < total(c) {
        lemma_locate(c, r);
        crate::super_ndarray::lemma_locate_start(c, r);
        let b = locate(c, r).0;
        assert(cp.take(b) =~= c.take(b));
        lemma_locate_in(cp, b, r);
    } else {
        assert(cp.take(c.len() as int) =~= c);
        lemma_locate_in(cp, c.len() as int, r);
    }
}

/// What well-formedness gives: non-negative counts, each slice shaped
/// `[its rows] + trailing shape`, a row total that fits, and the element
/// count as rows times trailing positions.
pub proof fn lemma_view_counts<T>(a: &SuperNdArrayV<T>)
    requires
        a.wf(),
    ensures
        nonneg(a.counts()),
        forall|b: int|
            0 <= b < a.slices@.len() ==> #[trigger] a.slices@[b].shape_s() == seq![a.counts()[b]] + a.inner_s()
                && a.slices@[b].wf(),
        0 <= a.n_obs_s() <= usize::MAX,
        a.inner_len() >= 0,
        prod(a.full_shape()) == a.n_obs_s() * a.inner_len(),
        a.full_shape()[0] == a.n_obs_s(),
        a.full_shape().drop_first() == a.inner_s(),
{
    assert forall|b: int| 0 <= b < a.slices@.len() implies #[trigger] a.slices@[b].shape_s() == seq![a.counts()[b]]
        + a.inner_s() && a.slices@[b].wf() by {
        assert(slice_fits(a.slices@[b], a.inner_shape@));
        assert(a.slices@[b].shape_s() =~= seq![a.counts()[b]] + a.inner_s());
    }
    assert forall|b: int| 0 <= b < a.counts().len() implies a.counts()[b] >= 0 by {
        assert(slice_fits(a.slices@[b], a.inner_shape@));
    }
    let f = a.full_shape();
    assert(f.drop_first() =~= a.inner_s());
    assert(f.take(1) =~= seq![a.n_obs_s()]);
    assert(seq![a.n_obs_s()].drop_first() =~= Seq::<int>::empty());
    assert(prod(seq![a.n_obs_s()]) == a.n_obs_s() * prod(Seq::<int>::empty()));
    assert(prod(f.take(1)) <= usize::MAX);
    lemma_total_nonneg(a.counts());
    crate::layout::lemma_ints_nonneg(a.inner_shape@);
    lemma_prod_nonneg(a.inner_s());
}

impl<T: Copy> SuperNdArrayV<T> {
    /// Assembles a view from axis-0 window slices, each of rank `ndim` with
    /// trailing shape `inner_shape`.
    pub fn from_slices(slices: Vec<NdArrayV<T>>, ndim: usize, inner_shape: Vec<usize>) -> (out: Self)
        requires
            forall|b: int| 0 <= b < slices@.len() ==> #[trigger] slice_fits(slices@[b], inner_shape@),
            slices@.len() > 0 ==> ndim == inner_shape@.len() + 1,
            fits(seq![total(view_counts(slices@))] + ints(inner_shape@)),
        ensures
            out.wf(),
            out.slices == slices,
            out.ndim == ndim,
            out.inner_shape == inner_shape,
    {
        SuperNdArrayV { slices, ndim, inner_shape }
    }

    /// Number of slices.
    pub fn n_slices(&self) -> (n: usize)
        ensures
            n == self.slices@.len(),
    {
        self.slices.len()
    }

    /// Shared rank.
    pub fn ndim(&self) -> (n: usize)
        ensures
            n == self.ndim,
    {
        self.ndim
    }

    /// Shared trailing shape.
    pub fn inner_shape(&self) -> (s: &[usize])
        ensures
            s@ == self.inner_shape@,
    {
        self.inner_shape.as_slice()
    }

    /// The slices, in order.
    pub fn chunks(&self) -> (s: &[NdArrayV<T>])
        ensures
            s@ == self.slices@,
    {
        self.slices.as_slice()
    }

    /// Total leading-axis rows across all slices.
    pub fn n_obs(&self) -> (n: usize)
        requires
            self.wf(),
        ensures
            n == self.n_obs_s(),
    {
        let ghost c = self.counts();
        proof {
            lemma_view_counts(self);
            assert(c.take(0) =~= Seq::<int>::empty());
        }
        let mut acc: usize = 0;
        let mut i: usize = 0;
        while i < self.slices.len()
            invariant
                self.wf(),
                c == self.counts(),
                nonneg(c),
                total(c) <= usize::MAX,
                i <= c.len(),
                acc == total(c.take(i as int)),
            decreases c.len() - i,
        {
            proof {
                lemma_total_split(c, i as int + 1);
                lemma_skip_nonneg(c, i as int + 1);
                lemma_total_nonneg(c.skip(i as int + 1));
                assert(c.take(i as int + 1) =~= c.take(i as int).push(c[i as int]));
                lemma_total_push(c.take(i as int), c[i as int]);
                assert(slice_fits(self.slices@[i as int], self.inner_shape@));
            }
            acc = acc + self.slices[i].dims.shape[0];
            i = i + 1;
        }
        proof {
            assert(c.take(c.len() as int) =~= c);
        }
        acc
    }

    /// Shape of the whole view: total rows, then the trailing shape.
    pub fn shape(&self) -> (s: Vec<usize>)
        requires
            self.wf(),
        ensures
            ints(s@) == self.full_shape(),
    {
        let mut s: Vec<usize> = Vec::new();
        s.push(self.n_obs());
        let mut i: usize = 0;
        while i < self.inner_shape.len()
            invariant
                i <= self.inner_shape@.len(),
                s@.len() == i + 1,
                s@[0] == self.n_obs_s(),
                forall|k: int| 0 <= k < i ==> #[trigger] s@[k + 1] == self.inner_shape@[k],
            decreases self.inner_shape@.len() - i,
        {
            s.push(self.inner_shape[i]);
            i = i + 1;
        }
        proof {
            assert forall|j: int| 0 <= j < s@.len() implies ints(s@)[j] == self.full_shape()[j] by {
                if j > 0 {
                    assert(s@[(j - 1) + 1] == self.inner_shape@[j - 1]);
                }
            }
            assert(ints(s@) =~= self.full_shape());
        }
        s
    }

    /// Total logical elements.
    pub fn len(&self) -> (n: usize)
        requires
            self.wf(),
        ensures
            n == prod(self.full_shape()),
    {
        let s = self.shape();
        crate::layout::shape_len(s.as_slice())
    }

    pub fn is_empty(&self) -> (b: bool)
        requires
            self.wf(),
        ensures
            b == (prod(self.full_shape()) == 0),
    {
        self.len() == 0
    }

    /// Slice and row within it of global row `global`.
    fn resolve(&self, global: usize) -> (p: (usize, usize))
        requires
            self.wf(),
            global < self.n_obs_s(),
        ensures
            p.0 == locate(self.counts(), global as int).0,
            p.1 == locate(self.counts(), global as int).1,
            p.0 < self.slices@.len(),
            p.1 < self.counts()[p.0 as int],
    {
        let ghost c = self.counts();
        proof {
            lemma_view_counts(self);
            lemma_locate(c, global as int);
            assert(c.skip(0) =~= c);
        }
        let mut remaining: usize = global;
        let mut i: usize = 0;
        while i < self.slices.len()
            invariant
                self.wf(),
                c == self.counts(),
                nonneg(c),
                i <= c.len(),
                locate(c, global as int) == (i + locate(c.skip(i as int), remaining as int).0, locate(
                    c.skip(i as int),
                    remaining as int,
                ).1),
                remaining < total(c.skip(i as int)),
            decreases c.len() - i,
        {
            assert(c.skip(i as int).drop_first() =~= c.skip(i as int + 1));
            assert(c.skip(i as int)[0] == c[i as int]);
            assert(slice_fits(self.slices@[i as int], self.inner_shape@));
            let n = self.slices[i].dims.shape[0];
            if remaining < n {
                return (i, remaining);
            }
            remaining = remaining - n;
            i = i + 1;
        }
        assert(c.skip(i as int) =~= Seq::<int>::empty());
        (0, 0)
    }

    /// The element at a global N-dimensional index: the leading index
    /// counts rows across slices.
    pub fn get(&self, indices: &[usize]) -> (v: T)
        requires
            self.wf(),
            in_bounds(ints(indices@), self.full_shape()),
        ensures
            v == self.elem(ints(indices@)),
    {
        proof {
            lemma_view_counts(self);
            assert(0 <= ints(indices@)[0] < self.full_shape()[0]);
        }
        let (b, l) = self.resolve(indices[0]);
        let mut local = vstd::slice::slice_to_vec(indices);
        local.set(0, l);
        proof {
            assert(ints(local@) =~= ints(indices@).update(0, l as int));
            let s = self.slices@[b as int].shape_s();
            assert forall|d: int| 0 <= d < ints(local@).len() implies 0 <= #[trigger] ints(local@)[d] < s[d] by {
                if d > 0 {
                    assert(ints(indices@)[d] < self.full_shape()[d]);
                }
            }
        }
        self.slices[b].get(local.as_slice())
    }

    /// View of one observation, resolved to its slice, over that slice's
    /// shared parent; no element is copied. Rank 2 or higher.
    pub fn obs(&self, idx: usize) -> (v: NdArrayV<T>)
        requires
            self.wf(),
            self.rows_addressable(),
            self.ndim >= 2,
            idx < self.n_obs_s(),
        ensures
            v.wf(),
            v.shape_s() == self.inner_s(),
            forall|j: Seq<int>| in_bounds(j, v.shape_s()) ==> #[trigger] v.elem(j) == self.elem(seq![idx as int] + j),
    {
        proof {
            lemma_view_counts(self);
        }
        let (b, l) = self.resolve(idx);
        proof {
            let sl = self.slices@[b as int];
            let st = sl.dims.strides@[0] as int;
            assert(sl.offset + self.counts()[b as int] * st <= usize::MAX);
            assert(l as int * st <= self.counts()[b as int] * st) by (nonlinear_arith)
                requires
                    0 <= l < self.counts()[b as int],
                    st >= 0,
            ;
        }
        let v = self.slices[b].obs(l);
        proof {
            assert(v.shape_s() =~= self.inner_s()) by {
                assert(slice_fits(self.slices@[b as int], self.inner_shape@));
            }
            assert forall|j: Seq<int>| in_bounds(j, v.shape_s()) implies #[trigger] v.elem(j) == self.elem(
                seq![idx as int] + j,
            ) by {
                assert((seq![idx as int] + j).update(0, l as int) =~= seq![l as int] + j);
            }
        }
        v
    }

    /// The slices copied into owned compact batches of an unnamed chunked
    /// array with the same rows.
    fn to_super(&self) -> (out: SuperNdArray<T>)
        requires
            self.wf(),
            self.slices@.len() > 0,
        ensures
            out.wf(),
            out.counts() == self.counts(),
            out.inner_shape@ == self.inner_shape@,
            out.full_shape() == self.full_shape(),
            out.values() == self.values(),
            forall|idx: Seq<int>| in_bounds(idx, self.full_shape()) ==> #[trigger] out.elem(idx) == self.elem(idx),
    {
        proof {
            lemma_view_counts(self);
        }
        let mut batches: Vec<NdArray<T>> = Vec::new();
        let mut i: usize = 0;
        while i < self.slices.len()
            invariant
                self.wf(),
                i <= self.slices@.len(),
                batches@.len() == i,
                forall|b: int|
                    0 <= b < self.slices@.len() ==> #[trigger] self.slices@[b].shape_s() == seq![self.counts()[b]]
                        + self.inner_s() && self.slices@[b].wf(),
                forall|b: int|
                    0 <= b < i ==> (#[trigger] batches@[b]).dims.shape@ == self.slices@[b].dims.shape@
                        && batches@[b].wf() && batches@[b].compact() && batches@[b].values()
                        == self.slices@[b].values(),
            decreases self.slices@.len() - i,
        {
            assert(self.slices@[i as int].shape_s() == seq![self.counts()[i as int]] + self.inner_s());
            let nd = self.slices[i].to_ndarray();
            batches.push(nd);
            i = i + 1;
        }
        let out = SuperNdArray {
            batches,
            ndim: self.ndim,
            inner_shape: vstd::slice::slice_to_vec(self.inner_shape.as_slice()),
            name: String::new(),
        };
        proof {
            assert(out.counts() =~= self.counts()) by {
                assert forall|b: int| 0 <= b < out.batches@.len() implies out.counts()[b] == self.counts()[b] by {
                    assert(out.batches@[b].dims.shape@ == self.slices@[b].dims.shape@);
                }
            }
            assert forall|b: int| 0 <= b < out.batches@.len() implies #[trigger] batch_fits(
                out.batches@[b],
                out.inner_shape@,
            ) by {
                assert(slice_fits(self.slices@[b], self.inner_shape@));
                assert(out.batches@[b].dims.shape@ == self.slices@[b].dims.shape@);
            }
            assert(out.full_shape() =~= self.full_shape());
            assert forall|k: int| 0 <= k < self.values().len() implies #[trigger] out.values()[k] == self.values()[k] by {
                let n = self.n_obs_s();
                crate::super_ndarray::lemma_split_pos(k, n, self.inner_len());
                lemma_locate(self.counts(), k % n);
            }
            assert(out.values() =~= self.values());
            assert forall|idx: Seq<int>| in_bounds(idx, self.full_shape()) implies #[trigger] out.elem(idx)
                == self.elem(idx) by {
                let c = self.counts();
                lemma_locate(c, idx[0]);
                let p = locate(c, idx[0]);
                let loc = idx.update(0, p.1);
                let bt = out.batches@[p.0];
                let sl = self.slices@[p.0];
                assert(in_bounds(loc, sl.shape_s())) by {
                    assert forall|d: int| 0 <= d < loc.len() implies 0 <= #[trigger] loc[d] < sl.shape_s()[d] by {
                        if d > 0 {
                            assert(idx[d] < self.full_shape()[d]);
                        }
                    }
                }
                crate::ndarray::law_values_match_get(bt, loc);
                crate::layout::lemma_logical_at(sl.source.data@, sl.offset as int, sl.shape_s(), sl.strides_s(), loc);
                assert(bt.shape_s() == sl.shape_s());
            }
        }
        out
    }

    /// Copies the whole view into one compact owned array, unnamed. A view
    /// with no slices gives an empty one-dimensional array.
    pub fn consolidate(self) -> (out: NdArray<T>)
        requires
            self.wf(),
        ensures
            out.wf(),
            out.compact(),
            self.slices@.len() == 0 ==> out.shape_s() == seq![0int],
            self.slices@.len() > 0 ==> out.shape_s() == self.full_shape(),
            out.values() == self.values(),
            out.name is None,
    {
        if self.slices.len() == 0 {
            proof {
                assert(self.counts() =~= Seq::<int>::empty());
                assert(prod(seq![0int]) == 0 * prod(seq![0int].drop_first()));
                assert(ints(seq![0usize]) =~= seq![0int]);
                assert(fits(seq![0int])) by {
                    let z = seq![0int];
                    assert forall|d: int| 0 <= d <= z.len() implies #[trigger] prod(z.take(d)) <= usize::MAX by {
                        if d == 0 {
                            assert(z.take(0) =~= Seq::<int>::empty());
                        } else {
                            assert(z.take(1) =~= z);
                        }
                    }
                }
                lemma_view_counts(&self);
                assert(self.values().len() == 0) by {
                    assert(self.n_obs_s() == 0);
                }
            }
            let empty: Vec<T> = Vec::new();
            let mut shape0: Vec<usize> = Vec::new();
            shape0.push(0);
            assert(ints(shape0@) =~= seq![0int]);
            let out = NdArray::from_slice(empty.as_slice(), shape0.as_slice());
            assert(out.values() =~= self.values());
            return out;
        }
        let s = self.to_super();
        let mut out = s.consolidate();
        out.name = None;
        out
    }

    /// A new compact array with `f` applied to every element of the view,
    /// in the view's shape.
    pub fn apply<F: Fn(T) -> T>(&self, f: F) -> (out: NdArray<T>)
        requires
            self.wf(),
            forall|x: T| #[trigger] f.requires((x,)),
        ensures
            out.wf(),
            out.compact(),
            self.slices@.len() > 0 ==> out.shape_s() == self.full_shape(),
            out.values().len() == self.values().len(),
            forall|k: int| 0 <= k < self.values().len() ==> #[trigger] f.ensures((self.values()[k],), out.values()[k]),
            out.name is None,
    {
        let nd = self.duplicate().consolidate();
        nd.apply(f)
    }

    /// An equal copy of this view.
    pub fn duplicate(&self) -> (out: Self)
        requires
            self.wf(),
        ensures
            out.wf(),
            out.ndim == self.ndim,
            out.inner_shape@ == self.inner_shape@,
            out.slices@.len() == self.slices@.len(),
            forall|b: int| 0 <= b < self.slices@.len() ==> (#[trigger] out.slices@[b]).same(&self.slices@[b]),
            out.counts() == self.counts(),
            out.values() == self.values(),
            forall|idx: Seq<int>| in_bounds(idx, self.full_shape()) ==> #[trigger] out.elem(idx) == self.elem(idx),
    {
        let mut slices: Vec<NdArrayV<T>> = Vec::new();
        let mut i: usize = 0;
        while i < self.slices.len()
            invariant
                i <= self.slices@.len(),
                slices@.len() == i,
                forall|b: int| 0 <= b < i ==> (#[trigger] slices@[b]).same(&self.slices@[b]),
            decreases self.slices@.len() - i,
        {
            slices.push(self.slices[i].clone());
            i = i + 1;
        }
        let out = SuperNdArrayV {
            slices,
            ndim: self.ndim,
            inner_shape: vstd::slice::slice_to_vec(self.inner_shape.as_slice()),
        };
        proof {
            assert(out.counts() =~= self.counts()) by {
                assert forall|b: int| 0 <= b < out.slices@.len() implies out.counts()[b] == self.counts()[b] by {
                    assert(out.slices@[b].same(&self.slices@[b]));
                }
            }
            assert forall|b: int| 0 <= b < out.slices@.len() implies out.slices@[b].values() == self.slices@[b].values()
                && out.slices@[b].shape_s() == self.slices@[b].shape_s() && out.slices@[b].strides_s()
                == self.slices@[b].strides_s() by {
                assert(out.slices@[b].same(&self.slices@[b]));
            }
            lemma_view_counts(self);
            assert forall|k: int| 0 <= k < self.values().len() implies #[trigger] out.values()[k] == self.values()[k] by {
                let n = self.n_obs_s();
                crate::super_ndarray::lemma_split_pos(k, n, self.inner_len());
                lemma_locate(self.counts(), k % n);
            }
            assert(out.values() =~= self.values());
            assert forall|idx: Seq<int>| in_bounds(idx, self.full_shape()) implies #[trigger] out.elem(idx) == self.elem(
                idx,
            ) by {
                lemma_locate(self.counts(), idx[0]);
                let p = locate(self.counts(), idx[0]);
                assert(out.slices@[p.0].same(&self.slices@[p.0]));
            }
            assert forall|b: int| 0 <= b < out.slices@.len() implies #[trigger] slice_fits(
                out.slices@[b],
                out.inner_shape@,
            ) by {
                assert(slice_fits(self.slices@[b], self.inner_shape@));
                assert(out.slices@[b].same(&self.slices@[b]));
            }
            assert(out.full_shape() =~= self.full_shape());
        }
        out
    }
}


impl<T: Copy> SuperNdArrayV<T> {
    /// Window over global rows `[offset, offset + len)`, spanning slice
    /// boundaries. No element is copied: each overlapped slice contributes
    /// a narrowed view of itself over the same parent.
    pub fn slice(&self, offset: usize, len: usize) -> (out: Self)
        requires
            self.wf(),
            self.rows_addressable(),
            offset + len <= self.n_obs_s(),
        ensures
            out.wf(),
            out.rows_addressable(),
            self.addressable() ==> out.addressable(),
            out.ndim == self.ndim,
            out.inner_shape@ == self.inner_shape@,
            out.n_obs_s() == len,
            forall|j: Seq<int>|
                in_bounds(j, out.full_shape()) ==> #[trigger] out.elem(j) == self.elem(j.update(0, j[0] + offset)),
    {
        let ghost c = self.counts();
        proof {
            lemma_view_counts(self);
            assert(c.take(0) =~= Seq::<int>::empty());
        }
        let n = self.slices.len();
        let mut pieces: Vec<NdArrayV<T>> = Vec::new();
        let mut rem_off: usize = offset;
        let mut rem_len: usize = len;
        let mut done = false;
        let mut b: usize = 0;
        assert(view_counts(pieces@) =~= Seq::<int>::empty());
        while b < n && !done
            invariant
                self.wf(),
                self.rows_addressable(),
                c == self.counts(),
                nonneg(c),
                n == self.slices@.len(),
                offset + len <= total(c),
                forall|i: int|
                    0 <= i < self.slices@.len() ==> #[trigger] self.slices@[i].shape_s() == seq![c[i]] + self.inner_s()
                        && self.slices@[i].wf(),
                b <= n,
                pieces@.len() <= b,
                rem_len <= len,
                total(view_counts(pieces@)) == len - rem_len,
                nonneg(view_counts(pieces@)),
                done ==> rem_len == 0,
                !done ==> total(c.take(b as int)) + rem_off == offset + (len - rem_len),
                !done ==> total(c.take(b as int)) + rem_off + rem_len <= total(c),
                forall|i: int| 0 <= i < pieces@.len() ==> #[trigger] slice_fits(pieces@[i], self.inner_shape@),
                forall|i: int|
                    0 <= i < pieces@.len() ==> (#[trigger] pieces@[i]).offset + view_counts(pieces@)[i]
                        * pieces@[i].dims.strides@[0] <= usize::MAX,
                self.addressable() ==> forall|i: int|
                    0 <= i < pieces@.len() ==> (#[trigger] pieces@[i]).offset + dot(
                        pieces@[i].shape_s(),
                        pieces@[i].strides_s(),
                    ) <= usize::MAX,
                forall|j: Seq<int>|
                    in_bounds(j, seq![len - rem_len] + self.inner_s()) ==> #[trigger] slices_elem(pieces@, j)
                        == self.elem(j.update(0, j[0] + offset)),
            decreases n - b,
        {
            let ghost nc = view_counts(pieces@);
            let ghost produced = len - rem_len;
            proof {
                lemma_total_split(c, b as int + 1);
                assert(c.take(b as int + 1) =~= c.take(b as int).push(c[b as int]));
                lemma_total_push(c.take(b as int), c[b as int]);
                lemma_skip_nonneg(c, b as int + 1);
                lemma_total_nonneg(c.skip(b as int + 1));
                assert(slice_fits(self.slices@[b as int], self.inner_shape@));
            }
            let base = self.slices[b].dims.shape[0];
            if rem_off >= base {
                rem_off = rem_off - base;
            } else {
                let take = if base - rem_off < rem_len { base - rem_off } else { rem_len };
                let ghost sl = self.slices@[b as int];
                let ghost sel = rem_off..(rem_off + take) as usize;
                proof {
                    crate::super_ndarray::lemma_prefix_fits(sl.shape_s(), take as int);
                    assert(sl.shape_s().update(0, take as int) == seq![take as int] + self.inner_s());
                    assert(sl.offset + rem_off * sl.dims.strides@[0] <= sl.offset + c[b as int] * sl.dims.strides@[0])
                        by (nonlinear_arith)
                        requires
                            rem_off < c[b as int],
                            sl.dims.strides@[0] >= 0,
                    ;
                    assert(sl.offset + c[b as int] * sl.dims.strides@[0] <= usize::MAX);
                    assert(crate::rows::first_pick(sel.picks()) <= rem_off) by {
                        if take > 0 {
                            assert(sel.picks()[0] == rem_off);
                        }
                    }
                    assert(crate::rows::first_pick(sel.picks()) * sl.dims.strides@[0] <= rem_off * sl.dims.strides@[0])
                        by (nonlinear_arith)
                        requires
                            0 <= crate::rows::first_pick(sel.picks()) <= rem_off,
                            sl.dims.strides@[0] >= 0,
                    ;
                }
                let piece = self.slices[b].r(rem_off..rem_off + take);
                proof {
                    assert(piece.shape_s() == seq![take as int] + self.inner_s());
                    assert(piece.dims.shape@.drop_first() =~= self.inner_shape@) by {
                        assert(piece.shape_s().drop_first() =~= self.inner_s());
                        assert forall|d: int| 0 <= d < self.inner_shape@.len() implies piece.dims.shape@.drop_first()[d]
                            == self.inner_shape@[d] by {
                            assert(piece.shape_s()[d + 1] == piece.dims.shape@[d + 1]);
                        }
                    }
                    assert(piece.offset + take * piece.dims.strides@[0] <= usize::MAX) by {
                        assert(piece.dims.strides@[0] == sl.dims.strides@[0]) by {
                            assert(piece.strides_s()[0] == sl.strides_s()[0]);
                        }
                        assert(piece.offset + take * sl.dims.strides@[0] <= sl.offset + c[b as int] * sl.dims.strides@[0])
                            by (nonlinear_arith)
                            requires
                                piece.offset <= sl.offset + rem_off * sl.dims.strides@[0],
                                rem_off + take <= c[b as int],
                                sl.dims.strides@[0] >= 0,
                        ;
                    }
                    if self.addressable() {
                        let st = sl.strides_s();
                        assert(piece.strides_s() == st);
                        assert(piece.shape_s().drop_first() == sl.shape_s().drop_first());
                        let rest = dot(sl.shape_s().drop_first(), st.drop_first());
                        assert(dot(piece.shape_s(), st) == take * st[0] + rest);
                        assert(dot(sl.shape_s(), st) == c[b as int] * st[0] + rest);
                        assert(sl.offset + dot(sl.shape_s(), st) <= usize::MAX);
                        assert(piece.offset + take * st[0] <= sl.offset + c[b as int] * st[0]) by (nonlinear_arith)
                            requires
                                piece.offset <= sl.offset + rem_off * st[0],
                                rem_off + take <= c[b as int],
                                st[0] >= 0,
                        ;
                    }
                }
                let ghost old_pieces = pieces@;
                pieces.push(piece);
                proof {
                    assert(view_counts(pieces@) =~= nc.push(take as int));
                    lemma_total_push(nc, take as int);
                    assert(nonneg(view_counts(pieces@))) by {
                        assert forall|i: int| 0 <= i < pieces@.len() implies view_counts(pieces@)[i] >= 0 by {
                            if i < old_pieces.len() {
                                assert(pieces@[i] == old_pieces[i]);
                            }
                        }
                    }
                    assert forall|j: Seq<int>| in_bounds(j, seq![produced + take] + self.inner_s()) implies #[trigger] slices_elem(
                        pieces@,
                        j,
                    ) == self.elem(j.update(0, j[0] + offset)) by {
                        lemma_locate_push(nc, take as int, j[0]);
                        if j[0] < produced {
                            assert(in_bounds(j, seq![produced] + self.inner_s())) by {
                                assert forall|d: int| 0 <= d < j.len() implies 0 <= #[trigger] j[d] < (seq![produced]
                                    + self.inner_s())[d] by {
                                    if d > 0 {
                                        assert((seq![produced + take] + self.inner_s())[d] == self.inner_s()[d - 1]);
                                    }
                                }
                            }
                            assert(slices_elem(old_pieces, j) == self.elem(j.update(0, j[0] + offset)));
                            let p = locate(nc, j[0]);
                            lemma_locate(nc, j[0]);
                            assert(pieces@[p.0] == old_pieces[p.0]);
                        } else {
                            let l = j[0] - produced;
                            let jj = j.update(0, l);
                            assert(in_bounds(jj, piece.shape_s())) by {
                                assert forall|d: int| 0 <= d < jj.len() implies 0 <= #[trigger] jj[d] < piece.shape_s()[d] by {
                                    if d > 0 {
                                        assert((seq![produced + take] + self.inner_s())[d] == self.inner_s()[d - 1]);
                                    }
                                }
                            }
                            assert(pieces@[old_pieces.len() as int] == piece);
                            assert(slices_elem(pieces@, j) == piece.elem(jj));
                            assert(sel.picks()[l] == rem_off + l);
                            assert(piece.elem(jj) == sl.elem(jj.update(0, rem_off + l)));
                            let g = j[0] + offset;
                            lemma_locate_in(c, b as int, g);
                            assert(locate(c, g) == (b as int, rem_off + l));
                            assert(j.update(0, g).update(0, rem_off + l) =~= jj.update(0, rem_off + l));
                        }
                    }
                }
                rem_len = rem_len - take;
                if rem_len == 0 {
                    done = true;
                } else {
                    rem_off = 0;
                }
            }
            b = b + 1;
        }
        proof {
            if !done {
                assert(c.take(n as int) =~= c);
            }
            assert(rem_len == 0);
            assert(seq![len as int] + self.inner_s() == seq![len - rem_len] + self.inner_s());
        }
        let out = SuperNdArrayV {
            slices: pieces,
            ndim: self.ndim,
            inner_shape: vstd::slice::slice_to_vec(self.inner_shape.as_slice()),
        };
        proof {
            assert(out.full_shape() =~= seq![len as int] + self.inner_s());
            crate::super_ndarray::lemma_prefix_fits(self.full_shape(), len as int);
            assert(self.full_shape().update(0, len as int) =~= out.full_shape());
        }
        out
    }
}


/// A global index's flattened position in the view holds its element.
pub proof fn lemma_view_values_elem<T>(a: &SuperNdArrayV<T>, idx: Seq<int>)
    requires
        a.wf(),
        in_bounds(idx, a.full_shape()),
    ensures
        0 <= flatten(idx, a.full_shape()) < a.values().len(),
        a.values()[flatten(idx, a.full_shape())] == a.elem(idx),
{
    lemma_view_counts(a);
    let c = a.counts();
    let n = a.n_obs_s();
    let inner = a.inner_s();
    let rest = idx.drop_first();
    let full = a.full_shape();
    assert(full.drop_first() =~= inner);
    assert(in_bounds(rest, inner)) by {
        assert forall|d: int| 0 <= d < rest.len() implies 0 <= #[trigger] rest[d] < inner[d] by {
            assert(rest[d] == idx[d + 1]);
            assert(full[d + 1] == inner[d]);
        }
    }
    crate::layout::lemma_flatten_roundtrip(rest, inner);
    let f = flatten(rest, inner);
    assert(flatten(idx, full) == idx[0] + n * f);
    crate::layout::lemma_flatten_roundtrip(idx, full);
    let k = idx[0] + n * f;
    crate::super_ndarray::lemma_row_col(idx[0], f, n);
    lemma_locate(c, idx[0]);
    let p = locate(c, idx[0]);
    let sl = a.slices@[p.0];
    let loc = idx.update(0, p.1);
    assert(sl.shape_s() == seq![c[p.0]] + inner);
    assert(in_bounds(loc, sl.shape_s())) by {
        assert forall|d: int| 0 <= d < loc.len() implies 0 <= #[trigger] loc[d] < sl.shape_s()[d] by {
            if d > 0 {
                assert(idx[d] < full[d]);
            }
        }
    }
    assert(loc.drop_first() =~= rest);
    assert(sl.shape_s().drop_first() =~= inner);
    assert(flatten(loc, sl.shape_s()) == p.1 + c[p.0] * f);
    crate::layout::lemma_logical_at(sl.source.data@, sl.offset as int, sl.shape_s(), sl.strides_s(), loc);
}

impl<T: Copy> SuperNdArrayV<T> {
    /// A view over every batch of a chunked array, each batch a full slice.
    /// The chunked array is borrowed, so each batch is copied once into the
    /// parent of its slice; views derived from the result share those
    /// copies.
    pub fn from_super(s: &SuperNdArray<T>) -> (out: Self)
        requires
            s.wf(),
        ensures
            out.wf(),
            out.ndim == s.ndim,
            out.inner_shape@ == s.inner_shape@,
            out.counts() == s.counts(),
            out.full_shape() == s.full_shape(),
            out.values() == s.values(),
            forall|b: int| 0 <= b < out.slices@.len() ==> (#[trigger] out.slices@[b]).offset == 0
                && out.slices@[b].dims.strides@ == s.batches@[b].dims.strides@
                && out.slices@[b].dims.shape@ == s.batches@[b].dims.shape@,
            forall|idx: Seq<int>| in_bounds(idx, s.full_shape()) ==> #[trigger] out.elem(idx) == s.elem(idx),
    {
        let mut slices: Vec<NdArrayV<T>> = Vec::new();
        let mut i: usize = 0;
        while i < s.batches.len()
            invariant
                s.wf(),
                i <= s.batches@.len(),
                slices@.len() == i,
                forall|b: int|
                    0 <= b < i ==> (#[trigger] slices@[b]).source.same(&s.batches@[b]) && slices@[b].offset == 0
                        && slices@[b].dims.shape@ == s.batches@[b].dims.shape@ && slices@[b].dims.strides@
                        == s.batches@[b].dims.strides@ && slices@[b].wf() && slices@[b].values()
                        == s.batches@[b].values(),
            decreases s.batches@.len() - i,
        {
            assert(batch_fits(s.batches@[i as int], s.inner_shape@));
            slices.push(NdArrayV::from_ndarray(s.batches[i].duplicate()));
            i = i + 1;
        }
        let out = SuperNdArrayV {
            slices,
            ndim: s.ndim,
            inner_shape: vstd::slice::slice_to_vec(s.inner_shape.as_slice()),
        };
        proof {
            assert(out.counts() =~= s.counts()) by {
                assert forall|b: int| 0 <= b < out.slices@.len() implies out.counts()[b] == s.counts()[b] by {
                    assert(out.slices@[b].dims.shape@ == s.batches@[b].dims.shape@);
                }
            }
            assert forall|b: int| 0 <= b < out.slices@.len() implies #[trigger] slice_fits(
                out.slices@[b],
                out.inner_shape@,
            ) by {
                assert(batch_fits(s.batches@[b], s.inner_shape@));
                assert(out.slices@[b].dims.shape@ == s.batches@[b].dims.shape@);
            }
            assert(out.full_shape() =~= s.full_shape());
            lemma_view_counts(&out);
            assert forall|k: int| 0 <= k < out.values().len() implies #[trigger] out.values()[k] == s.values()[k] by {
                let n = out.n_obs_s();
                crate::super_ndarray::lemma_split_pos(k, n, out.inner_len());
                lemma_locate(out.counts(), k % n);
            }
            assert(out.values() =~= s.values());
            assert forall|idx: Seq<int>| in_bounds(idx, s.full_shape()) implies #[trigger] out.elem(idx) == s.elem(
                idx,
            ) by {
                lemma_locate(out.counts(), idx[0]);
                let p = locate(out.counts(), idx[0]);
                assert(out.slices@[p.0].source.same(&s.batches@[p.0]));
            }
        }
        out
    }

    /// Appends `other`'s slices after this view's, moving them without
    /// copying elements. An empty side
    /// gives the other one; otherwise both must share rank and trailing
    /// shape.
    pub fn concat(self, other: Self) -> (r: Result<Self, MinarrowError>)
        requires
            self.wf(),
            other.wf(),
            self.slices@.len() > 0 && other.slices@.len() > 0 && self.ndim == other.ndim && self.inner_shape@
                == other.inner_shape@ ==> fits(seq![self.n_obs_s() + other.n_obs_s()] + self.inner_s()),
        ensures
            self.slices@.len() == 0 ==> r == Ok::<Self, MinarrowError>(other),
            self.slices@.len() > 0 && other.slices@.len() == 0 ==> r == Ok::<Self, MinarrowError>(self),
            self.slices@.len() > 0 && other.slices@.len() > 0 ==> (r is Ok <==> (self.ndim == other.ndim
                && self.inner_shape@ == other.inner_shape@)),
            r matches Err(e) ==> e is IncompatibleTypeError,
            (self.slices@.len() > 0 && other.slices@.len() > 0 && (self.ndim != other.ndim || self.inner_shape@
                != other.inner_shape@)) ==> (r matches Err(MinarrowError::IncompatibleTypeError { from, to, message: Some(m) })
                && from@ == "SuperNdArrayV"@ && to@ == "SuperNdArrayV"@ && m@ == "shape "@ + dims_text(self.full_shape())
                + " vs "@ + dims_text(other.full_shape())),
            r matches Ok(out) ==> out.wf(),
            (self.slices@.len() > 0 && other.slices@.len() > 0 && r is Ok) ==> (r matches Ok(out) && out.slices@
                == self.slices@ + other.slices@ && out.inner_shape@ == self.inner_shape@ && out.ndim == self.ndim),
    {
        if self.slices.len() == 0 {
            return Ok(other);
        }
        if other.slices.len() == 0 {
            return Ok(self);
        }
        if self.ndim != other.ndim || !same_usizes(self.inner_shape.as_slice(), other.inner_shape.as_slice()) {
            let mut message = String::from_str("shape ");
            let sa = self.shape();
            let sb = other.shape();
            append_dims(&mut message, sa.as_slice());
            message.append(" vs ");
            append_dims(&mut message, sb.as_slice());
            return Err(
                MinarrowError::IncompatibleTypeError {
                    from: String::from_str("SuperNdArrayV"),
                    to: String::from_str("SuperNdArrayV"),
                    message: Some(message),
                },
            );
        }
        let ghost ca = self.counts();
        let ghost cb = other.counts();
        let SuperNdArrayV { slices, ndim, inner_shape } = self;
        let mut a = slices;
        let mut b = other.slices;
        let ghost sa = a@;
        let ghost sb = b@;
        a.append(&mut b);
        let out = SuperNdArrayV { slices: a, ndim, inner_shape };
        proof {
            assert(out.slices@ =~= sa + sb);
            assert(view_counts(out.slices@) =~= ca + cb);
            lemma_total_split(ca + cb, ca.len() as int);
            assert((ca + cb).take(ca.len() as int) =~= ca);
            assert((ca + cb).skip(ca.len() as int) =~= cb);
            assert forall|i: int| 0 <= i < out.slices@.len() implies #[trigger] slice_fits(
                out.slices@[i],
                out.inner_shape@,
            ) by {
                if i < sa.len() {
                    assert(out.slices@[i] == sa[i]);
                } else {
                    assert(out.slices@[i] == sb[i - sa.len()]);
                    assert(slice_fits(sb[i - sa.len()], other.inner_shape@));
                }
            }
        }
        Ok(out)
    }

    /// One-line description: slice count, rank, shape and element count.
    pub fn describe(&self) -> (s: String)
        requires
            self.wf(),
        ensures
            s@ == "SuperNdArrayV: "@ + decimal(self.slices@.len()) + " slices, "@ + decimal(self.ndim as nat)
                + "D, shape "@ + dims_text(self.full_shape()) + ", "@ + decimal(prod(self.full_shape()) as nat)
                + " elements"@,
    {
        let mut s = String::from_str("SuperNdArrayV: ");
        append_usize(&mut s, self.slices.len());
        s.append(" slices, ");
        append_usize(&mut s, self.ndim);
        s.append("D, shape ");
        let shape = self.shape();
        append_dims(&mut s, shape.as_slice());
        s.append(", ");
        append_usize(&mut s, self.len());
        s.append(" elements");
        s
    }

    /// Logical equality: same rank, trailing shape and row count, and the
    /// same elements in column-major order, whatever the slice boundaries.
    pub fn equals(&self, other: &Self) -> (r: bool)
        where
            T: PartialEq,
        requires
            self.wf(),
            other.wf(),
        ensures
            <T as PartialEqSpec>::obeys_eq_spec() ==> (r <==> (self.ndim == other.ndim && self.inner_shape@
                == other.inner_shape@ && self.n_obs_s() == other.n_obs_s() && forall|k: int|
                0 <= k < self.values().len() ==> #[trigger] self.values()[k].eq_spec(&other.values()[k]))),
    {
        if self.ndim != other.ndim || !same_usizes(self.inner_shape.as_slice(), other.inner_shape.as_slice())
            || self.n_obs() != other.n_obs() {
            return false;
        }
        proof {
            lemma_view_counts(self);
            lemma_view_counts(other);
            assert(self.full_shape() =~= other.full_shape());
        }
        let a = self.duplicate().consolidate();
        let b = other.duplicate().consolidate();
        let va = a.to_vec();
        let vb = b.to_vec();
        let n = va.len();
        let mut k: usize = 0;
        while k < n
            invariant
                n == va@.len(),
                va@ == self.values(),
                vb@ == other.values(),
                self.values().len() == other.values().len(),
                k <= n,
                <T as PartialEqSpec>::obeys_eq_spec() ==> forall|i: int|
                    0 <= i < k ==> #[trigger] self.values()[i].eq_spec(&other.values()[i]),
            decreases n - k,
        {
            if !(va[k] == vb[k]) {
                return false;
            }
            k = k + 1;
        }
        true
    }
}


impl<T: Copy> SuperNdArrayV<T> {
    /// Number of rows a row selection chooses from.
    pub fn get_row_count(&self) -> (n: usize)
        requires
            self.wf(),
        ensures
            n == self.n_obs_s(),
    {
        self.n_obs()
    }

    /// Row selection across slice boundaries. A range narrows the window
    /// over the slices' shared parents without copying; an index list gathers the chosen rows, in order, into one
    /// owned array held as the single slice of the result.
    pub fn r<S: DataSelector>(&self, selection: S) -> (out: Self)
        requires
            self.wf(),
            self.rows_addressable(),
            picks_within(selection.picks(), self.n_obs_s()),
            fits(self.full_shape().update(0, selection.picks().len() as int)),
        ensures
            out.wf(),
            out.ndim == self.ndim,
            out.inner_shape@ == self.inner_shape@,
            self.slices@.len() == 0 ==> out.slices@.len() == 0,
            self.slices@.len() > 0 ==> out.n_obs_s() == selection.picks().len(),
            self.slices@.len() > 0 && !selection.is_range() ==> out.slices@.len() == 1,
            forall|j: Seq<int>|
                in_bounds(j, out.full_shape()) ==> #[trigger] out.elem(j) == self.elem(
                    j.update(0, selection.picks()[j[0]]),
                ),
    {
        proof {
            lemma_view_counts(self);
        }
        if self.slices.len() == 0 {
            let out = SuperNdArrayV::from_slices(
                Vec::new(),
                self.ndim,
                vstd::slice::slice_to_vec(self.inner_shape.as_slice()),
            );
            proof {
                assert(view_counts(out.slices@) =~= Seq::<int>::empty());
                assert(out.full_shape() =~= self.full_shape());
                assert forall|j: Seq<int>| in_bounds(j, out.full_shape()) implies #[trigger] out.elem(j) == self.elem(
                    j.update(0, selection.picks()[j[0]]),
                ) by {
                    assert(0 <= j[0] < out.full_shape()[0]);
                }
            }
            return out;
        }
        let ghost p = selection.picks();
        let n = self.n_obs();
        let indices = selection.resolve_indices(n);
        let k = indices.len();
        if selection.is_contiguous() {
            let start = if k > 0 { indices[0] } else { 0 };
            proof {
                if k > 0 {
                    assert(ints(indices@)[0] == indices@[0]);
                    assert(p[k - 1] == p[0] + k - 1);
                }
            }
            let out = self.slice(start, k);
            proof {
                assert forall|j: Seq<int>| in_bounds(j, out.full_shape()) implies #[trigger] out.elem(j) == self.elem(
                    j.update(0, p[j[0]]),
                ) by {
                    assert(p[j[0]] == p[0] + j[0]);
                    assert(j.update(0, j[0] + start) =~= j.update(0, p[j[0]]));
                }
            }
            return out;
        }
        let nd = self.duplicate().consolidate();
        proof {
            assert(nd.shape_s().update(0, p.len() as int) == self.full_shape().update(0, p.len() as int));
        }
        let v = nd.r(selection);
        let mut one: Vec<NdArrayV<T>> = Vec::new();
        one.push(v);
        proof {
            assert(view_counts(one@) =~= seq![k as int]);
            assert(total(seq![k as int]) == k + total(seq![k as int].drop_first()));
            assert(seq![k as int].drop_first() =~= Seq::<int>::empty());
            assert(v.shape_s() =~= seq![k as int] + self.inner_s());
            assert(v.dims.shape@.drop_first() =~= self.inner_shape@) by {
                assert forall|d: int| 0 <= d < self.inner_shape@.len() implies v.dims.shape@.drop_first()[d]
                    == self.inner_shape@[d] by {
                    assert(v.shape_s()[d + 1] == v.dims.shape@[d + 1]);
                }
            }
            assert(slice_fits(one@[0], self.inner_shape@));
            assert(seq![total(view_counts(one@))] + ints(self.inner_shape@) =~= self.full_shape().update(
                0,
                p.len() as int,
            ));
        }
        let out = SuperNdArrayV::from_slices(one, self.ndim, vstd::slice::slice_to_vec(self.inner_shape.as_slice()));
        proof {
            assert forall|j: Seq<int>| in_bounds(j, out.full_shape()) implies #[trigger] out.elem(j) == self.elem(
                j.update(0, p[j[0]]),
            ) by {
                assert(locate(seq![k as int], j[0]) == (0int, j[0]));
                assert(j.update(0, j[0]) =~= j);
                assert(out.elem(j) == v.elem(j));
                let src = j.update(0, p[j[0]]);
                assert(in_bounds(src, nd.shape_s())) by {
                    assert forall|d: int| 0 <= d < src.len() implies 0 <= #[trigger] src[d] < nd.shape_s()[d] by {
                        if d == 0 {
                            assert(ints(indices@)[j[0]] == indices@[j[0]]);
                        } else {
                            assert(out.full_shape()[d] == self.full_shape()[d]);
                        }
                    }
                }
                crate::ndarray::law_values_match_get(nd, src);
                lemma_view_values_elem(self, src);
            }
        }
        out
    }
}

impl<T: Copy> SuperNdArray<T> {
    /// Every batch's rows start at offsets that fit a `usize`.
    pub open spec fn rows_addressable(&self) -> bool {
        forall|b: int|
            0 <= b < self.batches@.len() ==> self.counts()[b] * (#[trigger] self.batches@[b]).dims.strides@[0]
                <= usize::MAX
    }

    /// Every position of every batch has an offset that fits a `usize`:
    /// the batch's shape dotted with its strides.
    pub open spec fn addressable(&self) -> bool {
        forall|b: int|
            0 <= b < self.batches@.len() ==> dot(
                (#[trigger] self.batches@[b]).shape_s(),
                self.batches@[b].strides_s(),
            ) <= usize::MAX
    }

    /// Window over global rows `[offset, offset + len)`, spanning batch
    /// boundaries, over one copy of each batch (see
    /// [`SuperNdArrayV::from_super`]).
    pub fn slice(&self, offset: usize, len: usize) -> (out: SuperNdArrayV<T>)
        requires
            self.wf(),
            self.rows_addressable(),
            offset + len <= self.n_obs_s(),
        ensures
            out.wf(),
            out.rows_addressable(),
            self.addressable() ==> out.addressable(),
            out.ndim == self.ndim,
            out.inner_shape@ == self.inner_shape@,
            out.n_obs_s() == len,
            forall|j: Seq<int>|
                in_bounds(j, out.full_shape()) ==> #[trigger] out.elem(j) == self.elem(j.update(0, j[0] + offset)),
    {
        let whole = SuperNdArrayV::from_super(self);
        proof {
            assert forall|b: int| 0 <= b < whole.slices@.len() implies (#[trigger] whole.slices@[b]).offset
                + whole.counts()[b] * whole.slices@[b].dims.strides@[0] <= usize::MAX by {
                assert(self.counts()[b] * self.batches@[b].dims.strides@[0] <= usize::MAX);
            }
            if self.addressable() {
                assert forall|b: int| 0 <= b < whole.slices@.len() implies (#[trigger] whole.slices@[b]).offset
                    + dot(whole.slices@[b].shape_s(), whole.slices@[b].strides_s()) <= usize::MAX by {
                    assert(dot(self.batches@[b].shape_s(), self.batches@[b].strides_s()) <= usize::MAX);
                }
            }
        }
        let out = whole.slice(offset, len);
        proof {
            assert forall|j: Seq<int>| in_bounds(j, out.full_shape()) implies #[trigger] out.elem(j) == self.elem(
                j.update(0, j[0] + offset),
            ) by {
                let src = j.update(0, j[0] + offset);
                assert(in_bounds(src, self.full_shape())) by {
                    assert forall|d: int| 0 <= d < src.len() implies 0 <= #[trigger] src[d] < self.full_shape()[d] by {
                        if d > 0 {
                            assert(out.full_shape()[d] == self.full_shape()[d]);
                        }
                    }
                }
            }
        }
        out
    }

    /// Row selection across batch boundaries. A range gives a window over
    /// one copy of each batch (see [`SuperNdArrayV::from_super`]); an index
    /// list gathers the chosen rows, in order, into one
    /// owned array held as the single slice of the result.
    pub fn r<S: DataSelector>(&self, selection: S) -> (out: SuperNdArrayV<T>)
        requires
            self.wf(),
            self.rows_addressable(),
            picks_within(selection.picks(), self.n_obs_s()),
            fits(self.full_shape().update(0, selection.picks().len() as int)),
        ensures
            out.wf(),
            out.ndim == self.ndim,
            out.inner_shape@ == self.inner_shape@,
            self.batches@.len() == 0 ==> out.slices@.len() == 0,
            self.batches@.len() > 0 ==> out.n_obs_s() == selection.picks().len(),
            self.batches@.len() > 0 && !selection.is_range() ==> out.slices@.len() == 1,
            forall|j: Seq<int>|
                in_bounds(j, out.full_shape()) ==> #[trigger] out.elem(j) == self.elem(
                    j.update(0, selection.picks()[j[0]]),
                ),
    {
        let whole = SuperNdArrayV::from_super(self);
        proof {
            assert forall|b: int| 0 <= b < whole.slices@.len() implies (#[trigger] whole.slices@[b]).offset
                + whole.counts()[b] * whole.slices@[b].dims.strides@[0] <= usize::MAX by {
                assert(self.counts()[b] * self.batches@[b].dims.strides@[0] <= usize::MAX);
            }
        }
        let out = whole.r(selection);
        proof {
            assert forall|j: Seq<int>| in_bounds(j, out.full_shape()) implies #[trigger] out.elem(j) == self.elem(
                j.update(0, selection.picks()[j[0]]),
            ) by {
                let src = j.update(0, selection.picks()[j[0]]);
                assert(in_bounds(src, self.full_shape())) by {
                    assert forall|d: int| 0 <= d < src.len() implies 0 <= #[trigger] src[d] < self.full_shape()[d] by {
                        if d > 0 {
                            assert(out.full_shape()[d] == self.full_shape()[d]);
                        }
                    }
                }
            }
        }
        out
    }
}


/// The slices' own elements, slice after slice, each in its column-major
/// order.
pub open spec fn slice_values<T>(vs: Seq<NdArrayV<T>>) -> Seq<T>
    decreases vs.len(),
{
    if vs.len() == 0 {
        Seq::empty()
    } else {
        slice_values(vs.drop_last()) + vs.last().values()
    }
}

impl<T: Copy> SuperNdArrayV<T> {
    /// Every slice's elements in turn, each slice in its own column-major
    /// order.
    pub fn to_vec(&self) -> (out: Vec<T>)
        requires
            self.wf(),
        ensures
            out@ == slice_values(self.slices@),
    {
        proof {
            lemma_view_counts(self);
        }
        let mut out: Vec<T> = Vec::new();
        let mut i: usize = 0;
        assert(self.slices@.take(0) =~= Seq::<NdArrayV<T>>::empty());
        while i < self.slices.len()
            invariant
                self.wf(),
                forall|b: int|
                    0 <= b < self.slices@.len() ==> #[trigger] self.slices@[b].shape_s() == seq![self.counts()[b]]
                        + self.inner_s() && self.slices@[b].wf(),
                i <= self.slices@.len(),
                out@ == slice_values(self.slices@.take(i as int)),
            decreases self.slices@.len() - i,
        {
            assert(self.slices@[i as int].shape_s() == seq![self.counts()[i as int]] + self.inner_s());
            let mut part = self.slices[i].to_vec();
            out.append(&mut part);
            proof {
                assert(self.slices@.take(i as int + 1).drop_last() =~= self.slices@.take(i as int));
                assert(self.slices@.take(i as int + 1).last() == self.slices@[i as int]);
            }
            i = i + 1;
        }
        assert(self.slices@.take(self.slices@.len() as int) =~= self.slices@);
        out
    }
}


impl<T: Copy> SuperNdArray<T> {
    /// Logical equality: same rank, trailing shape and row count, and the
    /// same elements in column-major order, whatever the batch boundaries,
    /// layouts and names.
    pub fn equals(&self, other: &Self) -> (r: bool)
        where
            T: PartialEq,
        requires
            self.wf(),
            other.wf(),
        ensures
            <T as PartialEqSpec>::obeys_eq_spec() ==> (r <==> (self.ndim == other.ndim && self.inner_shape@
                == other.inner_shape@ && self.n_obs_s() == other.n_obs_s() && forall|k: int|
                0 <= k < self.values().len() ==> #[trigger] self.values()[k].eq_spec(&other.values()[k]))),
    {
        let a = SuperNdArrayV::from_super(self);
        let b = SuperNdArrayV::from_super(other);
        a.equals(&b)
    }
}

} // verus!
