//! # SuperNdArray - chunked n-dimensional array
//!
//! Batches of [`NdArray`] that share their rank and every dimension but
//! the leading one, read as one array whose axis 0 runs through the
//! batches in order. Element access, consolidation and rechunking resolve
//! chunk boundaries internally.

use vstd::prelude::*;

use crate::error::{append_dims, append_usize, decimal, dims_text, MinarrowError};
use crate::layout::{dot, fits, in_bounds, ints, lemma_prod_nonneg, nonneg, prod, shape_len};
use crate::ndarray::NdArray;
use crate::ndarray_view::NdArrayV;

verus! {

/// How to redistribute rows across batches.
#[derive(Clone, Copy, Debug, PartialEq)]
pub enum RechunkStrategy {
    /// Batches of the given number of leading-axis rows (the last one may
    /// be shorter).
    Count(usize),
    /// Batches of 8192 leading-axis rows.
    Auto,
}

/// Sum of the counts.
pub open spec fn total(c: Seq<int>) -> int
    decreases c.len(),
{
    if c.len() == 0 {
        0
    } else {
        c[0] + total(c.drop_first())
    }
}

/// The batch that holds global row `r` when batches hold `c[b]` rows each,
/// and the row's position inside it.
pub open spec fn locate(c: Seq<int>, r: int) -> (int, int)
    decreases c.len(),
{
    if c.len() == 0 || r < c[0] {
        (0, r)
    } else {
        let p = locate(c.drop_first(), r - c[0]);
        (p.0 + 1, p.1)
    }
}

/// A row inside the total lands inside one batch.
pub proof fn lemma_locate(c: Seq<int>, r: int)
    requires
        nonneg(c),
        0 <= r < total(c),
    ensures
        0 <= locate(c, r).0 < c.len(),
        0 <= locate(c, r).1 < c[locate(c, r).0],
    decreases c.len(),
{
    if c.len() > 0 && r >= c[0] {
        assert(nonneg(c.drop_first())) by {
            assert forall|i: int| 0 <= i < c.drop_first().len() implies c.drop_first()[i] >= 0 by {
                assert(c[i + 1] >= 0);
            }
        }
        lemma_locate(c.drop_first(), r - c[0]);
    }
}

/// The total of non-negative counts is non-negative.
pub proof fn lemma_total_nonneg(c: Seq<int>)
    requires
        nonneg(c),
    ensures
        total(c) >= 0,
    decreases c.len(),
{
    if c.len() > 0 {
        assert(nonneg(c.drop_first())) by {
            assert forall|i: int| 0 <= i < c.drop_first().len() implies c.drop_first()[i] >= 0 by {
                assert(c[i + 1] >= 0);
            }
        }
        lemma_total_nonneg(c.drop_first());
    }
}

/// A suffix of non-negative counts is non-negative.
pub proof fn lemma_skip_nonneg(c: Seq<int>, i: int)
    requires
        nonneg(c),
        0 <= i <= c.len(),
    ensures
        nonneg(c.skip(i)),
{
    assert forall|j: int| 0 <= j < c.skip(i).len() implies c.skip(i)[j] >= 0 by {
        assert(c[i + j] >= 0);
    }
}

/// Appending a count adds it to the total.
pub proof fn lemma_total_push(c: Seq<int>, x: int)
    ensures
        total(c.push(x)) == total(c) + x,
    decreases c.len(),
{
    assert(c.push(x)[0] == if c.len() == 0 {
        x
    } else {
        c[0]
    });
    if c.len() == 0 {
        assert(c.push(x).drop_first() =~= Seq::<int>::empty());
        assert(total(Seq::<int>::empty()) == 0);
    } else {
        assert(c.push(x).drop_first() =~= c.drop_first().push(x));
        lemma_total_push(c.drop_first(), x);
    }
}

/// Splitting after `i` counts splits the total.
pub proof fn lemma_total_split(c: Seq<int>, i: int)
    requires
        0 <= i <= c.len(),
    ensures
        total(c) == total(c.take(i)) + total(c.skip(i)),
    decreases i,
{
    if i > 0 {
        lemma_total_split(c, i - 1);
        assert(c.take(i) =~= c.take(i - 1).push(c[i - 1]));
        lemma_total_push(c.take(i - 1), c[i - 1]);
        assert(c.skip(i - 1).drop_first() =~= c.skip(i));
    } else {
        assert(c.take(0) =~= Seq::<int>::empty());
        assert(c.skip(0) =~= c);
    }
}

/// Leading-axis rows of each of a sequence of batches.
pub open spec fn counts_of<T>(bs: Seq<NdArray<T>>) -> Seq<int> {
    Seq::new(bs.len(), |b: int| bs[b].shape_s()[0])
}

/// Element at row `r` and trailing position `c` of a column-major
/// sequence with `n` rows.
pub open spec fn cell<T>(s: Seq<T>, n: int, r: int, c: int) -> T {
    s[r + n * c]
}

/// A batch that fits the shared trailing shape.
pub open spec fn batch_fits<T>(a: NdArray<T>, inner: Seq<usize>) -> bool {
    &&& a.wf()
    &&& a.dims.shape@.len() == inner.len() + 1
    &&& a.dims.shape@.drop_first() == inner
}

/// Chunked n-dimensional array: batches that agree on rank and on every
/// dimension but the leading one.
#[derive(Debug)]
pub struct SuperNdArray<T> {
    pub batches: Vec<NdArray<T>>,
    pub ndim: usize,
    pub inner_shape: Vec<usize>,
    pub name: String,
}

impl<T> SuperNdArray<T> {
    /// Leading-axis rows of each batch.
    pub open spec fn counts(&self) -> Seq<int> {
        counts_of(self.batches@)
    }

    /// Total leading-axis rows.
    pub open spec fn n_obs_s(&self) -> int {
        total(self.counts())
    }

    pub open spec fn inner_s(&self) -> Seq<int> {
        ints(self.inner_shape@)
    }

    /// The shape of the array the batches make: total rows, then the
    /// trailing shape.
    pub open spec fn full_shape(&self) -> Seq<int> {
        seq![self.n_obs_s()] + self.inner_s()
    }

    /// Number of positions of the trailing shape.
    pub open spec fn inner_len(&self) -> int {
        prod(self.inner_s())
    }

    /// Well-formed: each batch is well formed with rank `ndim` and the
    /// shared trailing shape, an empty array has rank 0, and the whole
    /// shape fits in a `usize`.
    pub open spec fn wf(&self) -> bool {
        &&& self.batches@.len() == 0 ==> self.ndim == 0 && self.inner_shape@.len() == 0
        &&& self.batches@.len() > 0 ==> self.ndim == self.inner_shape@.len() + 1
        &&& forall|b: int| 0 <= b < self.batches@.len() ==> #[trigger] batch_fits(self.batches@[b], self.inner_shape@)
        &&& fits(self.full_shape())
    }

    /// Element at row `r` (global) and trailing position `c`, in the
    /// batch's own column-major order.
    pub open spec fn value_at(&self, r: int, c: int) -> T {
        let p = locate(self.counts(), r);
        self.batches@[p.0].values()[p.1 + self.counts()[p.0] * c]
    }

    /// The logical elements of the whole array in column-major order.
    pub open spec fn values(&self) -> Seq<T> {
        Seq::new(
            prod(self.full_shape()) as nat,
            |k: int| self.value_at(k % self.n_obs_s(), k / self.n_obs_s()),
        )
    }

    /// The element at a global multi-index: its row resolved to a batch.
    pub open spec fn elem(&self, idx: Seq<int>) -> T {
        let p = locate(self.counts(), idx[0]);
        self.batches@[p.0].elem(idx.update(0, p.1))
    }
}

/// What well-formedness gives: non-negative counts, each batch well formed
/// with shape `[its rows] + trailing shape`, a row total that fits, and the
/// element count as rows times trailing positions.
pub proof fn lemma_counts_nonneg<T>(a: &SuperNdArray<T>)
    requires
        a.wf(),
    ensures
        nonneg(a.counts()),
        forall|b: int|
            0 <= b < a.batches@.len() ==> #[trigger] a.batches@[b].shape_s() == seq![a.counts()[b]] + a.inner_s()
                && a.batches@[b].wf(),
        0 <= a.n_obs_s(),
        a.n_obs_s() <= usize::MAX,
        a.inner_len() >= 0,
        prod(a.full_shape()) == a.n_obs_s() * a.inner_len(),
        a.full_shape()[0] == a.n_obs_s(),
        a.full_shape().drop_first() == a.inner_s(),
{
    assert forall|b: int| 0 <= b < a.batches@.len() implies #[trigger] a.batches@[b].shape_s() == seq![a.counts()[b]]
        + a.inner_s() && a.batches@[b].wf() by {
        assert(batch_fits(a.batches@[b], a.inner_shape@));
        assert(a.batches@[b].shape_s() =~= seq![a.counts()[b]] + a.inner_s());
    }
    assert forall|b: int| 0 <= b < a.counts().len() implies a.counts()[b] >= 0 by {
        assert(batch_fits(a.batches@[b], a.inner_shape@));
    }
    let f = a.full_shape();
    assert(f.drop_first() =~= a.inner_s());
    assert(f.take(1) =~= seq![a.n_obs_s()]);
    assert(seq![a.n_obs_s()].drop_first() =~= Seq::<int>::empty());
    assert(prod(f.take(1)) <= usize::MAX);
    assert(prod(seq![a.n_obs_s()]) == a.n_obs_s() * prod(Seq::<int>::empty()));
    assert(prod(Seq::<int>::empty()) == 1);
    assert(a.n_obs_s() * prod(Seq::<int>::empty()) == a.n_obs_s()) by (nonlinear_arith)
        requires
            prod(Seq::<int>::empty()) == 1,
    ;
    assert(prod(f.take(1)) == a.n_obs_s());
    assert(f.len() >= 1);
    lemma_total_nonneg(a.counts());
    crate::layout::lemma_ints_nonneg(a.inner_shape@);
    lemma_prod_nonneg(a.inner_s());
}

impl<T: Copy> SuperNdArray<T> {
    /// An empty chunked array.
    pub fn new(name: &str) -> (out: Self)
        ensures
            out.wf(),
            out.batches@.len() == 0,
            out.name@ == name@,
    {
        let out = SuperNdArray { batches: Vec::new(), ndim: 0, inner_shape: Vec::new(), name: name.to_string() };
        proof {
            assert(out.counts() =~= Seq::<int>::empty());
            assert(total(Seq::<int>::empty()) == 0);
            assert(out.inner_s() =~= Seq::<int>::empty());
            assert(prod(seq![0int]) == 0 * prod(seq![0int].drop_first()));
            assert(out.full_shape() =~= seq![0int]);
            assert(out.full_shape().take(0) =~= Seq::<int>::empty());
            assert(out.full_shape().take(1) =~= seq![0int]);
            assert(seq![0int].drop_first() =~= Seq::<int>::empty());
        }
        out
    }

    /// Number of batches.
    pub fn n_batches(&self) -> (n: usize)
        ensures
            n == self.batches@.len(),
    {
        self.batches.len()
    }

    /// Shared rank.
    pub fn ndim(&self) -> (n: usize)
        ensures
            n == self.ndim,
    {
        self.ndim
    }

    /// Shared trailing shape.
    pub fn inner_shape(&self) -> (s: &[usize])
        ensures
            s@ == self.inner_shape@,
    {
        self.inner_shape.as_slice()
    }

    /// Batch `idx`, if there is one.
    pub fn batch(&self, idx: usize) -> (r: Option<&NdArray<T>>)
        ensures
            idx < self.batches@.len() ==> r == Some(&self.batches@[idx as int]),
            idx >= self.batches@.len() ==> r is None,
    {
        if idx < self.batches.len() {
            Some(&self.batches[idx])
        } else {
            None
        }
    }

    /// The batches.
    pub fn batches(&self) -> (s: &[NdArray<T>])
        ensures
            s@ == self.batches@,
    {
        self.batches.as_slice()
    }

    /// Consume into the batches.
    pub fn into_batches(self) -> (v: Vec<NdArray<T>>)
        ensures
            v == self.batches,
    {
        self.batches
    }

    /// Total leading-axis rows across all batches.
    pub fn n_obs(&self) -> (n: usize)
        requires
            self.wf(),
        ensures
            n == self.n_obs_s(),
    {
        let ghost c = self.counts();
        proof {
            lemma_counts_nonneg(self);
            lemma_total_split(c, 0);
            assert(c.take(0) =~= Seq::<int>::empty());
        }
        let mut acc: usize = 0;
        let mut i: usize = 0;
        while i < self.batches.len()
            invariant
                self.wf(),
                c == self.counts(),
                nonneg(c),
                total(c) <= usize::MAX,
                i <= c.len(),
                acc == total(c.take(i as int)),
            decreases c.len() - i,
        {
            proof {
                lemma_total_split(c, i as int + 1);
                lemma_skip_nonneg(c, i as int + 1);
                lemma_total_nonneg(c.skip(i as int + 1));
                assert(c.take(i as int + 1) =~= c.take(i as int).push(c[i as int]));
                lemma_total_push(c.take(i as int), c[i as int]);
                assert(self.batches@[i as int].dims.shape@.len() >= 1) by {
                    assert(batch_fits(self.batches@[i as int], self.inner_shape@));
                }
            }
            acc = acc + self.batches[i].dims.shape[0];
            i = i + 1;
        }
        proof {
            assert(c.take(c.len() as int) =~= c);
        }
        acc
    }

    /// Shape of the whole array: total rows, then the trailing shape.
    pub fn shape(&self) -> (s: Vec<usize>)
        requires
            self.wf(),
        ensures
            ints(s@) == self.full_shape(),
    {
        let mut s: Vec<usize> = Vec::new();
        s.push(self.n_obs());
        let mut i: usize = 0;
        while i < self.inner_shape.len()
            invariant
                i <= self.inner_shape@.len(),
                s@.len() == i + 1,
                s@[0] == self.n_obs_s(),
                forall|k: int| 0 <= k < i ==> #[trigger] s@[k + 1] == self.inner_shape@[k],
            decreases self.inner_shape@.len() - i,
        {
            s.push(self.inner_shape[i]);
            i = i + 1;
        }
        proof {
            assert forall|j: int| 0 <= j < s@.len() implies ints(s@)[j] == self.full_shape()[j] by {
                if j > 0 {
                    assert(s@[(j - 1) + 1] == self.inner_shape@[j - 1]);
                }
            }
            assert(ints(s@) =~= self.full_shape());
        }
        s
    }

    /// Total logical elements.
    pub fn len(&self) -> (n: usize)
        requires
            self.wf(),
        ensures
            n == prod(self.full_shape()),
    {
        let s = self.shape();
        shape_len(s.as_slice())
    }

    pub fn is_empty(&self) -> (b: bool)
        requires
            self.wf(),
        ensures
            b == (prod(self.full_shape()) == 0),
    {
        self.len() == 0
    }

    /// Strides of the first batch (none for an empty array). Strides above
    /// axis 0 depend on each batch's row count, so they describe that batch
    /// only.
    pub fn strides(&self) -> (s: &[usize])
        ensures
            self.batches@.len() > 0 ==> s@ == self.batches@[0].dims.strides@,
            self.batches@.len() == 0 ==> s@.len() == 0,
    {
        if self.batches.len() == 0 {
            return &[];
        }
        self.batches[0].strides()
    }

    /// Batch and row within it of global row `global`; an index error past
    /// the last row.
    pub fn try_resolve(&self, global: usize) -> (r: Result<(usize, usize), MinarrowError>)
        requires
            self.wf(),
        ensures
            r is Ok <==> global < self.n_obs_s(),
            r matches Ok(p) ==> p.0 == locate(self.counts(), global as int).0 && p.1 == locate(
                self.counts(),
                global as int,
            ).1,
            r matches Err(e) ==> e is IndexError && e->IndexError_0@ == "global index "@ + decimal(global as nat)
                + " out of bounds (n_obs "@ + decimal(self.n_obs_s() as nat) + ")"@,
    {
        let ghost c = self.counts();
        proof {
            lemma_counts_nonneg(self);
            assert(c.skip(0) =~= c);
        }
        let mut remaining: usize = global;
        let mut i: usize = 0;
        while i < self.batches.len()
            invariant
                self.wf(),
                c == self.counts(),
                nonneg(c),
                i <= c.len(),
                locate(c, global as int) == (i + locate(c.skip(i as int), remaining as int).0, locate(
                    c.skip(i as int),
                    remaining as int,
                ).1),
                global < total(c) <==> remaining < total(c.skip(i as int)),
            decreases c.len() - i,
        {
            assert(c.skip(i as int).drop_first() =~= c.skip(i as int + 1));
            assert(c.skip(i as int)[0] == c[i as int]);
            assert(batch_fits(self.batches@[i as int], self.inner_shape@));
            let n = self.batches[i].dims.shape[0];
            if remaining < n {
                proof {
                    lemma_skip_nonneg(c, i as int + 1);
                    lemma_total_nonneg(c.skip(i as int + 1));
                }
                return Ok((i, remaining));
            }
            remaining = remaining - n;
            i = i + 1;
        }
        assert(c.skip(i as int) =~= Seq::<int>::empty());
        let mut message = String::from_str("global index ");
        append_usize(&mut message, global);
        message.append(" out of bounds (n_obs ");
        append_usize(&mut message, self.n_obs());
        message.append(")");
        Err(MinarrowError::IndexError(message))
    }

    /// Batch and row within it of global row `global`, which must exist.
    fn resolve(&self, global: usize) -> (p: (usize, usize))
        requires
            self.wf(),
            global < self.n_obs_s(),
        ensures
            p.0 == locate(self.counts(), global as int).0,
            p.1 == locate(self.counts(), global as int).1,
            p.0 < self.batches@.len(),
            p.1 < self.counts()[p.0 as int],
    {
        proof {
            lemma_counts_nonneg(self);
            lemma_locate(self.counts(), global as int);
        }
        match self.try_resolve(global) {
            Ok(p) => p,
            Err(_) => (0, 0),
        }
    }

    /// The element at a global N-dimensional index: the leading index
    /// counts rows across batches.
    pub fn get(&self, indices: &[usize]) -> (v: T)
        requires
            self.wf(),
            in_bounds(ints(indices@), self.full_shape()),
        ensures
            v == self.elem(ints(indices@)),
    {
        proof {
            lemma_counts_nonneg(self);
            assert(0 <= ints(indices@)[0] < self.full_shape()[0]);
        }
        let (b, l) = self.resolve(indices[0]);
        let mut local = vstd::slice::slice_to_vec(indices);
        local.set(0, l);
        proof {
            assert(self.batches@[b as int].shape_s() == seq![self.counts()[b as int]] + self.inner_s());
            assert(ints(local@) =~= ints(indices@).update(0, l as int));
            let s = self.batches@[b as int].shape_s();
            assert forall|d: int| 0 <= d < ints(local@).len() implies 0 <= #[trigger] ints(local@)[d] < s[d] by {
                if d > 0 {
                    assert(ints(indices@)[d] < self.full_shape()[d]);
                }
            }
        }
        self.batches[b].get(local.as_slice())
    }

    /// Overwrite the element at a global N-dimensional index.
    pub fn set(&mut self, indices: &[usize], value: T)
        requires
            old(self).wf(),
            in_bounds(ints(indices@), old(self).full_shape()),
        ensures
            final(self).wf(),
            final(self).name == old(self).name,
            final(self).batches@.len() == old(self).batches@.len(),
            final(self).counts() == old(self).counts(),
            ({
                let p = locate(old(self).counts(), indices@[0] as int);
                &&& forall|b: int|
                    0 <= b < old(self).batches@.len() && b != p.0 ==> #[trigger] final(self).batches@[b]
                        == old(self).batches@[b]
                &&& final(self).batches@[p.0].dims.shape@ == old(self).batches@[p.0].dims.shape@
                &&& final(self).batches@[p.0].dims.strides@ == old(self).batches@[p.0].dims.strides@
                &&& final(self).batches@[p.0].name == old(self).batches@[p.0].name
                &&& final(self).batches@[p.0].data@ == old(self).batches@[p.0].data@.update(
                    dot(ints(indices@).update(0, p.1), old(self).batches@[p.0].strides_s()),
                    value,
                )
            }),
    {
        proof {
            lemma_counts_nonneg(&*self);
            assert(0 <= ints(indices@)[0] < old(self).full_shape()[0]);
        }
        let (b, l) = self.resolve(indices[0]);
        let mut local = vstd::slice::slice_to_vec(indices);
        local.set(0, l);
        proof {
            assert(self.batches@[b as int].shape_s() == seq![self.counts()[b as int]] + self.inner_s());
            assert(ints(local@) =~= ints(indices@).update(0, l as int));
            let s = self.batches@[b as int].shape_s();
            assert forall|d: int| 0 <= d < ints(local@).len() implies 0 <= #[trigger] ints(local@)[d] < s[d] by {
                if d > 0 {
                    assert(ints(indices@)[d] < old(self).full_shape()[d]);
                }
            }
        }
        let mut batches: Vec<NdArray<T>> = Vec::new();
        std::mem::swap(&mut batches, &mut self.batches);
        let ghost before = batches@;
        let mut target = batches.remove(b);
        target.set(local.as_slice(), value);
        batches.insert(b, target);
        self.batches = batches;
        proof {
            assert forall|k: int| 0 <= k < before.len() && k != b implies #[trigger] self.batches@[k] == before[k] by {}
            assert(self.counts() =~= old(self).counts());
            assert forall|k: int| 0 <= k < self.batches@.len() implies #[trigger] batch_fits(
                self.batches@[k],
                self.inner_shape@,
            ) by {
                assert(batch_fits(before[k], self.inner_shape@));
            }
            assert(self.full_shape() =~= old(self).full_shape());
        }
    }
}

/// Row `r` and trailing position `c` of a column-major layout with `n`
/// rows sit at `r + n * c`, and that position splits back into them.
pub proof fn lemma_row_col(r: int, c: int, n: int)
    requires
        0 <= r < n,
        0 <= c,
    ensures
        (r + n * c) % n == r,
        (r + n * c) / n == c,
{
    assert(r + n * c == c * n + r) by (nonlinear_arith);
    vstd::arithmetic::div_mod::lemma_fundamental_div_mod_converse(r + n * c, n, c, r);
}

/// A position inside `n * p` elements has a row below `n` and a trailing
/// position below `p`.
pub proof fn lemma_split_pos(k: int, n: int, p: int)
    requires
        0 <= k < n * p,
        n > 0,
    ensures
        0 <= k % n < n,
        0 <= k / n < p,
        k == k % n + n * (k / n),
{
    vstd::arithmetic::div_mod::lemma_fundamental_div_mod(k, n);
    vstd::arithmetic::div_mod::lemma_mod_pos_bound(k, n);
    assert(0 <= k / n) by {
        vstd::arithmetic::div_mod::lemma_div_pos_is_pos(k, n);
    }
    assert(k / n < p) by (nonlinear_arith)
        requires
            k == n * (k / n) + k % n,
            0 <= k % n,
            k < n * p,
            n > 0,
    ;
}

/// An element at row `l` and trailing position `c` of a batch with `n`
/// rows and `p` trailing positions lies inside its `n * p` elements.
pub proof fn lemma_in_batch(l: int, c: int, n: int, p: int)
    requires
        0 <= l < n,
        0 <= c < p,
    ensures
        0 <= l + n * c < n * p,
{
    assert(0 <= l + n * c < n * p) by (nonlinear_arith)
        requires
            0 <= l < n,
            0 <= c < p,
    ;
}

/// One batch's count is at most the total.
pub proof fn lemma_count_le_total(c: Seq<int>, b: int)
    requires
        nonneg(c),
        0 <= b < c.len(),
    ensures
        c[b] <= total(c),
    decreases c.len(),
{
    let rest = c.drop_first();
    assert(nonneg(rest)) by {
        assert forall|i: int| 0 <= i < rest.len() implies rest[i] >= 0 by {
            assert(c[i + 1] >= 0);
        }
    }
    lemma_total_nonneg(rest);
    if b > 0 {
        lemma_count_le_total(rest, b - 1);
    }
}

/// The batch that `locate` finds starts at the total of the batches
/// before it.
pub proof fn lemma_locate_start(c: Seq<int>, r: int)
    requires
        nonneg(c),
        0 <= r < total(c),
    ensures
        total(c.take(locate(c, r).0)) + locate(c, r).1 == r,
    decreases c.len(),
{
    if c.len() > 0 && r >= c[0] {
        let rest = c.drop_first();
        assert(nonneg(rest)) by {
            assert forall|i: int| 0 <= i < rest.len() implies rest[i] >= 0 by {
                assert(c[i + 1] >= 0);
            }
        }
        lemma_locate_start(rest, r - c[0]);
        lemma_locate(rest, r - c[0]);
        let q = locate(rest, r - c[0]).0;
        assert(c.take(q + 1).drop_first() =~= rest.take(q));
        assert(c.take(q + 1)[0] == c[0]);
    } else {
        assert(c.take(0) =~= Seq::<int>::empty());
    }
}

impl<T: Copy> SuperNdArray<T> {
    /// From batches that share rank (at least one) and trailing shape.
    pub fn from_batches(batches: Vec<NdArray<T>>, name: &str) -> (out: Self)
        requires
            forall|b: int| 0 <= b < batches@.len() ==> #[trigger] batches@[b].wf(),
            batches@.len() > 0 ==> batches@[0].dims.shape@.len() >= 1,
            forall|b: int|
                0 <= b < batches@.len() ==> (#[trigger] batches@[b]).dims.shape@.drop_first()
                    == batches@[0].dims.shape@.drop_first() && batches@[b].dims.shape@.len()
                    == batches@[0].dims.shape@.len(),
            batches@.len() > 0 ==> fits(
                seq![total(Seq::new(batches@.len(), |b: int| batches@[b].shape_s()[0]))] + ints(
                    batches@[0].dims.shape@.drop_first(),
                ),
            ),
        ensures
            out.wf(),
            out.batches == batches,
            out.name@ == name@,
            batches@.len() > 0 ==> out.inner_shape@ == batches@[0].dims.shape@.drop_first(),
    {
        if batches.len() == 0 {
            let out = Self::new(name);
            proof {
                assert(out.batches@ =~= batches@);
            }
            return SuperNdArray { batches, ndim: 0, inner_shape: out.inner_shape, name: out.name };
        }
        let shape0 = batches[0].shape();
        let ndim = shape0.len();
        let inner_shape = vstd::slice::slice_to_vec(vstd::slice::slice_subrange(shape0, 1, ndim));
        let out = SuperNdArray { batches, ndim, inner_shape, name: name.to_string() };
        proof {
            assert(out.inner_shape@ =~= out.batches@[0].dims.shape@.drop_first());
            assert forall|b: int| 0 <= b < out.batches@.len() implies #[trigger] batch_fits(
                out.batches@[b],
                out.inner_shape@,
            ) by {
                assert(out.batches@[b].dims.shape@.drop_first() == out.batches@[0].dims.shape@.drop_first());
            }
        }
        out
    }

    /// Append a batch with the shared rank and trailing shape (any rank of
    /// at least one when the array is empty).
    pub fn push(&mut self, chunk: NdArray<T>)
        requires
            old(self).wf(),
            chunk.wf(),
            chunk.dims.shape@.len() >= 1,
            old(self).batches@.len() > 0 ==> chunk.dims.shape@.len() == old(self).ndim
                && chunk.dims.shape@.drop_first() == old(self).inner_shape@,
            fits(seq![old(self).n_obs_s() + chunk.shape_s()[0]] + ints(chunk.dims.shape@.drop_first())),
        ensures
            final(self).wf(),
            final(self).batches@ == old(self).batches@.push(chunk),
            final(self).name == old(self).name,
    {
        if self.batches.len() == 0 {
            let shape = chunk.shape();
            self.ndim = shape.len();
            self.inner_shape = vstd::slice::slice_to_vec(vstd::slice::slice_subrange(shape, 1, shape.len()));
            assert(self.inner_shape@ =~= chunk.dims.shape@.drop_first());
        }
        let ghost c0 = old(self).counts();
        self.batches.push(chunk);
        proof {
            assert(self.counts() =~= c0.push(chunk.shape_s()[0]));
            lemma_total_push(c0, chunk.shape_s()[0]);
            assert forall|b: int| 0 <= b < self.batches@.len() implies #[trigger] batch_fits(
                self.batches@[b],
                self.inner_shape@,
            ) by {
                if b < old(self).batches@.len() {
                    assert(batch_fits(old(self).batches@[b], old(self).inner_shape@));
                }
            }
            assert(ints(chunk.dims.shape@.drop_first()) =~= self.inner_s());
        }
    }

    /// Every logical element of the whole array in column-major order.
    fn gather_values(&self) -> (out: Vec<T>)
        requires
            self.wf(),
        ensures
            out@ == self.values(),
    {
        let ghost c = self.counts();
        proof {
            lemma_counts_nonneg(self);
        }
        let mut per_batch: Vec<Vec<T>> = Vec::new();
        let mut b: usize = 0;
        while b < self.batches.len()
            invariant
                self.wf(),
                b <= self.batches@.len(),
                per_batch@.len() == b,
                forall|i: int| 0 <= i < b ==> #[trigger] per_batch@[i]@ == self.batches@[i].values(),
                forall|i: int|
                    0 <= i < self.batches@.len() ==> #[trigger] self.batches@[i].shape_s() == seq![c[i]]
                        + self.inner_s() && self.batches@[i].wf(),
                c == self.counts(),
            decreases self.batches@.len() - b,
        {
            assert(self.batches@[b as int].shape_s() == seq![c[b as int]] + self.inner_s());
            per_batch.push(self.batches[b].to_vec());
            b = b + 1;
        }
        let n = self.n_obs();
        let total_len = self.len();
        let mut out: Vec<T> = Vec::new();
        let mut k: usize = 0;
        while k < total_len
            invariant
                self.wf(),
                c == self.counts(),
                nonneg(c),
                n == self.n_obs_s(),
                total_len == prod(self.full_shape()),
                total_len == n * self.inner_len(),
                self.inner_len() >= 0,
                per_batch@.len() == self.batches@.len(),
                forall|i: int| 0 <= i < self.batches@.len() ==> #[trigger] per_batch@[i]@ == self.batches@[i].values(),
                forall|i: int|
                    0 <= i < self.batches@.len() ==> #[trigger] self.batches@[i].shape_s() == seq![c[i]]
                        + self.inner_s(),
                k <= total_len,
                out@.len() == k,
                forall|j: int| 0 <= j < k ==> #[trigger] out@[j] == self.values()[j],
            decreases total_len - k,
        {
            proof {
                assert(n > 0) by {
                    if n == 0 {
                        assert(total_len == 0);
                    }
                }
                lemma_split_pos(k as int, n as int, self.inner_len());
            }
            let r = k % n;
            let col = k / n;
            let (bi, l) = self.resolve(r);
            proof {
                let bs = self.batches@[bi as int].shape_s();
                assert(bs == seq![c[bi as int]] + self.inner_s());
                assert(bs.drop_first() =~= self.inner_s());
                assert(prod(bs) == c[bi as int] * self.inner_len());
                lemma_in_batch(l as int, col as int, c[bi as int], self.inner_len());
                assert(self.batches@[bi as int].values().len() == prod(bs));
                lemma_count_le_total(c, bi as int);
                assert(c[bi as int] * self.inner_len() <= n * self.inner_len()) by (nonlinear_arith)
                    requires
                        c[bi as int] <= n,
                        self.inner_len() >= 0,
                ;
            }
            let rows = self.batches[bi].dims.shape[0];
            let v = per_batch[bi][l + rows * col];
            out.push(v);
            k = k + 1;
        }
        proof {
            assert(out@ =~= self.values());
        }
        out
    }

    /// The whole array as one compact owned array, named after this one.
    pub fn consolidate(self) -> (out: NdArray<T>)
        requires
            self.wf(),
        ensures
            out.wf(),
            out.compact(),
            out.shape_s() == self.full_shape(),
            out.values() == self.values(),
            out.name matches Some(nm) && nm@ == self.name@,
    {
        let ghost vals = self.values();
        let ghost full = self.full_shape();
        let ghost c = self.counts();
        let ghost p = self.inner_len();
        proof {
            lemma_counts_nonneg(&self);
        }
        if self.batches.len() == 1 {
            let SuperNdArray { batches, ndim: _, inner_shape: _, name } = self;
            let mut batches = batches;
            let only = batches.pop().unwrap();
            let mut result = if only.is_contiguous() {
                only
            } else {
                only.to_contiguous()
            };
            result.name = Some(name);
            proof {
                let n = only.shape_s()[0];
                assert(c =~= seq![n]);
                assert(total(seq![n]) == n + total(seq![n].drop_first()));
                assert(seq![n].drop_first() =~= Seq::<int>::empty());
                assert(total(Seq::<int>::empty()) == 0);
                assert(vals.len() == n * p);
                assert forall|k: int| 0 <= k < vals.len() implies #[trigger] vals[k] == result.values()[k] by {
                    lemma_split_pos(k, n, p);
                    assert(locate(seq![n], k % n) == (0int, k % n));
                }
                assert(result.values() =~= vals);
                assert(result.shape_s() =~= full);
            }
            return result;
        }
        let values = self.gather_values();
        let shape = self.shape();
        proof {
            assert(ints(shape@) == full);
        }
        let mut result = NdArray::from_compact_vec(values, shape.as_slice());
        result.name = Some(self.name);
        result
    }
}

/// Counts that hold `cs` each but the last sum to `cs` times the number
/// of full ones plus the last.
proof fn lemma_total_uniform(c: Seq<int>, cs: int)
    requires
        forall|i: int| 0 <= i < c.len() - 1 ==> #[trigger] c[i] == cs,
    ensures
        c.len() > 0 ==> total(c) == cs * (c.len() - 1) + c[c.len() - 1],
        c.len() == 0 ==> total(c) == 0,
    decreases c.len(),
{
    if c.len() > 1 {
        let p = c.drop_last();
        assert forall|i: int| 0 <= i < p.len() - 1 implies #[trigger] p[i] == cs by {
            assert(p[i] == c[i]);
        }
        lemma_total_uniform(p, cs);
        assert(p.push(c[c.len() - 1]) =~= c);
        lemma_total_push(p, c[c.len() - 1]);
        assert(p[p.len() - 1] == cs);
        assert(cs * (p.len() - 1) + cs == cs * (c.len() - 1)) by (nonlinear_arith)
            requires
                p.len() == c.len() - 1,
        ;
    } else if c.len() == 1 {
        assert(c.drop_first().len() == 0);
        assert(total(c.drop_first()) == 0);
        assert(cs * (c.len() - 1) == 0) by (nonlinear_arith)
            requires
                c.len() == 1,
        ;
    }
}

/// Rows per batch that a strategy asks for.
pub open spec fn chunk_rows_of(strategy: RechunkStrategy) -> int {
    match strategy {
        RechunkStrategy::Count(n) => n as int,
        RechunkStrategy::Auto => 8192,
    }
}

/// The rows `off .. off + n` of a column-major sequence with `total` rows
/// and `p` trailing positions, as their own column-major sequence.
fn take_rows<T: Copy>(vals: &Vec<T>, total: usize, p: usize, off: usize, n: usize) -> (out: Vec<T>)
    requires
        vals@.len() == total * p,
        off + n <= total,
    ensures
        out@.len() == n * p,
        forall|r: int, c: int|
            0 <= r < n && 0 <= c < p ==> #[trigger] cell(out@, n as int, r, c) == cell(vals@, total as int, off + r, c),
{
    let vl = vals.len();
    let mut out: Vec<T> = Vec::new();
    let mut c: usize = 0;
    while c < p
        invariant
            vl == vals@.len(),
            vals@.len() == total * p,
            off + n <= total,
            c <= p,
            out@.len() == n * c,
            forall|r: int, cc: int|
                0 <= r < n && 0 <= cc < c ==> #[trigger] cell(out@, n as int, r, cc) == cell(
                    vals@,
                    total as int,
                    off + r,
                    cc,
                ),
        decreases p - c,
    {
        let mut r: usize = 0;
        let ghost before = out@;
        while r < n
            invariant
                vl == vals@.len(),
                vals@.len() == total * p,
                off + n <= total,
                c < p,
                r <= n,
                out@.len() == n * c + r,
                out@.take(n * c) == before,
                before.len() == n * c,
                forall|rr: int| 0 <= rr < r ==> #[trigger] out@[n * c + rr] == vals@[off + rr + total * c],
            decreases n - r,
        {
            proof {
                assert(off + r + total * c < total * p) by (nonlinear_arith)
                    requires
                        off + r < total,
                        c < p,
                ;
            }
            let v = vals[off + r + total * c];
            out.push(v);
            proof {
                assert(out@.take(n * c) =~= before);
            }
            r = r + 1;
        }
        proof {
            assert forall|rr: int, cc: int| 0 <= rr < n && 0 <= cc < c + 1 implies #[trigger] cell(
                out@,
                n as int,
                rr,
                cc,
            ) == cell(vals@, total as int, off + rr, cc) by {
                if cc < c {
                    assert(rr + n * cc < n * c) by (nonlinear_arith)
                        requires
                            0 <= rr < n,
                            cc < c,
                    ;
                    assert(out@[rr + n * cc] == before[rr + n * cc]);
                    assert(cell(before, n as int, rr, cc) == cell(vals@, total as int, off + rr, cc));
                } else {
                    assert(rr + n * cc == n * c + rr);
                    assert(out@[n * c + rr] == vals@[off + rr + total * c]);
                }
            }
            assert(n * (c + 1) == n * c + n) by (nonlinear_arith);
        }
        c = c + 1;
    }
    out
}

impl<T: Copy> SuperNdArray<T> {
    /// `self` holds `old`'s elements split into batches of `cs` rows (the
    /// last may be shorter), each compact and unnamed.
    pub open spec fn rechunked(&self, old: &Self, cs: int) -> bool {
        &&& self.wf()
        &&& self.name == old.name
        &&& self.ndim == old.ndim
        &&& self.inner_shape@ == old.inner_shape@
        &&& self.n_obs_s() == old.n_obs_s()
        &&& self.full_shape() == old.full_shape()
        &&& self.values() == old.values()
        &&& forall|i: int| 0 <= i < self.batches@.len() - 1 ==> #[trigger] self.counts()[i] == cs
        &&& self.batches@.len() > 0 ==> 1 <= self.counts()[self.batches@.len() - 1] <= cs
        &&& forall|i: int|
            0 <= i < self.batches@.len() ==> (#[trigger] self.batches@[i]).compact() && self.batches@[i].name is None
    }

    /// After rechunking to `cs` rows per batch, there are exactly
    /// `ceil(n / cs)` batches for `n` rows: every batch but the last holds
    /// `cs` rows and the last holds the remaining `n - cs * (batches - 1)`.
    pub proof fn law_rechunked_batches(&self, old: &Self, cs: int)
        requires
            self.rechunked(old, cs),
            cs > 0,
            old.n_obs_s() > 0,
        ensures
            self.batches@.len() == (old.n_obs_s() + cs - 1) / cs,
            self.counts()[self.batches@.len() - 1] == old.n_obs_s() - cs * (self.batches@.len() - 1),
    {
        let c = self.counts();
        let l = c.len() as int;
        lemma_total_uniform(c, cs);
        if l == 0 {
            assert(total(c) == 0);
        } else {
            let last = c[l - 1];
            let n = old.n_obs_s();
            assert(n == cs * (l - 1) + last);
            assert((n + cs - 1) == (l - 1) * cs + (last - 1 + cs)) by (nonlinear_arith)
                requires
                    n == cs * (l - 1) + last,
            ;
            assert((n + cs - 1) == l * cs + (last - 1)) by (nonlinear_arith)
                requires
                    n + cs - 1 == (l - 1) * cs + (last - 1 + cs),
            ;
            vstd::arithmetic::div_mod::lemma_fundamental_div_mod_converse(n + cs - 1, cs, l, last - 1);
        }
    }

    /// Redistribute the rows across batches of the strategy's size. An
    /// empty array is left as it is; a zero row count is refused.
    pub fn rechunk(&mut self, strategy: RechunkStrategy) -> (r: Result<(), MinarrowError>)
        requires
            old(self).wf(),
        ensures
            (old(self).batches@.len() == 0 || old(self).n_obs_s() == 0) ==> r is Ok && *final(self) == *old(self),
            (old(self).batches@.len() > 0 && old(self).n_obs_s() > 0 && strategy == RechunkStrategy::Count(0))
                ==> (r matches Err(e) && e is IndexError && e->IndexError_0@ == "rechunk: chunk size must be > 0"@
                && *final(self) == *old(self)),
            (old(self).batches@.len() > 0 && old(self).n_obs_s() > 0 && strategy != RechunkStrategy::Count(0))
                ==> (r is Ok && final(self).rechunked(old(self), chunk_rows_of(strategy))),
            (old(self).batches@.len() > 0 && old(self).n_obs_s() > 0 && strategy == RechunkStrategy::Auto) ==> (r is Ok
                && final(self).rechunked(old(self), 8192)),
            strategy matches RechunkStrategy::Count(n) ==> (old(self).batches@.len() > 0 && old(self).n_obs_s() > 0
                && n > 0 ==> r is Ok && final(self).rechunked(old(self), n as int)),
    {
        if self.batches.len() == 0 {
            return Ok(());
        }
        let total_obs = self.n_obs();
        if total_obs == 0 {
            return Ok(());
        }
        let chunk_size: usize = match strategy {
            RechunkStrategy::Count(size) => {
                if size == 0 {
                    return Err(MinarrowError::IndexError(String::from_str("rechunk: chunk size must be > 0")));
                }
                size
            },
            RechunkStrategy::Auto => 8192,
        };
        proof {
            lemma_counts_nonneg(&*self);
        }
        let ghost old_vals = self.values();
        let vals = self.gather_values();
        proof {
            lemma_inner_fits(self.full_shape());
            assert(self.full_shape().drop_first() == self.inner_s());
        }
        let p = shape_len(self.inner_shape.as_slice());
        let mut new_batches: Vec<NdArray<T>> = Vec::new();
        let mut off: usize = 0;
        proof {
            assert(counts_of(new_batches@) =~= Seq::<int>::empty());
            assert(total(Seq::<int>::empty()) == 0);
        }
        while off < total_obs
            invariant
                old(self).wf(),
                *self == *old(self),
                total_obs == self.n_obs_s(),
                total_obs > 0,
                chunk_size > 0,
                chunk_size == chunk_rows_of(strategy),
                p == self.inner_len(),
                vals@ == old_vals,
                old_vals == self.values(),
                vals@.len() == total_obs * p,
                off <= total_obs,
                off == total(counts_of(new_batches@)),
                nonneg(counts_of(new_batches@)),
                forall|i: int|
                    0 <= i < new_batches@.len() ==> #[trigger] batch_fits(new_batches@[i], self.inner_shape@)
                        && new_batches@[i].compact() && new_batches@[i].name is None,
                forall|i: int, rr: int, cc: int|
                    0 <= i < new_batches@.len() && 0 <= rr < counts_of(new_batches@)[i] && 0 <= cc < p ==> #[trigger] cell(
                        new_batches@[i].values(),
                        counts_of(new_batches@)[i],
                        rr,
                        cc,
                    ) == cell(vals@, total_obs as int, total(counts_of(new_batches@).take(i)) + rr, cc),
                forall|i: int| 0 <= i < new_batches@.len() - 1 ==> #[trigger] counts_of(new_batches@)[i] == chunk_size,
                new_batches@.len() > 0 ==> 1 <= counts_of(new_batches@)[new_batches@.len() - 1] <= chunk_size,
                new_batches@.len() > 0 && counts_of(new_batches@)[new_batches@.len() - 1] < chunk_size ==> off
                    == total_obs,
            decreases total_obs - off,
        {
            let n: usize = if total_obs - off < chunk_size {
                total_obs - off
            } else {
                chunk_size
            };
            let data = take_rows(&vals, total_obs, p, off, n);
            let mut shape: Vec<usize> = Vec::new();
            shape.push(n);
            let mut d: usize = 0;
            while d < self.inner_shape.len()
                invariant
                    d <= self.inner_shape@.len(),
                    shape@.len() == d + 1,
                    shape@[0] == n,
                    forall|k: int| 0 <= k < d ==> #[trigger] shape@[k + 1] == self.inner_shape@[k],
                decreases self.inner_shape@.len() - d,
            {
                shape.push(self.inner_shape[d]);
                d = d + 1;
            }
            proof {
                assert(shape@.drop_first() =~= self.inner_shape@);
                assert(ints(shape@) =~= seq![n as int] + self.inner_s());
                // The new batch's shape fits: it is no larger than the
                // whole array's.
                lemma_prefix_fits(self.full_shape(), n as int);
                assert(ints(shape@).drop_first() =~= self.inner_s());
                assert(ints(shape@) == self.full_shape().update(0, n as int));
                assert(fits(ints(shape@)));
                assert(prod(ints(shape@)) == n * p);
            }
            let batch = NdArray::from_compact_vec(data, shape.as_slice());
            let ghost prev = new_batches@;
            new_batches.push(batch);
            proof {
                let cn = counts_of(new_batches@);
                let cp = counts_of(prev);
                assert(cn =~= cp.push(n as int));
                lemma_total_push(cp, n as int);
                assert forall|i: int| 0 <= i < cn.len() implies cn[i] >= 0 by {}
                assert forall|i: int, rr: int, cc: int|
                    0 <= i < new_batches@.len() && 0 <= rr < cn[i] && 0 <= cc < p implies #[trigger] cell(
                        new_batches@[i].values(),
                        cn[i],
                        rr,
                        cc,
                    ) == cell(vals@, total_obs as int, total(cn.take(i)) + rr, cc) by {
                    if i < prev.len() {
                        assert(cn.take(i) =~= cp.take(i));
                        assert(new_batches@[i] == prev[i]);
                    } else {
                        assert(cn.take(i) =~= cp);
                    }
                }
                assert forall|i: int| 0 <= i < new_batches@.len() implies #[trigger] batch_fits(
                    new_batches@[i],
                    self.inner_shape@,
                ) && new_batches@[i].compact() && new_batches@[i].name is None by {
                    if i < prev.len() {
                        assert(new_batches@[i] == prev[i]);
                    }
                }
            }
            off = off + n;
        }
        let ghost nb = new_batches@;
        self.batches = new_batches;
        proof {
            let cn = counts_of(nb);
            assert(self.counts() == cn);
            assert(self.full_shape() =~= old(self).full_shape());
            assert(self.wf());
            let nn = total_obs as int;
            assert forall|k: int| 0 <= k < self.values().len() implies #[trigger] self.values()[k] == old_vals[k] by {
                lemma_split_pos(k, nn, p as int);
                let r = k % nn;
                let c = k / nn;
                lemma_locate(cn, r);
                lemma_locate_start(cn, r);
                let q = locate(cn, r).0;
                let l = locate(cn, r).1;
                assert(cell(nb[q].values(), cn[q], l, c) == cell(vals@, nn, total(cn.take(q)) + l, c));
            }
            assert(self.values() =~= old_vals);
            assert(self.name == old(self).name);
            assert(self.ndim == old(self).ndim);
            assert(self.inner_shape@ == old(self).inner_shape@);
            assert(self.n_obs_s() == old(self).n_obs_s());
            assert(self.values() == old(self).values());
            assert(forall|i: int| 0 <= i < self.batches@.len() - 1 ==> #[trigger] self.counts()[i] == chunk_size);
            assert(self.batches@.len() > 0 ==> 1 <= self.counts()[self.batches@.len() - 1] <= chunk_size);
            assert forall|i: int| 0 <= i < self.batches@.len() implies (#[trigger] self.batches@[i]).compact()
                && self.batches@[i].name is None by {
                assert(batch_fits(nb[i], self.inner_shape@));
            }
        }
        Ok(())
    }
}

/// The trailing shape of a fitting shape with a positive leading extent
/// fits too.
proof fn lemma_inner_fits(s: Seq<int>)
    requires
        fits(s),
        s.len() >= 1,
        s[0] >= 1,
    ensures
        fits(s.drop_first()),
{
    let t = s.drop_first();
    assert forall|d: int| 0 <= d <= t.len() implies #[trigger] prod(t.take(d)) <= usize::MAX by {
        let u = s.take(d + 1);
        assert(u.drop_first() =~= t.take(d));
        assert(nonneg(t.take(d))) by {
            assert forall|i: int| 0 <= i < t.take(d).len() implies t.take(d)[i] >= 0 by {
                assert(s[i + 1] >= 0);
            }
        }
        lemma_prod_nonneg(t.take(d));
        assert(prod(u) == s[0] * prod(t.take(d)));
        assert(prod(u) <= usize::MAX);
        assert(prod(t.take(d)) <= s[0] * prod(t.take(d))) by (nonlinear_arith)
            requires
                s[0] >= 1,
                prod(t.take(d)) >= 0,
        ;
    }
    assert(nonneg(t)) by {
        assert forall|i: int| 0 <= i < t.len() implies t[i] >= 0 by {
            assert(s[i + 1] >= 0);
        }
    }
}

/// A shape whose leading extent shrinks still fits.
pub proof fn lemma_prefix_fits(s: Seq<int>, n: int)
    requires
        fits(s),
        s.len() >= 1,
        0 <= n <= s[0],
    ensures
        fits(s.update(0, n)),
        s.update(0, n) == seq![n] + s.drop_first(),
{
    let t = s.update(0, n);
    assert(t =~= seq![n] + s.drop_first());
    assert forall|d: int| 0 <= d <= t.len() implies #[trigger] prod(t.take(d)) <= usize::MAX by {
        lemma_prod_take_le_lead(s, n, d);
    }
}

/// Shrinking the leading extent shrinks every prefix product.
proof fn lemma_prod_take_le_lead(s: Seq<int>, n: int, d: int)
    requires
        nonneg(s),
        s.len() >= 1,
        0 <= n <= s[0],
        0 <= d <= s.len(),
    ensures
        0 <= prod(s.update(0, n).take(d)) <= prod(s.take(d)),
{
    if d == 0 {
        assert(s.update(0, n).take(0) =~= Seq::<int>::empty());
        assert(s.take(0) =~= Seq::<int>::empty());
    } else {
        let a = s.update(0, n).take(d);
        let b = s.take(d);
        assert(a.drop_first() =~= b.drop_first());
        assert(nonneg(b.drop_first())) by {
            assert forall|i: int| 0 <= i < b.drop_first().len() implies b.drop_first()[i] >= 0 by {
                assert(s[i + 1] >= 0);
            }
        }
        lemma_prod_nonneg(b.drop_first());
        let q = prod(b.drop_first());
        assert(prod(a) == n * q);
        assert(prod(b) == s[0] * q);
        assert(0 <= n * q <= s[0] * q) by (nonlinear_arith)
            requires
                0 <= n <= s[0],
                q >= 0,
        ;
    }
}

/// Two `usize` slices hold the same values.
pub(crate) fn same_usizes(a: &[usize], b: &[usize]) -> (r: bool)
    ensures
        r == (a@ == b@),
{
    if a.len() != b.len() {
        return false;
    }
    let mut i: usize = 0;
    while i < a.len()
        invariant
            a@.len() == b@.len(),
            i <= a@.len(),
            forall|k: int| 0 <= k < i ==> a@[k] == b@[k],
        decreases a@.len() - i,
    {
        if a[i] != b[i] {
            return false;
        }
        i = i + 1;
    }
    assert(a@ =~= b@);
    true
}

/// Appends `[d0, d1, ...]` to `s`.


impl<T: Copy> SuperNdArray<T> {
    /// The batches of `other` after those of `self`. An empty side yields
    /// the other side; otherwise both must share rank and trailing shape.
    pub fn concat(self, other: Self) -> (r: Result<Self, MinarrowError>)
        requires
            self.wf(),
            other.wf(),
            self.batches@.len() > 0 && other.batches@.len() > 0 && self.ndim == other.ndim && self.inner_shape@
                == other.inner_shape@ ==> fits(seq![self.n_obs_s() + other.n_obs_s()] + self.inner_s()),
        ensures
            self.batches@.len() == 0 ==> r == Ok::<Self, MinarrowError>(other),
            self.batches@.len() > 0 && other.batches@.len() == 0 ==> r == Ok::<Self, MinarrowError>(self),
            self.batches@.len() > 0 && other.batches@.len() > 0 ==> (r is Ok <==> (self.ndim == other.ndim
                && self.inner_shape@ == other.inner_shape@)),
            r matches Err(e) ==> e is IncompatibleTypeError,
            (self.batches@.len() > 0 && other.batches@.len() > 0 && self.ndim != other.ndim) ==> (r matches Err(
                MinarrowError::IncompatibleTypeError { from, to, message: Some(m) },
            ) && from@ == "SuperNdArray"@ && to@ == "SuperNdArray"@ && m@ == "rank "@ + decimal(self.ndim as nat)
                + " vs "@ + decimal(other.ndim as nat)),
            (self.batches@.len() > 0 && other.batches@.len() > 0 && self.ndim == other.ndim && self.inner_shape@
                != other.inner_shape@) ==> (r matches Err(MinarrowError::IncompatibleTypeError { from, to, message: Some(m) })
                && from@ == "SuperNdArray"@ && to@ == "SuperNdArray"@ && m@ == "inner shape "@ + dims_text(self.inner_s())
                + " vs "@ + dims_text(other.inner_s())),
            r matches Ok(out) ==> out.wf(),
            (self.batches@.len() > 0 && other.batches@.len() > 0 && r is Ok) ==> (r matches Ok(out) && out.batches@
                == self.batches@ + other.batches@ && out.name == self.name && out.inner_shape@ == self.inner_shape@
                && out.ndim == self.ndim),
    {
        if self.batches.len() == 0 {
            return Ok(other);
        }
        if other.batches.len() == 0 {
            return Ok(self);
        }
        if self.ndim != other.ndim {
            let mut message = String::from_str("rank ");
            append_usize(&mut message, self.ndim);
            message.append(" vs ");
            append_usize(&mut message, other.ndim);
            return Err(
                MinarrowError::IncompatibleTypeError {
                    from: String::from_str("SuperNdArray"),
                    to: String::from_str("SuperNdArray"),
                    message: Some(message),
                },
            );
        }
        if !same_usizes(self.inner_shape.as_slice(), other.inner_shape.as_slice()) {
            let mut message = String::from_str("inner shape ");
            append_dims(&mut message, self.inner_shape.as_slice());
            message.append(" vs ");
            append_dims(&mut message, other.inner_shape.as_slice());
            return Err(
                MinarrowError::IncompatibleTypeError {
                    from: String::from_str("SuperNdArray"),
                    to: String::from_str("SuperNdArray"),
                    message: Some(message),
                },
            );
        }
        let ghost ca = self.counts();
        let ghost cb = other.counts();
        let ghost sb = other.batches@;
        proof {
            lemma_counts_nonneg(&self);
            lemma_counts_nonneg(&other);
        }
        let SuperNdArray { batches: mut a, ndim, inner_shape, name } = self;
        let SuperNdArray { batches: mut b, ndim: _, inner_shape: _, name: _ } = other;
        let ghost sa = a@;
        a.append(&mut b);
        let out = SuperNdArray { batches: a, ndim, inner_shape, name };
        proof {
            assert(out.batches@ =~= sa + sb);
            assert(out.counts() =~= ca + cb);
            lemma_total_split(ca + cb, ca.len() as int);
            assert((ca + cb).take(ca.len() as int) =~= ca);
            assert((ca + cb).skip(ca.len() as int) =~= cb);
            assert forall|k: int| 0 <= k < out.batches@.len() implies #[trigger] batch_fits(
                out.batches@[k],
                out.inner_shape@,
            ) by {
                if k < sa.len() {
                    assert(out.batches@[k] == sa[k]);
                } else {
                    assert(out.batches@[k] == sb[k - sa.len()]);
                    assert(batch_fits(sb[k - sa.len()], out.inner_shape@));
                }
            }
        }
        Ok(out)
    }

    /// A new chunked array with `f` applied to every element, keeping the
    /// batch boundaries and the name.
    pub fn apply<F: Fn(T) -> T>(&self, f: F) -> (out: SuperNdArray<T>)
        requires
            self.wf(),
            forall|x: T| #[trigger] f.requires((x,)),
        ensures
            out.wf(),
            out.name@ == self.name@,
            out.batches@.len() == self.batches@.len(),
            out.counts() == self.counts(),
            out.inner_shape@ == self.inner_shape@,
            forall|b: int, k: int|
                0 <= b < self.batches@.len() && 0 <= k < self.batches@[b].values().len() ==> #[trigger] f.ensures(
                    (self.batches@[b].values()[k],),
                    out.batches@[b].values()[k],
                ),
            forall|b: int| 0 <= b < self.batches@.len() ==> (#[trigger] out.batches@[b]).values().len()
                == self.batches@[b].values().len(),
    {
        proof {
            lemma_counts_nonneg(self);
        }
        let mut batches: Vec<NdArray<T>> = Vec::new();
        let mut i: usize = 0;
        while i < self.batches.len()
            invariant
                self.wf(),
                forall|x: T| #[trigger] f.requires((x,)),
                i <= self.batches@.len(),
                batches@.len() == i,
                forall|b: int|
                    0 <= b < self.batches@.len() ==> #[trigger] self.batches@[b].shape_s() == seq![self.counts()[b]]
                        + self.inner_s() && self.batches@[b].wf(),
                forall|b: int|
                    0 <= b < i ==> (#[trigger] batches@[b]).dims.shape@ == self.batches@[b].dims.shape@
                        && batches@[b].wf() && batches@[b].values().len() == self.batches@[b].values().len(),
                forall|b: int, k: int|
                    0 <= b < i && 0 <= k < self.batches@[b].values().len() ==> #[trigger] f.ensures(
                        (self.batches@[b].values()[k],),
                        batches@[b].values()[k],
                    ),
            decreases self.batches@.len() - i,
        {
            assert(self.batches@[i as int].shape_s() == seq![self.counts()[i as int]] + self.inner_s());
            let mapped = self.batches[i].apply(&f);
            batches.push(mapped);
            i = i + 1;
        }
        let out = SuperNdArray {
            batches,
            ndim: self.ndim,
            inner_shape: vstd::slice::slice_to_vec(self.inner_shape.as_slice()),
            name: self.name.clone(),
        };
        proof {
            assert(out.counts() =~= self.counts()) by {
                assert forall|b: int| 0 <= b < out.batches@.len() implies out.counts()[b] == self.counts()[b] by {
                    assert(out.batches@[b].dims.shape@ == self.batches@[b].dims.shape@);
                }
            }
            assert forall|b: int| 0 <= b < out.batches@.len() implies #[trigger] batch_fits(
                out.batches@[b],
                out.inner_shape@,
            ) by {
                assert(batch_fits(self.batches@[b], self.inner_shape@));
                assert(out.batches@[b].dims.shape@ == self.batches@[b].dims.shape@);
            }
            assert(out.full_shape() =~= self.full_shape());
        }
        out
    }

    /// Row count as `i32` for BLAS. 2D only.
    pub fn m(&self) -> (m: i32)
        requires
            self.wf(),
            self.ndim == 2,
        ensures
            m == self.n_obs_s() as i32,
    {
        self.n_obs() as i32
    }

    /// Column count as `i32` for BLAS. 2D only.
    pub fn n(&self) -> (n: i32)
        requires
            self.wf(),
            self.ndim == 2,
            self.batches@.len() > 0,
        ensures
            n == self.inner_shape@[0] as i32,
    {
        self.inner_shape[0] as i32
    }

    /// Leading dimension of the first batch for BLAS (0 when empty). 2D
    /// only; it describes the first batch, not the whole array.
    pub fn lda(&self) -> (lda: i32)
        requires
            self.wf(),
            self.ndim == 2,
        ensures
            self.batches@.len() == 0 ==> lda == 0,
            self.batches@.len() > 0 ==> lda == self.batches@[0].dims.strides@[1] as i32,
    {
        if self.batches.len() == 0 {
            return 0;
        }
        proof {
            assert(batch_fits(self.batches@[0], self.inner_shape@));
        }
        self.batches[0].lda()
    }

    /// View of one observation, resolved to its batch, over a copy of that
    /// batch (see [`NdArray::as_view`]). Rank 2 or higher.
    pub fn obs(&self, idx: usize) -> (v: NdArrayV<T>)
        requires
            self.wf(),
            self.ndim >= 2,
            idx < self.n_obs_s(),
            forall|b: int|
                0 <= b < self.batches@.len() ==> self.counts()[b] * (#[trigger] self.batches@[b]).dims.strides@[0]
                    <= usize::MAX,
        ensures
            v.wf(),
            v.shape_s() == self.inner_s(),
            forall|j: Seq<int>| in_bounds(j, v.shape_s()) ==> #[trigger] v.elem(j) == self.elem(seq![idx as int] + j),
    {
        proof {
            lemma_counts_nonneg(self);
        }
        let (b, l) = self.resolve(idx);
        proof {
            assert(self.batches@[b as int].shape_s() == seq![self.counts()[b as int]] + self.inner_s());
            let st = self.batches@[b as int].dims.strides@[0] as int;
            assert(self.counts()[b as int] * st <= usize::MAX);
            assert(l as int * st <= self.counts()[b as int] * st) by (nonlinear_arith)
                requires
                    0 <= l < self.counts()[b as int],
                    st >= 0,
            ;
        }
        let v = self.batches[b].obs(l);
        proof {
            assert(v.shape_s() =~= self.inner_s()) by {
                assert(v.dims.shape@ == self.batches@[b as int].dims.shape@.drop_first());
                assert(batch_fits(self.batches@[b as int], self.inner_shape@));
            }
            assert forall|j: Seq<int>| in_bounds(j, v.shape_s()) implies #[trigger] v.elem(j) == self.elem(
                seq![idx as int] + j,
            ) by {
                assert((seq![idx as int] + j).update(0, l as int) =~= seq![l as int] + j);
            }
        }
        v
    }

    /// One-line description: name, batch count, rank, shape and element
    /// count.
    pub fn describe(&self) -> (s: String)
        requires
            self.wf(),
        ensures
            s@ == "SuperNdArray '"@ + self.name@ + "': "@ + decimal(self.batches@.len()) + " batches, "@ + decimal(
                self.ndim as nat,
            ) + "D, shape "@ + dims_text(self.full_shape()) + ", "@ + decimal(prod(self.full_shape()) as nat)
                + " elements"@,
    {
        let mut s = String::from_str("SuperNdArray '");
        s.append(self.name.as_str());
        s.append("': ");
        append_usize(&mut s, self.batches.len());
        s.append(" batches, ");
        append_usize(&mut s, self.ndim);
        s.append("D, shape ");
        let shape = self.shape();
        append_dims(&mut s, shape.as_slice());
        s.append(", ");
        append_usize(&mut s, self.len());
        s.append(" elements");
        s
    }
}

/// The batches' own elements, batch after batch, each in its column-major
/// order.
pub open spec fn chunk_values<T>(bs: Seq<NdArray<T>>) -> Seq<T>
    decreases bs.len(),
{
    if bs.len() == 0 {
        Seq::empty()
    } else {
        chunk_values(bs.drop_last()) + bs.last().values()
    }
}

/// Column `c` of each 2D batch's buffer, batch after batch.
pub open spec fn column_values<T>(bs: Seq<NdArray<T>>, c: int) -> Seq<T>
    decreases bs.len(),
{
    if bs.len() == 0 {
        Seq::empty()
    } else {
        let b = bs.last();
        column_values(bs.drop_last(), c) + b.data@.subrange(
            c * b.dims.strides@[1],
            c * b.dims.strides@[1] + b.dims.shape@[0],
        )
    }
}

impl<T: Copy> SuperNdArray<T> {
    /// Every batch's elements in turn, each batch in its own column-major
    /// order.
    pub fn to_vec(&self) -> (out: Vec<T>)
        requires
            self.wf(),
        ensures
            out@ == chunk_values(self.batches@),
    {
        proof {
            lemma_counts_nonneg(self);
        }
        let mut out: Vec<T> = Vec::new();
        let mut i: usize = 0;
        assert(self.batches@.take(0) =~= Seq::<NdArray<T>>::empty());
        while i < self.batches.len()
            invariant
                self.wf(),
                forall|b: int|
                    0 <= b < self.batches@.len() ==> #[trigger] self.batches@[b].shape_s() == seq![self.counts()[b]]
                        + self.inner_s() && self.batches@[b].wf(),
                i <= self.batches@.len(),
                out@ == chunk_values(self.batches@.take(i as int)),
            decreases self.batches@.len() - i,
        {
            assert(self.batches@[i as int].shape_s() == seq![self.counts()[i as int]] + self.inner_s());
            let mut part = self.batches[i].to_vec();
            out.append(&mut part);
            proof {
                assert(self.batches@.take(i as int + 1).drop_last() =~= self.batches@.take(i as int));
                assert(self.batches@.take(i as int + 1).last() == self.batches@[i as int]);
            }
            i = i + 1;
        }
        assert(self.batches@.take(self.batches@.len() as int) =~= self.batches@);
        out
    }

    /// Column `c` of a 2D chunked array: each batch's column in turn.
    pub fn col(&self, c: usize) -> (out: Vec<T>)
        requires
            self.wf(),
            self.ndim == 2,
            forall|b: int|
                0 <= b < self.batches@.len() ==> c < (#[trigger] self.batches@[b]).dims.shape@[1] && c
                    * self.batches@[b].dims.strides@[1] + self.batches@[b].dims.shape@[0]
                    <= self.batches@[b].data@.len(),
        ensures
            out@ == column_values(self.batches@, c as int),
    {
        let mut out: Vec<T> = Vec::new();
        let mut i: usize = 0;
        assert(self.batches@.take(0) =~= Seq::<NdArray<T>>::empty());
        while i < self.batches.len()
            invariant
                self.wf(),
                self.ndim == 2,
                forall|b: int|
                    0 <= b < self.batches@.len() ==> c < (#[trigger] self.batches@[b]).dims.shape@[1] && c
                        * self.batches@[b].dims.strides@[1] + self.batches@[b].dims.shape@[0]
                        <= self.batches@[b].data@.len(),
                i <= self.batches@.len(),
                out@ == column_values(self.batches@.take(i as int), c as int),
            decreases self.batches@.len() - i,
        {
            assert(batch_fits(self.batches@[i as int], self.inner_shape@));
            let column = self.batches[i].col(c);
            let mut part = vstd::slice::slice_to_vec(column);
            out.append(&mut part);
            proof {
                assert(self.batches@.take(i as int + 1).drop_last() =~= self.batches@.take(i as int));
                assert(self.batches@.take(i as int + 1).last() == self.batches@[i as int]);
            }
            i = i + 1;
        }
        assert(self.batches@.take(self.batches@.len() as int) =~= self.batches@);
        out
    }

    /// Apply `f` to every element in place, batch by batch.
    pub fn apply_mut<F: Fn(T) -> T>(&mut self, f: F)
        requires
            old(self).wf(),
            forall|x: T| #[trigger] f.requires((x,)),
        ensures
            final(self).wf(),
            final(self).name == old(self).name,
            final(self).ndim == old(self).ndim,
            final(self).inner_shape == old(self).inner_shape,
            final(self).batches@.len() == old(self).batches@.len(),
            forall|b: int|
                0 <= b < old(self).batches@.len() ==> (#[trigger] final(self).batches@[b]).dims == old(
                    self,
                ).batches@[b].dims && final(self).batches@[b].data@.len() == old(self).batches@[b].data@.len(),
            forall|b: int, i: int|
                0 <= b < old(self).batches@.len() && old(self).batches@[b].compact() && 0 <= i < old(
                    self,
                ).batches@[b].data@.len() ==> #[trigger] f.ensures(
                    (old(self).batches@[b].data@[i],),
                    final(self).batches@[b].data@[i],
                ),
    {
        proof {
            lemma_counts_nonneg(&*self);
        }
        let mut rest: Vec<NdArray<T>> = Vec::new();
        std::mem::swap(&mut rest, &mut self.batches);
        let ghost orig = rest@;
        proof {
            assert forall|b: int| 0 <= b < orig.len() implies #[trigger] orig[b].wf() by {
                assert(batch_fits(old(self).batches@[b], old(self).inner_shape@));
            }
            assert(orig.skip(0) =~= orig);
        }
        let mut done: Vec<NdArray<T>> = Vec::new();
        while rest.len() > 0
            invariant
                forall|x: T| #[trigger] f.requires((x,)),
                done@.len() + rest@.len() == orig.len(),
                rest@ == orig.skip(done@.len() as int),
                forall|b: int| 0 <= b < orig.len() ==> #[trigger] orig[b].wf(),
                forall|b: int|
                    0 <= b < done@.len() ==> (#[trigger] done@[b]).dims == orig[b].dims && done@[b].wf()
                        && done@[b].name == orig[b].name && done@[b].data@.len() == orig[b].data@.len(),
                forall|b: int, i: int|
                    0 <= b < done@.len() && orig[b].compact() && 0 <= i < orig[b].data@.len() ==> #[trigger] f.ensures(
                        (orig[b].data@[i],),
                        done@[b].data@[i],
                    ),
            decreases rest@.len(),
        {
            let ghost k = done@.len() as int;
            let mut batch = rest.remove(0);
            assert(batch == orig[k]);
            batch.apply_mut(&f);
            done.push(batch);
            proof {
                assert(rest@ =~= orig.skip(k + 1));
            }
        }
        self.batches = done;
        proof {
            assert(self.counts() =~= old(self).counts()) by {
                assert forall|b: int| 0 <= b < self.batches@.len() implies self.counts()[b] == old(self).counts()[b] by {
                    assert(self.batches@[b].dims == orig[b].dims);
                }
            }
            assert forall|b: int| 0 <= b < self.batches@.len() implies #[trigger] batch_fits(
                self.batches@[b],
                self.inner_shape@,
            ) by {
                assert(batch_fits(orig[b], self.inner_shape@));
                assert(self.batches@[b].dims == orig[b].dims);
            }
            assert(self.full_shape() =~= old(self).full_shape());
        }
    }
}


/// Rechunking never changes what consolidation produces: the consolidated
/// array of the rechunked array has the same shape and elements as that of
/// the original.
pub proof fn law_rechunk_keeps_consolidated<T: Copy>(
    before: SuperNdArray<T>,
    after: SuperNdArray<T>,
    cs: int,
    out_before: NdArray<T>,
    out_after: NdArray<T>,
)
    requires
        before.wf(),
        after.rechunked(&before, cs),
        out_before.shape_s() == before.full_shape(),
        out_before.values() == before.values(),
        out_after.shape_s() == after.full_shape(),
        out_after.values() == after.values(),
    ensures
        out_after.shape_s() == out_before.shape_s(),
        out_after.values() == out_before.values(),
{
}

} // verus!
