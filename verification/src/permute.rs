//! # Axis permutation
//!
//! Reordering the axes of a view: `perm[d]` names the source axis that
//! becomes axis `d`. Only the shape and stride metadata move, so the
//! reordered view addresses exactly the elements of the source.

use vstd::prelude::*;

use crate::layout::{dot, fits, in_bounds, ints, max_offset, nonneg, prod};
use crate::ndarray::NdDims;
use crate::ndarray_view::NdArrayV;
use crate::shared::share;

verus! {

/// Some entry of `p` is `v`.
pub open spec fn takes(p: Seq<int>, v: int) -> bool {
    exists|i: int| 0 <= i < p.len() && #[trigger] p[i] == v
}

/// `p` is a permutation of `0..n`: every axis appears exactly once.
pub open spec fn is_perm(p: Seq<int>, n: int) -> bool {
    &&& p.len() == n
    &&& forall|i: int| 0 <= i < n ==> 0 <= #[trigger] p[i] < n
    &&& forall|i: int, j: int| 0 <= i < j < n ==> #[trigger] p[i] != #[trigger] p[j]
    &&& forall|v: int| 0 <= v < n ==> #[trigger] takes(p, v)
}

/// `s` reordered by `p`: entry `d` is `s[p[d]]`.
pub open spec fn permuted<A>(s: Seq<A>, p: Seq<int>) -> Seq<A> {
    Seq::new(p.len(), |d: int| s[p[d]])
}

/// The permutation that swaps axes `a` and `b` of `n` axes.
pub open spec fn swap_perm(n: int, a: int, b: int) -> Seq<int> {
    Seq::new(n as nat, |i: int| if i == a { b } else if i == b { a } else { i })
}

/// Sum of a sequence of integers.
pub open spec fn total(t: Seq<int>) -> int
    decreases t.len(),
{
    if t.len() == 0 {
        0
    } else {
        t[0] + total(t.drop_first())
    }
}

/// Taking one term out of a sum.
proof fn lemma_total_remove(t: Seq<int>, m: int)
    requires
        0 <= m < t.len(),
    ensures
        total(t) == total(t.remove(m)) + t[m],
    decreases m,
{
    if m == 0 {
        assert(t.remove(0) =~= t.drop_first());
    } else {
        lemma_total_remove(t.drop_first(), m - 1);
        assert(t.remove(m).drop_first() =~= t.drop_first().remove(m - 1));
        assert(t.remove(m)[0] == t[0]);
    }
}

/// Taking one factor out of a product.
proof fn lemma_prod_take_out(t: Seq<int>, m: int)
    requires
        0 <= m < t.len(),
    ensures
        prod(t) == prod(t.remove(m)) * t[m],
    decreases m,
{
    if m == 0 {
        assert(t.remove(0) =~= t.drop_first());
        assert(prod(t) == t[0] * prod(t.drop_first()));
        assert(t[0] * prod(t.drop_first()) == prod(t.drop_first()) * t[0]) by (nonlinear_arith);
    } else {
        lemma_prod_take_out(t.drop_first(), m - 1);
        assert(t.remove(m).drop_first() =~= t.drop_first().remove(m - 1));
        assert(t.remove(m)[0] == t[0]);
        let x = t[0];
        let y = t[m];
        let z = prod(t.drop_first().remove(m - 1));
        assert(x * (z * y) == (x * z) * y) by (nonlinear_arith);
    }
}

/// Without the position that holds the last axis, a permutation of
/// `0..n` is a permutation of `0..n - 1`.
proof fn lemma_perm_drop_last(p: Seq<int>, n: int, m: int)
    requires
        n > 0,
        is_perm(p, n),
        0 <= m < n,
        p[m] == n - 1,
    ensures
        is_perm(p.remove(m), n - 1),
{
    let q = p.remove(m);
    p.remove_ensures(m);
    assert forall|i: int| 0 <= i < n - 1 implies 0 <= #[trigger] q[i] < n - 1 by {
        let src = if i < m { i } else { i + 1 };
        assert(q[i] == p[src]);
        if src < m {
            assert(p[src] != p[m]);
        } else {
            assert(p[m] != p[src]);
        }
    }
    assert forall|i: int, j: int| 0 <= i < j < n - 1 implies #[trigger] q[i] != #[trigger] q[j] by {
        let si = if i < m { i } else { i + 1 };
        let sj = if j < m { j } else { j + 1 };
        assert(q[i] == p[si]);
        assert(q[j] == p[sj]);
        assert(p[si] != p[sj]);
    }
    assert forall|v: int| 0 <= v < n - 1 implies #[trigger] takes(q, v) by {
        assert(takes(p, v));
        let i0 = choose|i: int| 0 <= i < p.len() && #[trigger] p[i] == v;
        assert(i0 != m);
        let i = if i0 < m { i0 } else { i0 - 1 };
        assert(q[i] == p[i0]);
    }
}

/// Reordering the terms of a sum by a permutation leaves it unchanged.
pub proof fn lemma_total_permuted(t: Seq<int>, p: Seq<int>)
    requires
        is_perm(p, t.len() as int),
    ensures
        total(permuted(t, p)) == total(t),
    decreases t.len(),
{
    let n = t.len() as int;
    if n == 0 {
        assert(permuted(t, p) =~= Seq::<int>::empty());
    } else {
        assert(takes(p, n - 1));
        let m = choose|i: int| 0 <= i < p.len() && #[trigger] p[i] == n - 1;
        let q = p.remove(m);
        let init = t.take(n - 1);
        lemma_perm_drop_last(p, n, m);
        lemma_total_permuted(init, q);
        lemma_total_remove(permuted(t, p), m);
        p.remove_ensures(m);
        assert(permuted(t, p).remove(m) =~= permuted(init, q)) by {
            assert forall|d: int| 0 <= d < n - 1 implies #[trigger] permuted(t, p).remove(m)[d] == permuted(
                init,
                q,
            )[d] by {
                assert(q[d] < n - 1);
            }
        }
        lemma_total_remove(t, n - 1);
        assert(t.remove(n - 1) =~= init);
    }
}

/// Reordering the factors of a product by a permutation leaves it
/// unchanged.
pub proof fn lemma_prod_permuted(t: Seq<int>, p: Seq<int>)
    requires
        is_perm(p, t.len() as int),
    ensures
        prod(permuted(t, p)) == prod(t),
    decreases t.len(),
{
    let n = t.len() as int;
    if n == 0 {
        assert(permuted(t, p) =~= Seq::<int>::empty());
    } else {
        assert(takes(p, n - 1));
        let m = choose|i: int| 0 <= i < p.len() && #[trigger] p[i] == n - 1;
        let q = p.remove(m);
        let init = t.take(n - 1);
        lemma_perm_drop_last(p, n, m);
        lemma_prod_permuted(init, q);
        lemma_prod_take_out(permuted(t, p), m);
        p.remove_ensures(m);
        assert(permuted(t, p).remove(m) =~= permuted(init, q)) by {
            assert forall|d: int| 0 <= d < n - 1 implies #[trigger] permuted(t, p).remove(m)[d] == permuted(
                init,
                q,
            )[d] by {
                assert(q[d] < n - 1);
            }
        }
        lemma_prod_take_out(t, n - 1);
        assert(t.remove(n - 1) =~= init);
    }
}

/// The products `a[i] * b[i]`.
pub open spec fn products(a: Seq<int>, b: Seq<int>) -> Seq<int> {
    Seq::new(a.len(), |i: int| a[i] * b[i])
}

/// A dot product is the sum of the pointwise products.
proof fn lemma_dot_total(a: Seq<int>, b: Seq<int>)
    requires
        a.len() == b.len(),
    ensures
        dot(a, b) == total(products(a, b)),
    decreases a.len(),
{
    if a.len() > 0 {
        lemma_dot_total(a.drop_first(), b.drop_first());
        assert(products(a, b).drop_first() =~= products(a.drop_first(), b.drop_first()));
    }
}

/// The largest offset is the dot product of the last positions.
proof fn lemma_max_offset_dot(s: Seq<int>, st: Seq<int>)
    requires
        s.len() == st.len(),
    ensures
        max_offset(s, st) == dot(Seq::new(s.len(), |i: int| s[i] - 1), st),
    decreases s.len(),
{
    if s.len() > 0 {
        lemma_max_offset_dot(s.drop_first(), st.drop_first());
        assert(Seq::new(s.len(), |i: int| s[i] - 1).drop_first() =~= Seq::new(
            s.drop_first().len(),
            |i: int| s.drop_first()[i] - 1,
        ));
    }
}

/// Reordering index and strides together keeps the offset.
pub proof fn lemma_dot_permuted(a: Seq<int>, b: Seq<int>, p: Seq<int>)
    requires
        a.len() == b.len(),
        is_perm(p, a.len() as int),
    ensures
        dot(permuted(a, p), permuted(b, p)) == dot(a, b),
{
    lemma_dot_total(a, b);
    lemma_dot_total(permuted(a, p), permuted(b, p));
    lemma_total_permuted(products(a, b), p);
    assert(products(permuted(a, p), permuted(b, p)) =~= permuted(products(a, b), p));
}

/// Reordering shape and strides together keeps the largest offset.
pub proof fn lemma_max_offset_permuted(s: Seq<int>, st: Seq<int>, p: Seq<int>)
    requires
        s.len() == st.len(),
        is_perm(p, s.len() as int),
    ensures
        max_offset(permuted(s, p), permuted(st, p)) == max_offset(s, st),
{
    let last = Seq::new(s.len(), |i: int| s[i] - 1);
    lemma_max_offset_dot(s, st);
    lemma_max_offset_dot(permuted(s, p), permuted(st, p));
    lemma_dot_permuted(last, st, p);
    assert(Seq::new(permuted(s, p).len(), |i: int| permuted(s, p)[i] - 1) =~= permuted(last, p));
}

/// The swap of two axes is a permutation.
pub proof fn lemma_swap_perm(n: int, a: int, b: int)
    requires
        0 <= a < n,
        0 <= b < n,
    ensures
        is_perm(swap_perm(n, a, b), n),
{
    let p = swap_perm(n, a, b);
    assert forall|v: int| 0 <= v < n implies #[trigger] takes(p, v) by {
        if v == a {
            assert(p[b] == a);
        } else if v == b {
            assert(p[a] == b);
        } else {
            assert(p[v] == v);
        }
    }
}

impl<T: Copy> NdArrayV<T> {
    /// View with axes reordered: axis `d` of the result is axis `perm[d]` of
    /// this view. `perm` must name every axis exactly once. Shares this view's
    /// parent; no element is copied.
    pub fn permute_axes(&self, perm: &[usize]) -> (v: NdArrayV<T>)
        requires
            self.wf(),
            is_perm(ints(perm@), self.dims.shape@.len() as int),
            fits(permuted(self.shape_s(), ints(perm@))),
        ensures
            v.wf(),
            v.source.same(&self.source),
            v.offset == self.offset,
            v.shape_s() == permuted(self.shape_s(), ints(perm@)),
            v.strides_s() == permuted(self.strides_s(), ints(perm@)),
            forall|idx: Seq<int>|
                in_bounds(idx, self.shape_s()) ==> in_bounds(permuted(idx, ints(perm@)), v.shape_s())
                    && #[trigger] v.elem(permuted(idx, ints(perm@))) == self.elem(idx),
    {
        let ghost p = ints(perm@);
        let ghost s = self.shape_s();
        let ghost st = self.strides_s();
        let n = perm.len();
        let mut shape: Vec<usize> = Vec::new();
        let mut strides: Vec<usize> = Vec::new();
        let mut d: usize = 0;
        while d < n
            invariant
                self.wf(),
                n == perm@.len(),
                p == ints(perm@),
                is_perm(p, s.len() as int),
                s == self.shape_s(),
                st == self.strides_s(),
                d <= n,
                shape@.len() == d,
                strides@.len() == d,
                forall|e: int| 0 <= e < d ==> #[trigger] shape@[e] == self.dims.shape@[perm@[e] as int],
                forall|e: int| 0 <= e < d ==> #[trigger] strides@[e] == self.dims.strides@[perm@[e] as int],
            decreases n - d,
        {
            assert(p[d as int] == perm@[d as int]);
            let ax = perm[d];
            shape.push(self.dims.shape[ax]);
            strides.push(self.dims.strides[ax]);
            d = d + 1;
        }
        proof {
            assert(ints(shape@) =~= permuted(s, p)) by {
                assert forall|e: int| 0 <= e < n implies #[trigger] ints(shape@)[e] == permuted(s, p)[e] by {
                    assert(p[e] == perm@[e]);
                }
            }
            assert(ints(strides@) =~= permuted(st, p)) by {
                assert forall|e: int| 0 <= e < n implies #[trigger] ints(strides@)[e] == permuted(st, p)[e] by {
                    assert(p[e] == perm@[e]);
                }
            }
            lemma_prod_permuted(s, p);
            lemma_max_offset_permuted(s, st, p);
            assert(nonneg(permuted(st, p)));
        }
        let v = NdArrayV { source: share(&self.source), offset: self.offset, dims: NdDims { shape, strides } };
        proof {
            assert forall|idx: Seq<int>| in_bounds(idx, s) implies in_bounds(permuted(idx, p), v.shape_s())
                && #[trigger] v.elem(permuted(idx, p)) == self.elem(idx) by {
                lemma_dot_permuted(idx, st, p);
            }
        }
        v
    }

    /// View with axes `a` and `b` exchanged. Shares this view's parent; no
    /// element is copied.
    pub fn swap_axes(&self, a: usize, b: usize) -> (v: NdArrayV<T>)
        requires
            self.wf(),
            a < self.dims.shape@.len(),
            b < self.dims.shape@.len(),
            fits(permuted(self.shape_s(), swap_perm(self.dims.shape@.len() as int, a as int, b as int))),
        ensures
            v.wf(),
            v.source.same(&self.source),
            v.offset == self.offset,
            v.shape_s() == permuted(self.shape_s(), swap_perm(self.dims.shape@.len() as int, a as int, b as int)),
            v.strides_s() == permuted(
                self.strides_s(),
                swap_perm(self.dims.shape@.len() as int, a as int, b as int),
            ),
            forall|idx: Seq<int>|
                in_bounds(idx, self.shape_s()) ==> #[trigger] v.elem(
                    permuted(idx, swap_perm(self.dims.shape@.len() as int, a as int, b as int)),
                ) == self.elem(idx),
    {
        let n = self.dims.ndim();
        let mut perm: Vec<usize> = Vec::new();
        let mut i: usize = 0;
        while i < n
            invariant
                n == self.dims.shape@.len(),
                a < n,
                b < n,
                i <= n,
                perm@.len() == i,
                forall|e: int| 0 <= e < i ==> #[trigger] perm@[e] == swap_perm(n as int, a as int, b as int)[e],
            decreases n - i,
        {
            if i == a {
                perm.push(b);
            } else if i == b {
                perm.push(a);
            } else {
                perm.push(i);
            }
            i = i + 1;
        }
        proof {
            assert(ints(perm@) =~= swap_perm(n as int, a as int, b as int));
            lemma_swap_perm(n as int, a as int, b as int);
        }
        self.permute_axes(perm.as_slice())
    }
}


/// Swapping the same two axes twice restores the original order.
pub proof fn law_swap_twice<A>(x: Seq<A>, a: int, b: int)
    requires
        0 <= a < x.len(),
        0 <= b < x.len(),
    ensures
        permuted(permuted(x, swap_perm(x.len() as int, a, b)), swap_perm(x.len() as int, a, b)) == x,
{
    let p = swap_perm(x.len() as int, a, b);
    assert(permuted(permuted(x, p), p) =~= x);
}

} // verus!
