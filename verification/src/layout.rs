//! Column-major layout arithmetic shared by every n-dimensional container:
//! element counts, compact strides, flat offsets and the logical
//! (column-major) order of elements in a strided buffer.
//!
//! Specifications work on integer sequences; `ints` lifts a `usize`
//! sequence into them.

use vstd::prelude::*;

verus! {

/// A `usize` sequence read as mathematical integers.
pub open spec fn ints(s: Seq<usize>) -> Seq<int> {
    s.map_values(|x: usize| x as int)
}

/// The two-dimensional index `[i, j]`.
pub open spec fn idx2(i: int, j: int) -> Seq<int> {
    seq![i, j]
}

/// Every entry is non-negative.
pub open spec fn nonneg(s: Seq<int>) -> bool {
    forall|i: int| 0 <= i < s.len() ==> s[i] >= 0
}

/// Product of all dimensions: the logical element count of a shape.
pub open spec fn prod(s: Seq<int>) -> int
    decreases s.len(),
{
    if s.len() == 0 {
        1
    } else {
        s[0] * prod(s.drop_first())
    }
}

/// Sum of `idx[d] * strides[d]`: the buffer offset of a multi-index.
pub open spec fn dot(idx: Seq<int>, strides: Seq<int>) -> int
    decreases idx.len(),
{
    if idx.len() == 0 {
        0
    } else {
        idx[0] * strides[0] + dot(idx.drop_first(), strides.drop_first())
    }
}

/// Offset of the last logical element: sum of `(shape[d] - 1) * strides[d]`.
pub open spec fn max_offset(shape: Seq<int>, strides: Seq<int>) -> int
    decreases shape.len(),
{
    if shape.len() == 0 {
        0
    } else {
        (shape[0] - 1) * strides[0] + max_offset(shape.drop_first(), strides.drop_first())
    }
}

/// The column-major multi-index of logical position `k` (axis 0 varies
/// fastest).
pub open spec fn unflatten(k: int, shape: Seq<int>) -> Seq<int>
    decreases shape.len(),
{
    if shape.len() == 0 {
        Seq::empty()
    } else {
        seq![k % shape[0]] + unflatten(k / shape[0], shape.drop_first())
    }
}

/// The logical position of a column-major multi-index.
pub open spec fn flatten(idx: Seq<int>, shape: Seq<int>) -> int
    decreases idx.len(),
{
    if idx.len() == 0 {
        0
    } else {
        idx[0] + shape[0] * flatten(idx.drop_first(), shape.drop_first())
    }
}

/// `idx` addresses an element of `shape`.
pub open spec fn in_bounds(idx: Seq<int>, shape: Seq<int>) -> bool {
    &&& idx.len() == shape.len()
    &&& forall|d: int| 0 <= d < idx.len() ==> 0 <= #[trigger] idx[d] < shape[d]
}

/// Compact column-major strides: `strides[d]` is the product of the
/// dimensions before `d`.
pub open spec fn is_compact(shape: Seq<int>, strides: Seq<int>) -> bool {
    &&& strides.len() == shape.len()
    &&& forall|d: int| 0 <= d < shape.len() ==> #[trigger] strides[d] == prod(shape.take(d))
}

/// Every prefix product of the shape, the full product included, fits in
/// a `usize`.
pub open spec fn fits(shape: Seq<int>) -> bool {
    &&& nonneg(shape)
    &&& forall|d: int| 0 <= d <= shape.len() ==> #[trigger] prod(shape.take(d)) <= usize::MAX
}

/// A buffer of `len` elements starting at `base` holds every element that
/// `shape` and `strides` address.
pub open spec fn layout_ok(len: int, base: int, shape: Seq<int>, strides: Seq<int>) -> bool {
    &&& shape.len() == strides.len()
    &&& nonneg(shape)
    &&& nonneg(strides)
    &&& 0 <= base
    &&& prod(shape) > 0 ==> base + max_offset(shape, strides) < len
}

/// The elements a strided layout addresses, in column-major logical order.
pub open spec fn logical<T>(data: Seq<T>, base: int, shape: Seq<int>, strides: Seq<int>) -> Seq<T> {
    Seq::new(prod(shape) as nat, |k: int| data[base + dot(unflatten(k, shape), strides)])
}

/// Buffer length a layout needs: one past the last addressed offset, or
/// nothing when the layout addresses no element.
pub open spec fn required_len(shape: Seq<int>, strides: Seq<int>) -> int {
    if prod(shape) == 0 {
        0
    } else {
        max_offset(shape, strides) + 1
    }
}

// ---------------------------------------------------------------------
// Lemmas
// ---------------------------------------------------------------------

pub proof fn lemma_prod_nonneg(s: Seq<int>)
    requires
        nonneg(s),
    ensures
        prod(s) >= 0,
    decreases s.len(),
{
    if s.len() > 0 {
        lemma_prod_nonneg(s.drop_first());
        assert(s[0] * prod(s.drop_first()) >= 0) by (nonlinear_arith)
            requires
                s[0] >= 0,
                prod(s.drop_first()) >= 0,
        ;
    }
}

/// A positive product means no dimension is zero.
pub proof fn lemma_prod_pos(s: Seq<int>)
    requires
        nonneg(s),
        prod(s) > 0,
    ensures
        forall|d: int| 0 <= d < s.len() ==> #[trigger] s[d] > 0,
    decreases s.len(),
{
    if s.len() > 0 {
        lemma_prod_nonneg(s.drop_first());
        if s[0] == 0 {
            assert(s[0] * prod(s.drop_first()) == 0);
        }
        if prod(s.drop_first()) <= 0 {
            assert(s[0] * prod(s.drop_first()) <= 0) by (nonlinear_arith)
                requires
                    s[0] >= 0,
                    prod(s.drop_first()) <= 0,
            ;
        }
        lemma_prod_pos(s.drop_first());
        assert forall|d: int| 0 <= d < s.len() implies #[trigger] s[d] > 0 by {
            if d > 0 {
                assert(s[d] == s.drop_first()[d - 1]);
            }
        }
    }
}

/// A zero dimension makes the product zero.
pub proof fn lemma_prod_zero(s: Seq<int>, d: int)
    requires
        0 <= d < s.len(),
        s[d] == 0,
    ensures
        prod(s) == 0,
    decreases s.len(),
{
    if d > 0 {
        assert(s.drop_first()[d - 1] == 0);
        lemma_prod_zero(s.drop_first(), d - 1);
    }
}

/// Appending a dimension multiplies the product.
pub proof fn lemma_prod_push(s: Seq<int>, x: int)
    ensures
        prod(s.push(x)) == prod(s) * x,
    decreases s.len(),
{
    if s.len() == 0 {
        assert(s.push(x).drop_first() =~= Seq::<int>::empty());
        assert(prod(s.push(x)) == s.push(x)[0] * prod(s.push(x).drop_first()));
    } else {
        assert(s.push(x).drop_first() =~= s.drop_first().push(x));
        assert(prod(s.push(x)) == s.push(x)[0] * prod(s.push(x).drop_first()));
        lemma_prod_push(s.drop_first(), x);
        assert(s[0] * (prod(s.drop_first()) * x) == (s[0] * prod(s.drop_first())) * x)
            by (nonlinear_arith);
    }
}

/// `prod(s.take(d + 1)) == prod(s.take(d)) * s[d]`.
pub proof fn lemma_prod_take_step(s: Seq<int>, d: int)
    requires
        0 <= d < s.len(),
    ensures
        prod(s.take(d + 1)) == prod(s.take(d)) * s[d],
{
    assert(s.take(d + 1) =~= s.take(d).push(s[d]));
    lemma_prod_push(s.take(d), s[d]);
}

/// Prefix products of a non-negative shape with a positive product are
/// bounded by the full product.
pub proof fn lemma_prod_take_le(s: Seq<int>, d: int)
    requires
        nonneg(s),
        prod(s) > 0,
        0 <= d <= s.len(),
    ensures
        0 < prod(s.take(d)) <= prod(s),
    decreases s.len() - d,
{
    lemma_prod_pos(s);
    if d == s.len() {
        assert(s.take(d) =~= s);
    } else {
        lemma_prod_take_le(s, d + 1);
        lemma_prod_take_step(s, d);
        assert(s[d] > 0);
        assert(prod(s.take(d)) > 0 && prod(s.take(d)) <= prod(s.take(d)) * s[d]) by (nonlinear_arith)
            requires
                s[d] >= 1,
                prod(s.take(d)) * s[d] > 0,
                prod(s.take(d)) * s[d] <= prod(s),
        ;
    }
}

/// Peeling the first term off a suffix of a dot product.
pub proof fn lemma_dot_skip(idx: Seq<int>, strides: Seq<int>, d: int)
    requires
        0 <= d < idx.len(),
        idx.len() <= strides.len(),
    ensures
        dot(idx.skip(d), strides.skip(d)) == idx[d] * strides[d] + dot(idx.skip(d + 1), strides.skip(d + 1)),
{
    assert(idx.skip(d).drop_first() =~= idx.skip(d + 1));
    assert(strides.skip(d).drop_first() =~= strides.skip(d + 1));
}

/// Same peeling for `max_offset`.
pub proof fn lemma_max_offset_skip(shape: Seq<int>, strides: Seq<int>, d: int)
    requires
        0 <= d < shape.len(),
        shape.len() <= strides.len(),
    ensures
        max_offset(shape.skip(d), strides.skip(d)) == (shape[d] - 1) * strides[d] + max_offset(
            shape.skip(d + 1),
            strides.skip(d + 1),
        ),
{
    assert(shape.skip(d).drop_first() =~= shape.skip(d + 1));
    assert(strides.skip(d).drop_first() =~= strides.skip(d + 1));
}

pub proof fn lemma_dot_nonneg(idx: Seq<int>, strides: Seq<int>)
    requires
        nonneg(idx),
        nonneg(strides),
        idx.len() <= strides.len(),
    ensures
        dot(idx, strides) >= 0,
    decreases idx.len(),
{
    if idx.len() > 0 {
        lemma_dot_nonneg(idx.drop_first(), strides.drop_first());
        assert(idx[0] * strides[0] >= 0) by (nonlinear_arith)
            requires
                idx[0] >= 0,
                strides[0] >= 0,
        ;
    }
}

/// An in-bounds multi-index lands between offset 0 and the last offset.
pub proof fn lemma_dot_bound(idx: Seq<int>, shape: Seq<int>, strides: Seq<int>)
    requires
        in_bounds(idx, shape),
        strides.len() == shape.len(),
        nonneg(strides),
    ensures
        0 <= dot(idx, strides) <= max_offset(shape, strides),
    decreases idx.len(),
{
    if idx.len() > 0 {
        assert(in_bounds(idx.drop_first(), shape.drop_first())) by {
            assert forall|d: int| 0 <= d < idx.drop_first().len() implies 0
                <= #[trigger] idx.drop_first()[d] < shape.drop_first()[d] by {
                assert(idx.drop_first()[d] == idx[d + 1]);
                assert(0 <= idx[d + 1] < shape[d + 1]);
            }
        }
        lemma_dot_bound(idx.drop_first(), shape.drop_first(), strides.drop_first());
        assert(0 <= idx[0] < shape[0]);
        assert(0 <= idx[0] * strides[0] <= (shape[0] - 1) * strides[0]) by (nonlinear_arith)
            requires
                0 <= idx[0] <= shape[0] - 1,
                strides[0] >= 0,
        ;
    }
}

/// Column-major positions below the element count unflatten in bounds.
pub proof fn lemma_unflatten_in_bounds(k: int, shape: Seq<int>)
    requires
        nonneg(shape),
        0 <= k < prod(shape),
    ensures
        in_bounds(unflatten(k, shape), shape),
    decreases shape.len(),
{
    if shape.len() > 0 {
        let s0 = shape[0];
        let rest = shape.drop_first();
        lemma_prod_nonneg(rest);
        lemma_prod_pos(shape);
        assert(s0 > 0);
        vstd::arithmetic::div_mod::lemma_mod_bound(k, s0);
        vstd::arithmetic::div_mod::lemma_div_pos_is_pos(k, s0);
        assert(k / s0 < prod(rest)) by {
            vstd::arithmetic::div_mod::lemma_multiply_divide_lt(k, s0, prod(rest));
        }
        lemma_unflatten_in_bounds(k / s0, rest);
        let u = unflatten(k, shape);
        assert forall|d: int| 0 <= d < u.len() implies 0 <= #[trigger] u[d] < shape[d] by {
            if d > 0 {
                assert(u[d] == unflatten(k / s0, rest)[d - 1]);
                assert(shape[d] == rest[d - 1]);
            }
        }
    }
}

/// Under compact strides, the offset of logical position `k` is `k`.
pub proof fn lemma_compact_offset(k: int, shape: Seq<int>, strides: Seq<int>)
    requires
        nonneg(shape),
        is_compact(shape, strides),
        0 <= k < prod(shape),
    ensures
        dot(unflatten(k, shape), strides) == k,
    decreases shape.len(),
{
    if shape.len() > 0 {
        let s0 = shape[0];
        let rest = shape.drop_first();
        lemma_prod_pos(shape);
        lemma_prod_nonneg(rest);
        let scaled = Seq::new(rest.len(), |d: int| prod(rest.take(d)));
        assert(is_compact(rest, scaled));
        assert(k / s0 < prod(rest)) by {
            vstd::arithmetic::div_mod::lemma_multiply_divide_lt(k, s0, prod(rest));
        }
        vstd::arithmetic::div_mod::lemma_div_pos_is_pos(k, s0);
        lemma_compact_offset(k / s0, rest, scaled);
        // The strides after the first are the rest's compact strides scaled by s0.
        assert forall|d: int| 0 <= d < rest.len() implies #[trigger] strides.drop_first()[d]
            == s0 * scaled[d] by {
            assert(shape.take(d + 1).drop_first() =~= rest.take(d));
            assert(strides.drop_first()[d] == strides[d + 1]);
        }
        lemma_unflatten_len(k / s0, rest);
        lemma_dot_scale(unflatten(k / s0, rest), strides.drop_first(), scaled, s0);
        assert(unflatten(k, shape).drop_first() =~= unflatten(k / s0, rest));
        assert(strides[0] == 1) by {
            assert(shape.take(0) =~= Seq::<int>::empty());
        }
        vstd::arithmetic::div_mod::lemma_fundamental_div_mod(k, s0);
        assert(k == (k % s0) * 1 + s0 * (k / s0));
    }
}

pub proof fn lemma_unflatten_len(k: int, shape: Seq<int>)
    ensures
        unflatten(k, shape).len() == shape.len(),
    decreases shape.len(),
{
    if shape.len() > 0 {
        lemma_unflatten_len(k / shape[0], shape.drop_first());
    }
}

/// A dot product against strides that are `c` times others is `c` times
/// the other dot product.
pub proof fn lemma_dot_scale(idx: Seq<int>, a: Seq<int>, b: Seq<int>, c: int)
    requires
        idx.len() <= a.len(),
        idx.len() <= b.len(),
        forall|d: int| 0 <= d < idx.len() ==> #[trigger] a[d] == c * b[d],
    ensures
        dot(idx, a) == c * dot(idx, b),
    decreases idx.len(),
{
    if idx.len() > 0 {
        assert forall|d: int| 0 <= d < idx.drop_first().len() implies #[trigger] a.drop_first()[d]
            == c * b.drop_first()[d] by {
            assert(a.drop_first()[d] == a[d + 1]);
            assert(b.drop_first()[d] == b[d + 1]);
        }
        lemma_dot_scale(idx.drop_first(), a.drop_first(), b.drop_first(), c);
        assert(idx[0] * (c * b[0]) + c * dot(idx.drop_first(), b.drop_first()) == c * (idx[0]
            * b[0] + dot(idx.drop_first(), b.drop_first()))) by (nonlinear_arith);
    }
}

/// Flattening an in-bounds index and unflattening it gives it back, and
/// its position lies below the element count.
pub proof fn lemma_flatten_roundtrip(idx: Seq<int>, shape: Seq<int>)
    requires
        in_bounds(idx, shape),
    ensures
        0 <= flatten(idx, shape) < prod(shape),
        unflatten(flatten(idx, shape), shape) == idx,
    decreases idx.len(),
{
    if idx.len() > 0 {
        let s0 = shape[0];
        let rest = shape.drop_first();
        assert(in_bounds(idx.drop_first(), rest)) by {
            assert forall|d: int| 0 <= d < idx.drop_first().len() implies 0
                <= #[trigger] idx.drop_first()[d] < rest[d] by {
                assert(idx.drop_first()[d] == idx[d + 1]);
                assert(0 <= idx[d + 1] < shape[d + 1]);
            }
        }
        lemma_flatten_roundtrip(idx.drop_first(), rest);
        let f = flatten(idx.drop_first(), rest);
        assert(0 <= idx[0] < s0);
        let k = idx[0] + s0 * f;
        vstd::arithmetic::div_mod::lemma_fundamental_div_mod_converse(k, s0, f, idx[0]);
        assert(0 <= k < s0 * prod(rest)) by (nonlinear_arith)
            requires
                0 <= idx[0] < s0,
                0 <= f < prod(rest),
                k == idx[0] + s0 * f,
        ;
        assert(unflatten(k, shape) =~= idx);
    } else {
        assert(unflatten(0, shape) =~= idx);
    }
}

/// The logical elements of a compact layout are the buffer's first
/// `prod(shape)` elements.
pub proof fn lemma_logical_compact<T>(data: Seq<T>, shape: Seq<int>, strides: Seq<int>)
    requires
        nonneg(shape),
        is_compact(shape, strides),
        prod(shape) <= data.len(),
    ensures
        logical(data, 0, shape, strides) == data.take(prod(shape)),
{
    lemma_prod_nonneg(shape);
    assert forall|k: int| 0 <= k < prod(shape) implies #[trigger] logical(data, 0, shape, strides)[k]
        == data.take(prod(shape))[k] by {
        lemma_compact_offset(k, shape, strides);
    }
    assert(logical(data, 0, shape, strides) =~= data.take(prod(shape)));
}

/// Compact strides address exactly `prod(shape)` elements.
pub proof fn lemma_compact_max_offset(shape: Seq<int>, strides: Seq<int>)
    requires
        nonneg(shape),
        is_compact(shape, strides),
        prod(shape) > 0,
    ensures
        max_offset(shape, strides) == prod(shape) - 1,
{
    lemma_prod_pos(shape);
    let last = Seq::new(shape.len(), |d: int| shape[d] - 1);
    assert(in_bounds(last, shape));
    lemma_flatten_roundtrip(last, shape);
    lemma_compact_offset(flatten(last, shape), shape, strides);
    lemma_dot_is_max(shape, strides);
    lemma_flatten_last(shape);
}

/// `max_offset` is the dot product of the last multi-index.
pub proof fn lemma_dot_is_max(shape: Seq<int>, strides: Seq<int>)
    ensures
        dot(Seq::new(shape.len(), |d: int| shape[d] - 1), strides) == max_offset(shape, strides),
    decreases shape.len(),
{
    if shape.len() > 0 {
        let last = Seq::new(shape.len(), |d: int| shape[d] - 1);
        assert(last.drop_first() =~= Seq::new(shape.drop_first().len(), |d: int| shape.drop_first()[d] - 1));
        lemma_dot_is_max(shape.drop_first(), strides.drop_first());
    }
}

/// The last multi-index flattens to the last position.
pub proof fn lemma_flatten_last(shape: Seq<int>)
    ensures
        flatten(Seq::new(shape.len(), |d: int| shape[d] - 1), shape) == prod(shape) - 1,
    decreases shape.len(),
{
    if shape.len() > 0 {
        let last = Seq::new(shape.len(), |d: int| shape[d] - 1);
        assert(last.drop_first() =~= Seq::new(shape.drop_first().len(), |d: int| shape.drop_first()[d] - 1));
        lemma_flatten_last(shape.drop_first());
        let p = prod(shape.drop_first());
        assert((shape[0] - 1) + shape[0] * (p - 1) == shape[0] * p - 1) by (nonlinear_arith);
    }
}

// ---------------------------------------------------------------------
// Executable layout helpers
// ---------------------------------------------------------------------

/// Compact column-major strides: for a shape `[a, b, c]` the strides are
/// `[1, a, a * b]`, so the buffer is fully contiguous.
pub fn col_major_strides(shape: &[usize]) -> (strides: Vec<usize>)
    requires
        fits(ints(shape@)),
    ensures
        is_compact(ints(shape@), ints(strides@)),
{
    let ghost s = ints(shape@);
    let mut strides: Vec<usize> = Vec::new();
    let mut expected: usize = 1;
    let mut d: usize = 0;
    assert(s.take(0) =~= Seq::<int>::empty());
    while d < shape.len()
        invariant
            s == ints(shape@),
            fits(s),
            d <= shape.len(),
            strides@.len() == d,
            expected == prod(s.take(d as int)),
            forall|j: int| 0 <= j < d ==> #[trigger] strides@[j] == prod(s.take(j)),
        decreases shape.len() - d,
    {
        strides.push(expected);
        proof {
            lemma_prod_take_step(s, d as int);
        }
        assert(prod(s.take(d as int + 1)) <= usize::MAX);
        expected = expected * shape[d];
        d = d + 1;
    }
    assert(ints(strides@).len() == s.len());
    strides
}

/// Number of buffer elements a shape and stride pattern need: one past the
/// offset of the last element, or zero when any dimension is empty.
pub fn buffer_len(shape: &[usize], strides: &[usize]) -> (len: usize)
    requires
        shape@.len() == strides@.len(),
        max_offset(ints(shape@), ints(strides@)) < usize::MAX,
    ensures
        len == required_len(ints(shape@), ints(strides@)),
{
    let ghost s = ints(shape@);
    let ghost st = ints(strides@);
    let mut d: usize = 0;
    while d < shape.len()
        invariant
            s == ints(shape@),
            d <= shape.len(),
            forall|j: int| 0 <= j < d ==> #[trigger] s[j] > 0,
        decreases shape.len() - d,
    {
        if shape[d] == 0 {
            proof {
                lemma_prod_zero(s, d as int);
            }
            return 0;
        }
        d = d + 1;
    }
    let mut total: usize = 0;
    let mut e: usize = 0;
    assert(s.skip(0) =~= s);
    assert(st.skip(0) =~= st);
    while e < shape.len()
        invariant
            s == ints(shape@),
            st == ints(strides@),
            s.len() == st.len(),
            e <= shape.len(),
            forall|j: int| 0 <= j < s.len() ==> #[trigger] s[j] > 0,
            max_offset(s, st) < usize::MAX,
            total + max_offset(s.skip(e as int), st.skip(e as int)) == max_offset(s, st),
        decreases shape.len() - e,
    {
        proof {
            lemma_max_offset_skip(s, st, e as int);
            lemma_max_offset_nonneg(s.skip(e as int + 1), st.skip(e as int + 1));
            assert((s[e as int] - 1) * st[e as int] >= 0) by (nonlinear_arith)
                requires
                    s[e as int] >= 1,
                    st[e as int] >= 0,
            ;
        }
        total = total + (shape[e] - 1) * strides[e];
        e = e + 1;
    }
    proof {
        assert(s.skip(s.len() as int) =~= Seq::<int>::empty());
        lemma_prod_all_pos(s);
    }
    total + 1
}

/// `max_offset` of non-negative-extent dimensions is non-negative.
pub proof fn lemma_max_offset_nonneg(shape: Seq<int>, strides: Seq<int>)
    requires
        forall|d: int| 0 <= d < shape.len() ==> #[trigger] shape[d] > 0,
        nonneg(strides),
        shape.len() <= strides.len(),
    ensures
        max_offset(shape, strides) >= 0,
    decreases shape.len(),
{
    if shape.len() > 0 {
        assert forall|d: int| 0 <= d < shape.drop_first().len() implies #[trigger] shape.drop_first()[d] > 0 by {
            assert(shape.drop_first()[d] == shape[d + 1]);
        }
        assert forall|d: int| 0 <= d < strides.drop_first().len() implies #[trigger] strides.drop_first()[d] >= 0 by {
            assert(strides.drop_first()[d] == strides[d + 1]);
        }
        lemma_max_offset_nonneg(shape.drop_first(), strides.drop_first());
        assert((shape[0] - 1) * strides[0] >= 0) by (nonlinear_arith)
            requires
                shape[0] >= 1,
                strides[0] >= 0,
        ;
    }
}

/// A shape with no empty dimension has a positive product.
pub proof fn lemma_prod_all_pos(s: Seq<int>)
    requires
        forall|d: int| 0 <= d < s.len() ==> #[trigger] s[d] > 0,
    ensures
        prod(s) > 0,
    decreases s.len(),
{
    if s.len() > 0 {
        assert forall|d: int| 0 <= d < s.drop_first().len() implies #[trigger] s.drop_first()[d] > 0 by {
            assert(s.drop_first()[d] == s[d + 1]);
        }
        lemma_prod_all_pos(s.drop_first());
        assert(s[0] * prod(s.drop_first()) > 0) by (nonlinear_arith)
            requires
                s[0] > 0,
                prod(s.drop_first()) > 0,
        ;
    }
}

/// Flat buffer offset of an N-dimensional index.
pub fn offset_of_impl(indices: &[usize], shape: &[usize], strides: &[usize]) -> (offset: usize)
    requires
        in_bounds(ints(indices@), ints(shape@)),
        strides@.len() == shape@.len(),
        max_offset(ints(shape@), ints(strides@)) <= usize::MAX,
    ensures
        offset == dot(ints(indices@), ints(strides@)),
{
    let ghost idx = ints(indices@);
    let ghost s = ints(shape@);
    let ghost st = ints(strides@);
    proof {
        lemma_dot_bound(idx, s, st);
    }
    let mut offset: usize = 0;
    let mut d: usize = 0;
    assert(idx.skip(0) =~= idx);
    assert(st.skip(0) =~= st);
    while d < shape.len()
        invariant
            idx == ints(indices@),
            s == ints(shape@),
            st == ints(strides@),
            idx.len() == s.len(),
            s.len() == st.len(),
            d <= shape.len(),
            in_bounds(idx, s),
            dot(idx, st) <= usize::MAX,
            offset + dot(idx.skip(d as int), st.skip(d as int)) == dot(idx, st),
        decreases shape.len() - d,
    {
        proof {
            lemma_dot_skip(idx, st, d as int);
            assert(nonneg(idx.skip(d as int + 1))) by {
                assert forall|i: int| 0 <= i < idx.skip(d as int + 1).len() implies #[trigger] idx.skip(
                    d as int + 1,
                )[i] >= 0 by {
                    assert(idx.skip(d as int + 1)[i] == idx[d + 1 + i]);
                }
            }
            assert(nonneg(st.skip(d as int + 1)));
            lemma_dot_nonneg(idx.skip(d as int + 1), st.skip(d as int + 1));
            assert(idx[d as int] * st[d as int] >= 0) by (nonlinear_arith)
                requires
                    idx[d as int] >= 0,
                    st[d as int] >= 0,
            ;
        }
        offset = offset + indices[d] * strides[d];
        d = d + 1;
    }
    assert(idx.skip(idx.len() as int) =~= Seq::<int>::empty());
    offset
}


/// The logical element count of a shape.
pub fn shape_len(shape: &[usize]) -> (n: usize)
    requires
        fits(ints(shape@)),
    ensures
        n == prod(ints(shape@)),
{
    let ghost s = ints(shape@);
    let mut acc: usize = 1;
    let mut d: usize = 0;
    assert(s.take(0) =~= Seq::<int>::empty());
    while d < shape.len()
        invariant
            s == ints(shape@),
            fits(s),
            d <= shape.len(),
            acc == prod(s.take(d as int)),
        decreases shape.len() - d,
    {
        proof {
            lemma_prod_take_step(s, d as int);
        }
        assert(prod(s.take(d as int + 1)) <= usize::MAX);
        acc = acc * shape[d];
        d = d + 1;
    }
    assert(s.take(s.len() as int) =~= s);
    acc
}

/// Buffer offset of the element at logical (column-major) position `k`.
pub fn position_offset(k: usize, shape: &[usize], strides: &[usize]) -> (offset: usize)
    requires
        shape@.len() == strides@.len(),
        k < prod(ints(shape@)),
        max_offset(ints(shape@), ints(strides@)) <= usize::MAX,
    ensures
        offset == dot(unflatten(k as int, ints(shape@)), ints(strides@)),
{
    let ghost s = ints(shape@);
    let ghost st = ints(strides@);
    let ghost target = dot(unflatten(k as int, s), st);
    proof {
        lemma_unflatten_in_bounds(k as int, s);
        lemma_dot_bound(unflatten(k as int, s), s, st);
        lemma_prod_pos(s);
    }
    let mut rem: usize = k;
    let mut offset: usize = 0;
    let mut d: usize = 0;
    assert(s.skip(0) =~= s);
    assert(st.skip(0) =~= st);
    while d < shape.len()
        invariant
            s == ints(shape@),
            st == ints(strides@),
            s.len() == st.len(),
            d <= s.len(),
            forall|j: int| 0 <= j < s.len() ==> #[trigger] s[j] > 0,
            nonneg(st),
            0 <= rem < prod(s.skip(d as int)),
            target <= usize::MAX,
            offset + dot(unflatten(rem as int, s.skip(d as int)), st.skip(d as int)) == target,
        decreases s.len() - d,
    {
        let ghost sd = s.skip(d as int);
        let ghost rest = s.skip(d as int + 1);
        proof {
            assert(sd.drop_first() =~= rest);
            assert(st.skip(d as int).drop_first() =~= st.skip(d as int + 1));
            assert(sd[0] == s[d as int]);
            lemma_prod_nonneg(rest);
            vstd::arithmetic::div_mod::lemma_mod_bound(rem as int, s[d as int]);
            vstd::arithmetic::div_mod::lemma_div_pos_is_pos(rem as int, s[d as int]);
            vstd::arithmetic::div_mod::lemma_multiply_divide_lt(rem as int, s[d as int], prod(rest));
            assert(nonneg(st.skip(d as int + 1)));
            lemma_unflatten_in_bounds(rem as int / s[d as int], rest);
            assert(nonneg(unflatten(rem as int / s[d as int], rest))) by {
                let u = unflatten(rem as int / s[d as int], rest);
                assert forall|i: int| 0 <= i < u.len() implies #[trigger] u[i] >= 0 by {
                    assert(0 <= u[i]);
                }
            }
            lemma_dot_nonneg(unflatten(rem as int / s[d as int], rest), st.skip(d as int + 1));
            assert((rem as int % s[d as int]) * st[d as int] >= 0) by (nonlinear_arith)
                requires
                    rem as int % s[d as int] >= 0,
                    st[d as int] >= 0,
            ;
            assert(unflatten(rem as int, sd).drop_first() =~= unflatten(rem as int / s[d as int], rest));
        }
        let digit = rem % shape[d];
        rem = rem / shape[d];
        offset = offset + digit * strides[d];
        d = d + 1;
    }
    assert(s.skip(s.len() as int) =~= Seq::<int>::empty());
    offset
}

/// Copies the elements a strided layout addresses, in column-major order.
pub fn gather<T: Copy>(data: &Vec<T>, base: usize, shape: &[usize], strides: &[usize]) -> (out: Vec<T>)
    requires
        layout_ok(data@.len() as int, base as int, ints(shape@), ints(strides@)),
        fits(ints(shape@)),
    ensures
        out@ == logical(data@, base as int, ints(shape@), ints(strides@)),
{
    let ghost s = ints(shape@);
    let ghost st = ints(strides@);
    let n = shape_len(shape);
    let data_len = data.len();
    let mut out: Vec<T> = Vec::new();
    let mut k: usize = 0;
    while k < n
        invariant
            data_len == data@.len(),
            s == ints(shape@),
            st == ints(strides@),
            n == prod(s),
            k <= n,
            layout_ok(data@.len() as int, base as int, s, st),
            out@.len() == k,
            forall|j: int| 0 <= j < k ==> #[trigger] out@[j] == logical(data@, base as int, s, st)[j],
        decreases n - k,
    {
        proof {
            lemma_unflatten_in_bounds(k as int, s);
            lemma_dot_bound(unflatten(k as int, s), s, st);
            assert(prod(s) > 0);
            assert(base + max_offset(s, st) < data_len);
        }
        let off = position_offset(k, shape, strides);
        out.push(data[base + off]);
        k = k + 1;
    }
    proof {
        lemma_prod_nonneg(s);
    }
    assert(out@ =~= logical(data@, base as int, s, st));
    out
}

/// A vector of `n` copies of `value`.
pub fn filled<T: Copy>(n: usize, value: T) -> (out: Vec<T>)
    ensures
        out@ == Seq::new(n as nat, |i: int| value),
{
    let mut out: Vec<T> = Vec::new();
    let mut i: usize = 0;
    while i < n
        invariant
            i <= n,
            out@ == Seq::new(i as nat, |j: int| value),
        decreases n - i,
    {
        out.push(value);
        i = i + 1;
        assert(out@ =~= Seq::new(i as nat, |j: int| value));
    }
    out
}


/// Appending one term to both sides of a dot product.
pub proof fn lemma_dot_push(a: Seq<int>, b: Seq<int>, x: int, y: int)
    requires
        a.len() == b.len(),
    ensures
        dot(a.push(x), b.push(y)) == dot(a, b) + x * y,
    decreases a.len(),
{
    if a.len() == 0 {
        assert(a.push(x).drop_first() =~= Seq::<int>::empty());
        assert(b.push(y)[0] == y);
        assert(dot(a.push(x), b.push(y)) == x * y + dot(a.push(x).drop_first(), b.push(y).drop_first()));
    } else {
        assert(a.push(x).drop_first() =~= a.drop_first().push(x));
        assert(b.push(y).drop_first() =~= b.drop_first().push(y));
        lemma_dot_push(a.drop_first(), b.drop_first(), x, y);
        assert(dot(a.push(x), b.push(y)) == a[0] * b[0] + dot(a.push(x).drop_first(), b.push(y).drop_first()));
    }
}

/// Reversing both the index and the strides keeps the dot product.
pub proof fn lemma_dot_reverse(a: Seq<int>, b: Seq<int>)
    requires
        a.len() == b.len(),
    ensures
        dot(a.reverse(), b.reverse()) == dot(a, b),
    decreases a.len(),
{
    if a.len() > 0 {
        let a1 = a.drop_last();
        let b1 = b.drop_last();
        assert(a.reverse().drop_first() =~= a1.reverse());
        assert(b.reverse().drop_first() =~= b1.reverse());
        lemma_dot_reverse(a1, b1);
        assert(a =~= a1.push(a.last()));
        assert(b =~= b1.push(b.last()));
        lemma_dot_push(a1, b1, a.last(), b.last());
    }
}

/// Reversing a shape keeps its product.
pub proof fn lemma_prod_reverse(s: Seq<int>)
    ensures
        prod(s.reverse()) == prod(s),
    decreases s.len(),
{
    if s.len() > 0 {
        let s1 = s.drop_last();
        assert(s.reverse().drop_first() =~= s1.reverse());
        lemma_prod_reverse(s1);
        assert(s =~= s1.push(s.last()));
        lemma_prod_push(s1, s.last());
        assert(s.last() * prod(s1) == prod(s1) * s.last()) by (nonlinear_arith);
    }
}

/// Reversing a layout keeps its last offset.
pub proof fn lemma_max_offset_reverse(shape: Seq<int>, strides: Seq<int>)
    requires
        shape.len() == strides.len(),
    ensures
        max_offset(shape.reverse(), strides.reverse()) == max_offset(shape, strides),
{
    let last = Seq::new(shape.len(), |d: int| shape[d] - 1);
    let rlast = Seq::new(shape.reverse().len(), |d: int| shape.reverse()[d] - 1);
    assert(rlast =~= last.reverse());
    lemma_dot_is_max(shape, strides);
    lemma_dot_is_max(shape.reverse(), strides.reverse());
    lemma_dot_reverse(last, strides);
}

/// A reversed layout addresses the same buffer range.
pub proof fn lemma_layout_reverse(len: int, base: int, shape: Seq<int>, strides: Seq<int>)
    requires
        layout_ok(len, base, shape, strides),
    ensures
        layout_ok(len, base, shape.reverse(), strides.reverse()),
{
    lemma_prod_reverse(shape);
    lemma_max_offset_reverse(shape, strides);
}

/// Under compact strides, an in-bounds index sits at its flattened
/// position.
pub proof fn lemma_compact_index(idx: Seq<int>, shape: Seq<int>, strides: Seq<int>)
    requires
        nonneg(shape),
        is_compact(shape, strides),
        in_bounds(idx, shape),
    ensures
        dot(idx, strides) == flatten(idx, shape),
        0 <= flatten(idx, shape) < prod(shape),
{
    lemma_flatten_roundtrip(idx, shape);
    lemma_compact_offset(flatten(idx, shape), shape, strides);
}

/// The logical sequence holds the element of each in-bounds index at that
/// index's flattened position.
pub proof fn lemma_logical_at<T>(data: Seq<T>, base: int, shape: Seq<int>, strides: Seq<int>, idx: Seq<int>)
    requires
        in_bounds(idx, shape),
    ensures
        0 <= flatten(idx, shape) < logical(data, base, shape, strides).len(),
        logical(data, base, shape, strides)[flatten(idx, shape)] == data[base + dot(idx, strides)],
{
    lemma_flatten_roundtrip(idx, shape);
}

/// A reversed in-bounds index is in bounds of the reversed shape.
pub proof fn lemma_in_bounds_reverse(idx: Seq<int>, shape: Seq<int>)
    requires
        in_bounds(idx, shape),
    ensures
        in_bounds(idx.reverse(), shape.reverse()),
{
    assert forall|d: int| 0 <= d < idx.reverse().len() implies 0 <= #[trigger] idx.reverse()[d]
        < shape.reverse()[d] by {
        let e = idx.len() - 1 - d;
        assert(0 <= idx[e] < shape[e]);
    }
}

/// Every entry of a `usize` sequence is non-negative.
pub proof fn lemma_ints_nonneg(s: Seq<usize>)
    ensures
        nonneg(ints(s)),
{
}

} // verus!
