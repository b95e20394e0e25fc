//! # NdArray - n-dimensional dense array
//!
//! A buffer of elements with a runtime rank, laid out compactly in
//! column-major order: axis 0 varies fastest, and the strides of a compact
//! array are `[1, s0, s0 * s1, ...]`. Arrays built from an external buffer
//! may carry any stride pattern; every operation reads them through their
//! strides.
//!
//! The logical contents of an array are its elements in column-major
//! order (see [`NdArray::values`]); `get` addresses one element by its
//! multi-index.

use vstd::prelude::*;

use crate::error::{append_dims, append_usize, decimal, dims_text, name_label, MinarrowError};
use crate::layout::{
    col_major_strides, dot, filled, idx2, fits, flatten, gather, in_bounds, ints, is_compact, layout_ok,
    lemma_compact_index, lemma_compact_max_offset, lemma_dot_bound, lemma_dot_reverse,
    lemma_in_bounds_reverse, lemma_layout_reverse, lemma_logical_at, lemma_logical_compact,
    lemma_prod_all_pos, lemma_prod_nonneg, lemma_prod_reverse, lemma_prod_take_step, lemma_unflatten_in_bounds,
    logical, max_offset, nonneg, offset_of_impl, position_offset, prod, shape_len, unflatten,
};
use crate::ndarray_view::{reversed, NdArrayV};
use crate::selection::{sel_offset, sel_valid, window_shape, window_source, window_strides, AxisSel};

verus! {

/// Shape and strides of an n-dimensional layout.
#[derive(PartialEq, Debug)]
pub struct NdDims {
    pub shape: Vec<usize>,
    pub strides: Vec<usize>,
}

impl NdDims {
    pub open spec fn shape_s(&self) -> Seq<int> {
        ints(self.shape@)
    }

    pub open spec fn strides_s(&self) -> Seq<int> {
        ints(self.strides@)
    }

    /// One stride per dimension, and every prefix product of the shape fits
    /// in a `usize`.
    pub open spec fn wf(&self) -> bool {
        &&& self.shape@.len() == self.strides@.len()
        &&& fits(self.shape_s())
    }

    /// Compact column-major dims for `shape`.
    pub fn from_shape(shape: &[usize]) -> (d: NdDims)
        requires
            fits(ints(shape@)),
        ensures
            d.wf(),
            d.shape@ == shape@,
            is_compact(d.shape_s(), d.strides_s()),
    {
        let strides = col_major_strides(shape);
        NdDims { shape: vstd::slice::slice_to_vec(shape), strides }
    }

    /// Dims from an explicit shape and stride pattern.
    pub fn from_shape_and_strides(shape: &[usize], strides: &[usize]) -> (d: NdDims)
        ensures
            d.shape@ == shape@,
            d.strides@ == strides@,
    {
        NdDims { shape: vstd::slice::slice_to_vec(shape), strides: vstd::slice::slice_to_vec(strides) }
    }

    /// Number of dimensions.
    pub fn ndim(&self) -> (n: usize)
        ensures
            n == self.shape@.len(),
    {
        self.shape.len()
    }

    /// Shape as a slice.
    pub fn shape(&self) -> (s: &[usize])
        ensures
            s@ == self.shape@,
    {
        self.shape.as_slice()
    }

    /// Strides as a slice.
    pub fn strides(&self) -> (s: &[usize])
        ensures
            s@ == self.strides@,
    {
        self.strides.as_slice()
    }

    /// Total logical element count: the product of the shape.
    pub fn len(&self) -> (n: usize)
        requires
            self.wf(),
        ensures
            n == prod(self.shape_s()),
    {
        shape_len(self.shape.as_slice())
    }

    /// An equal copy of these dims.
    pub fn duplicate(&self) -> (d: NdDims)
        ensures
            d.shape@ == self.shape@,
            d.strides@ == self.strides@,
    {
        NdDims { shape: self.shape.clone(), strides: self.strides.clone() }
    }
}

/// Copy of an optional name.
pub fn clone_name(name: &Option<String>) -> (out: Option<String>)
    ensures
        out == *name,
{
    match name {
        Some(s) => Some(s.clone()),
        None => None,
    }
}

/// Copy of a vector of `Copy` elements.
pub fn copy_vec<T: Copy>(v: &Vec<T>) -> (out: Vec<T>)
    ensures
        out@ == v@,
{
    vstd::slice::slice_to_vec(v.as_slice())
}

/// N-dimensional dense array, compact column-major by default.
#[derive(PartialEq, Debug)]
pub struct NdArray<T> {
    /// Flat element buffer.
    pub data: Vec<T>,
    /// Shape and strides.
    pub dims: NdDims,
    /// Optional array name.
    pub name: Option<String>,
}

impl<T> NdArray<T> {
    pub open spec fn shape_s(&self) -> Seq<int> {
        self.dims.shape_s()
    }

    pub open spec fn strides_s(&self) -> Seq<int> {
        self.dims.strides_s()
    }

    /// Well-formed: consistent dims, and the buffer holds every element the
    /// layout addresses.
    pub open spec fn wf(&self) -> bool {
        &&& self.dims.wf()
        &&& layout_ok(self.data@.len() as int, 0, self.shape_s(), self.strides_s())
    }

    /// The logical elements in column-major order.
    pub open spec fn values(&self) -> Seq<T> {
        logical(self.data@, 0, self.shape_s(), self.strides_s())
    }

    /// The element at a multi-index.
    pub open spec fn elem(&self, idx: Seq<int>) -> T {
        self.data@[dot(idx, self.strides_s())]
    }

    /// Compact column-major layout.
    pub open spec fn compact(&self) -> bool {
        is_compact(self.shape_s(), self.strides_s())
    }

    /// Same contents, layout and name.
    pub open spec fn same(&self, other: &NdArray<T>) -> bool {
        &&& self.data@ == other.data@
        &&& self.dims.shape@ == other.dims.shape@
        &&& self.dims.strides@ == other.dims.strides@
        &&& self.name == other.name
    }
}

impl<T: Copy> Clone for NdArray<T> {
    fn clone(&self) -> (out: Self)
        ensures
            out.same(self),
    {
        NdArray { data: copy_vec(&self.data), dims: self.dims.duplicate(), name: clone_name(&self.name) }
    }
}

impl<T: Copy> NdArray<T> {
    /// An equal copy of this array (contents, layout and name).
    pub fn duplicate(&self) -> (out: Self)
        ensures
            out.same(self),
    {
        NdArray { data: copy_vec(&self.data), dims: self.dims.duplicate(), name: clone_name(&self.name) }
    }

    /// Compact array over `data`, which already holds the logical elements
    /// in column-major order.
    pub(crate) fn from_compact_vec(data: Vec<T>, shape: &[usize]) -> (out: Self)
        requires
            fits(ints(shape@)),
            data@.len() == prod(ints(shape@)),
        ensures
            out.wf(),
            out.compact(),
            out.dims.shape@ == shape@,
            out.data@ == data@,
            out.values() == data@,
            out.name is None,
    {
        let dims = NdDims::from_shape(shape);
        proof {
            let s = ints(shape@);
            lemma_prod_nonneg(s);
            if prod(s) > 0 {
                lemma_compact_max_offset(s, dims.strides_s());
            }
            lemma_logical_compact(data@, s, dims.strides_s());
            assert(data@.take(prod(s)) =~= data@);
        }
        NdArray { data, dims, name: None }
    }

    /// Create from a flat column-major slice and shape. The slice holds
    /// `product(shape)` elements.
    pub fn from_slice(data: &[T], shape: &[usize]) -> (out: Self)
        requires
            fits(ints(shape@)),
            data@.len() == prod(ints(shape@)),
        ensures
            out.wf(),
            out.compact(),
            out.dims.shape@ == shape@,
            out.data@ == data@,
            out.values() == data@,
            out.name is None,
    {
        Self::from_compact_vec(vstd::slice::slice_to_vec(data), shape)
    }

    /// Create an array filled with a constant value.
    pub fn fill(shape: &[usize], value: T) -> (out: Self)
        requires
            fits(ints(shape@)),
        ensures
            out.wf(),
            out.compact(),
            out.dims.shape@ == shape@,
            out.values() == Seq::new(prod(ints(shape@)) as nat, |i: int| value),
            out.data@ == Seq::new(prod(ints(shape@)) as nat, |i: int| value),
            out.name is None,
    {
        let n = shape_len(shape);
        Self::from_compact_vec(filled(n, value), shape)
    }

    /// Create an array over an existing buffer with an explicit stride
    /// pattern. The buffer must hold every element the layout addresses.
    pub fn from_buffer(data: Vec<T>, shape: &[usize], strides: &[usize]) -> (out: Self)
        requires
            fits(ints(shape@)),
            shape@.len() == strides@.len(),
            prod(ints(shape@)) > 0 ==> max_offset(ints(shape@), ints(strides@)) < data@.len(),
        ensures
            out.wf(),
            out.data@ == data@,
            out.dims.shape@ == shape@,
            out.dims.strides@ == strides@,
            out.name is None,
    {
        NdArray { data, dims: NdDims::from_shape_and_strides(shape, strides), name: None }
    }

    /// Number of dimensions.
    pub fn ndim(&self) -> (n: usize)
        ensures
            n == self.dims.shape@.len(),
    {
        self.dims.ndim()
    }

    /// Shape as a slice of dimension sizes.
    pub fn shape(&self) -> (s: &[usize])
        ensures
            s@ == self.dims.shape@,
    {
        self.dims.shape()
    }

    /// Strides as a slice of element offsets per dimension.
    pub fn strides(&self) -> (s: &[usize])
        ensures
            s@ == self.dims.strides@,
    {
        self.dims.strides()
    }

    /// Total number of logical elements: the product of the shape.
    pub fn len(&self) -> (n: usize)
        requires
            self.wf(),
        ensures
            n == prod(self.shape_s()),
            n == self.values().len(),
    {
        proof {
            lemma_prod_nonneg(self.shape_s());
        }
        self.dims.len()
    }

    /// True if any dimension is zero.
    pub fn is_empty(&self) -> (b: bool)
        requires
            self.wf(),
        ensures
            b == (prod(self.shape_s()) == 0),
    {
        self.len() == 0
    }

    /// True if the strides are the compact column-major ones.
    pub fn is_contiguous(&self) -> (b: bool)
        requires
            self.wf(),
        ensures
            b == self.compact(),
    {
        let ghost s = self.shape_s();
        let ghost st = self.strides_s();
        let shape = self.dims.shape();
        let strides = self.dims.strides();
        let mut expected: usize = 1;
        let mut d: usize = 0;
        assert(s.take(0) =~= Seq::<int>::empty());
        while d < shape.len()
            invariant
                s == ints(shape@),
                st == ints(strides@),
                s == self.shape_s(),
                st == self.strides_s(),
                s.len() == st.len(),
                fits(s),
                d <= shape.len(),
                expected == prod(s.take(d as int)),
                forall|j: int| 0 <= j < d ==> #[trigger] st[j] == prod(s.take(j)),
            decreases shape.len() - d,
        {
            if strides[d] != expected {
                assert(st[d as int] != prod(s.take(d as int)));
                assert(!is_compact(s, st));
                assert(s == self.shape_s() && st == self.strides_s());
                return false;
            }
            proof {
                lemma_prod_take_step(s, d as int);
            }
            assert(prod(s.take(d as int + 1)) <= usize::MAX);
            expected = expected * shape[d];
            d = d + 1;
        }
        true
    }

    /// Get an element by its N-dimensional index.
    pub fn get(&self, indices: &[usize]) -> (v: T)
        requires
            self.wf(),
            in_bounds(ints(indices@), self.shape_s()),
        ensures
            v == self.elem(ints(indices@)),
    {
        let off = self.offset_of(indices);
        self.data[off]
    }

    /// Set an element by its N-dimensional index.
    pub fn set(&mut self, indices: &[usize], value: T)
        requires
            old(self).wf(),
            in_bounds(ints(indices@), old(self).shape_s()),
        ensures
            final(self).wf(),
            final(self).dims.shape@ == old(self).dims.shape@,
            final(self).dims.strides@ == old(self).dims.strides@,
            final(self).name == old(self).name,
            final(self).data@ == old(self).data@.update(dot(ints(indices@), old(self).strides_s()), value),
    {
        let off = self.offset_of(indices);
        self.data.set(off, value);
    }

    /// Flat buffer offset of an N-dimensional index.
    pub fn offset_of(&self, indices: &[usize]) -> (off: usize)
        requires
            self.wf(),
            in_bounds(ints(indices@), self.shape_s()),
        ensures
            off == dot(ints(indices@), self.strides_s()),
            off < self.data@.len(),
    {
        let _n = self.data.len();
        proof {
            let s = self.shape_s();
            let idx = ints(indices@);
            assert forall|d: int| 0 <= d < s.len() implies #[trigger] s[d] > 0 by {
                assert(0 <= idx[d] < s[d]);
            }
            lemma_prod_all_pos(s);
            lemma_dot_bound(idx, s, self.strides_s());
        }
        offset_of_impl(indices, self.dims.shape(), self.dims.strides())
    }

    /// Set the array name.
    pub fn set_name(&mut self, name: &str)
        ensures
            final(self).name matches Some(n) && n@ == name@,
            final(self).data@ == old(self).data@,
            final(self).dims == old(self).dims,
    {
        self.name = Some(name.to_owned());
    }

    /// The full flat buffer.
    pub fn as_slice(&self) -> (s: &[T])
        ensures
            s@ == self.data@,
    {
        self.data.as_slice()
    }

    /// The logical elements in column-major order.
    pub fn to_vec(&self) -> (out: Vec<T>)
        requires
            self.wf(),
        ensures
            out@ == self.values(),
            forall|idx: Seq<int>|
                in_bounds(idx, self.shape_s()) ==> out@[flatten(idx, self.shape_s())] == #[trigger] self.elem(idx),
            forall|k: int| 0 <= k < out@.len() ==> #[trigger] out@[k] == self.elem(unflatten(k, self.shape_s())),
    {
        let out = gather(&self.data, 0, self.dims.shape(), self.dims.strides());
        proof {
            assert forall|idx: Seq<int>| in_bounds(idx, self.shape_s()) implies out@[flatten(
                idx,
                self.shape_s(),
            )] == #[trigger] self.elem(idx) by {
                law_values_match_get(*self, idx);
            }
        }
        out
    }
}


impl<T> NdArray<T> {
    /// Buffer offset of the element at logical position `k`.
    pub open spec fn offset_at(&self, k: int) -> int {
        dot(unflatten(k, self.shape_s()), self.strides_s())
    }

    /// Some logical element lives at buffer offset `o`.
    pub open spec fn reaches(&self, o: int) -> bool {
        exists|k: int| 0 <= k < prod(self.shape_s()) && #[trigger] self.offset_at(k) == o
    }

    /// Distinct logical elements live at distinct buffer offsets.
    pub open spec fn distinct_offsets(&self) -> bool {
        forall|k1: int, k2: int|
            0 <= k1 < prod(self.shape_s()) && 0 <= k2 < prod(self.shape_s()) && k1 != k2
                ==> #[trigger] self.offset_at(k1) != #[trigger] self.offset_at(k2)
    }
}

/// Flat position of the `k`-th diagonal element of a compact `n x n` array.
pub open spec fn diag_pos(k: int, n: int) -> int {
    k * n + k
}

/// The shape `[n, n]` fits whenever `n * n` does.
proof fn lemma_square_fits(n: int)
    requires
        0 <= n,
        n * n <= usize::MAX,
    ensures
        fits(seq![n, n]),
        prod(seq![n, n]) == n * n,
{
    let s = seq![n, n];
    assert(s.drop_first() =~= seq![n]);
    assert(s.drop_first().drop_first() =~= Seq::<int>::empty());
    assert(prod(seq![n]) == n * prod(seq![n].drop_first()));
    assert(prod(s) == n * n);
    assert(n <= n * n) by (nonlinear_arith)
        requires
            0 <= n,
    ;
    assert forall|d: int| 0 <= d <= s.len() implies #[trigger] prod(s.take(d)) <= usize::MAX by {
        if d == 0 {
            assert(s.take(0) =~= Seq::<int>::empty());
        } else if d == 1 {
            assert(s.take(1) =~= seq![n]);
            assert(s.take(1).drop_first() =~= Seq::<int>::empty());
        } else {
            assert(s.take(2) =~= s);
        }
    }
}

impl<T: Copy> NdArray<T> {
    /// Create an array whose elements all hold `T::default()` (zero for the
    /// numeric types).
    pub fn new(shape: &[usize]) -> (out: Self)
        where
            T: Default,
        requires
            fits(ints(shape@)),
        ensures
            out.wf(),
            out.compact(),
            out.dims.shape@ == shape@,
            out.name is None,
            exists|z: T|
                call_ensures(T::default, (), z) && out.data@ == Seq::new(prod(ints(shape@)) as nat, |i: int| z),
    {
        let z = T::default();
        Self::fill(shape, z)
    }

    /// Create a default-filled array with a name.
    pub fn new_named(shape: &[usize], name: &str) -> (out: Self)
        where
            T: Default,
        requires
            fits(ints(shape@)),
        ensures
            out.wf(),
            out.compact(),
            out.dims.shape@ == shape@,
            out.name matches Some(n) && n@ == name@,
            exists|z: T|
                call_ensures(T::default, (), z) && out.data@ == Seq::new(prod(ints(shape@)) as nat, |i: int| z),
    {
        let mut arr = Self::new(shape);
        arr.set_name(name);
        arr
    }

    /// Create an array of ones.
    pub fn ones(shape: &[usize]) -> (out: Self)
        where
            T: From<u8>,
        requires
            fits(ints(shape@)),
        ensures
            out.wf(),
            out.compact(),
            out.dims.shape@ == shape@,
            out.name is None,
            exists|o: T|
                call_ensures(T::from, (1u8,), o) && out.data@ == Seq::new(prod(ints(shape@)) as nat, |i: int| o),
    {
        let o = T::from(1u8);
        Self::fill(shape, o)
    }

    /// Create an `n x n` identity matrix: one on the diagonal, zero
    /// (`T::default()`) elsewhere.
    pub fn eye(n: usize) -> (out: Self)
        where
            T: Default + From<u8>,
        requires
            n * n <= usize::MAX,
        ensures
            out.wf(),
            out.compact(),
            out.dims.shape@ == seq![n, n],
            out.name is None,
            exists|z: T, o: T|
                call_ensures(T::default, (), z) && call_ensures(T::from, (1u8,), o) && forall|i: int, j: int|
                    0 <= i < n && 0 <= j < n ==> #[trigger] out.elem(idx2(i, j)) == if i == j {
                        o
                    } else {
                        z
                    },
    {
        let z = T::default();
        let o = T::from(1u8);
        let total = n * n;
        let mut data = filled(total, z);
        let mut i: usize = 0;
        while i < n
            invariant
                total == n * n,
                i <= n,
                data@.len() == total,
                forall|p: int|
                    0 <= p < total ==> #[trigger] data@[p] == if exists|k: int| 0 <= k < i && p == #[trigger] diag_pos(k, n as int) {
                        o
                    } else {
                        z
                    },
            decreases n - i,
        {
            proof {
                assert(i * n + i < n * n) by (nonlinear_arith)
                    requires
                        i < n,
                ;
            }
            let p0 = i * n + i;
            data.set(p0, o);
            proof {
                assert forall|p: int| 0 <= p < total implies #[trigger] data@[p] == if exists|k: int|
                    0 <= k < i + 1 && p == #[trigger] diag_pos(k, n as int) {
                    o
                } else {
                    z
                } by {
                    if p == p0 {
                        assert(0 <= i < i + 1 && p == diag_pos(i as int, n as int));
                    } else {
                        if exists|k: int| 0 <= k < i + 1 && p == #[trigger] diag_pos(k, n as int) {
                            let k = choose|k: int| 0 <= k < i + 1 && p == #[trigger] diag_pos(k, n as int);
                            assert(k != i);
                            assert(0 <= k < i && p == diag_pos(k, n as int));
                        }
                    }
                }
            }
            i = i + 1;
        }
        let mut shape: Vec<usize> = Vec::new();
        shape.push(n);
        shape.push(n);
        proof {
            assert(ints(shape@) =~= seq![n as int, n as int]);
            lemma_square_fits(n as int);
        }
        let out = Self::from_compact_vec(data, shape.as_slice());
        proof {
            assert(out.dims.shape@ =~= seq![n, n]);
            assert forall|i: int, j: int| 0 <= i < n && 0 <= j < n implies #[trigger] out.elem(idx2(i, j)) == if i
                == j {
                o
            } else {
                z
            } by {
                let idx = idx2(i, j);
                assert(in_bounds(idx, out.shape_s()));
                lemma_compact_index(idx, out.shape_s(), out.strides_s());
                assert(idx.drop_first() =~= seq![j]);
                assert(idx.drop_first().drop_first() =~= Seq::<int>::empty());
                assert(out.shape_s().drop_first() =~= seq![n as int]);
                assert(flatten(seq![j], seq![n as int]) == j + n * flatten(seq![j].drop_first(), seq![n as int].drop_first()));
                assert(flatten(idx, out.shape_s()) == i + n * j);
                let p = i + n * j;
                assert(p == j * n + i) by (nonlinear_arith)
                    requires
                        p == i + n * j,
                ;
                if i == j {
                    assert(0 <= i < n && p == diag_pos(i, n as int));
                } else {
                    if exists|k: int| 0 <= k < n && p == #[trigger] diag_pos(k, n as int) {
                        let k = choose|k: int| 0 <= k < n && p == #[trigger] diag_pos(k, n as int);
                        vstd::arithmetic::div_mod::lemma_fundamental_div_mod_converse(p, n as int, j, i);
                        vstd::arithmetic::div_mod::lemma_fundamental_div_mod_converse(p, n as int, k, k);
                        assert(false);
                    }
                }
            }
        }
        out
    }

    /// Fill every logical element with `value`. A compact array fills its
    /// whole buffer; other layouts touch only the logical elements, so
    /// stride padding stays as it was.
    pub fn fill_with(&mut self, value: T)
        requires
            old(self).wf(),
        ensures
            final(self).wf(),
            final(self).dims == old(self).dims,
            final(self).name == old(self).name,
            final(self).data@.len() == old(self).data@.len(),
            final(self).values() == Seq::new(prod(old(self).shape_s()) as nat, |i: int| value),
            forall|idx: Seq<int>| in_bounds(idx, old(self).shape_s()) ==> #[trigger] final(self).elem(idx) == value,
            old(self).compact() ==> final(self).data@ == Seq::new(old(self).data@.len(), |i: int| value),
            !old(self).compact() ==> forall|o: int|
                0 <= o < old(self).data@.len() && !old(self).reaches(o) ==> #[trigger] final(self).data@[o]
                    == old(self).data@[o],
    {
        let ghost s = self.shape_s();
        let ghost st = self.strides_s();
        if self.is_contiguous() {
            let n = self.data.len();
            self.data = filled(n, value);
            proof {
                lemma_prod_nonneg(s);
                assert forall|k: int| 0 <= k < prod(s) implies #[trigger] self.values()[k] == value by {
                    lemma_unflatten_in_bounds(k, s);
                    lemma_dot_bound(unflatten(k, s), s, st);
                }
                assert(self.values() =~= Seq::new(prod(s) as nat, |i: int| value));
                assert forall|idx: Seq<int>| in_bounds(idx, s) implies #[trigger] self.elem(idx) == value by {
                    law_values_match_get(*self, idx);
                }
            }
            return;
        }
        let total = self.len();
        let dlen = self.data.len();
        let ghost old_data = self.data@;
        let mut k: usize = 0;
        while k < total
            invariant
                s == self.shape_s(),
                st == self.strides_s(),
                s == old(self).shape_s(),
                st == old(self).strides_s(),
                self.wf(),
                self.dims == old(self).dims,
                self.name == old(self).name,
                old_data == old(self).data@,
                total == prod(s),
                dlen == old_data.len(),
                k <= total,
                self.data@.len() == old_data.len(),
                forall|j: int| 0 <= j < k ==> self.data@[#[trigger] old(self).offset_at(j)] == value,
                forall|o: int|
                    0 <= o < old_data.len() && (forall|j: int| 0 <= j < k ==> #[trigger] old(self).offset_at(j) != o)
                        ==> self.data@[o] == old_data[o],
            decreases total - k,
        {
            proof {
                lemma_unflatten_in_bounds(k as int, s);
                lemma_dot_bound(unflatten(k as int, s), s, st);
            }
            let off = position_offset(k, self.dims.shape(), self.dims.strides());
            assert(off == old(self).offset_at(k as int));
            let ghost prev = self.data@;
            self.data.set(off, value);
            proof {
                assert(off < prev.len());
                assert(self.data@[off as int] == value);
                assert forall|j: int| 0 <= j < k + 1 implies self.data@[#[trigger] old(self).offset_at(j)] == value by {
                    lemma_unflatten_in_bounds(j, s);
                    lemma_dot_bound(unflatten(j, s), s, st);
                    if j < k {
                        assert(prev[old(self).offset_at(j)] == value);
                    } else {
                        assert(old(self).offset_at(j) == off);
                    }
                }
                assert forall|o: int|
                    0 <= o < old_data.len() && (forall|j: int| 0 <= j < k + 1 ==> #[trigger] old(self).offset_at(j) != o)
                        implies self.data@[o] == old_data[o] by {
                    assert(old(self).offset_at(k as int) != o);
                }
            }
            k = k + 1;
        }
        proof {
            lemma_prod_nonneg(s);
            assert forall|i: int| 0 <= i < prod(s) implies #[trigger] self.values()[i] == value by {
                assert(self.data@[old(self).offset_at(i)] == value);
            }
            assert(self.values() =~= Seq::new(prod(s) as nat, |i: int| value));
            assert forall|idx: Seq<int>| in_bounds(idx, s) implies #[trigger] self.elem(idx) == value by {
                law_values_match_get(*self, idx);
            }
            assert forall|o: int| 0 <= o < old_data.len() && !old(self).reaches(o) implies #[trigger] self.data@[o]
                == old_data[o] by {
                assert forall|j: int| 0 <= j < k implies #[trigger] old(self).offset_at(j) != o by {
                    if old(self).offset_at(j) == o {
                        assert(old(self).reaches(o));
                    }
                }
            }
        }
    }

    /// Apply a function to every logical element, returning a new compact
    /// array with this array's shape and name.
    pub fn apply<F: Fn(T) -> T>(&self, f: F) -> (out: NdArray<T>)
        requires
            self.wf(),
            forall|x: T| #[trigger] f.requires((x,)),
        ensures
            out.wf(),
            out.compact(),
            out.dims.shape@ == self.dims.shape@,
            out.name == self.name,
            out.values().len() == self.values().len(),
            forall|k: int| 0 <= k < self.values().len() ==> #[trigger] f.ensures((self.values()[k],), out.values()[k]),
            forall|idx: Seq<int>|
                in_bounds(idx, self.shape_s()) ==> f.ensures((self.elem(idx),), #[trigger] out.elem(idx)),
    {
        let flat = self.to_vec();
        let mapped = map_vec(&flat, &f);
        proof {
            lemma_prod_nonneg(self.shape_s());
        }
        let mut out = Self::from_compact_vec(mapped, self.dims.shape());
        out.name = clone_name(&self.name);
        proof {
            assert forall|idx: Seq<int>| in_bounds(idx, self.shape_s()) implies f.ensures(
                (self.elem(idx),),
                #[trigger] out.elem(idx),
            ) by {
                law_values_match_get(*self, idx);
                law_values_match_get(out, idx);
            }
        }
        out
    }

    /// Apply a function to every logical element in place. A compact array
    /// maps its whole buffer; other layouts map only the logical elements.
    pub fn apply_mut<F: Fn(T) -> T>(&mut self, f: F)
        requires
            old(self).wf(),
            forall|x: T| #[trigger] f.requires((x,)),
        ensures
            final(self).wf(),
            final(self).dims == old(self).dims,
            final(self).name == old(self).name,
            final(self).data@.len() == old(self).data@.len(),
            old(self).compact() ==> forall|i: int|
                0 <= i < old(self).data@.len() ==> #[trigger] f.ensures((old(self).data@[i],), final(self).data@[i]),
            old(self).distinct_offsets() ==> forall|k: int|
                0 <= k < prod(old(self).shape_s()) ==> #[trigger] f.ensures(
                    (old(self).data@[old(self).offset_at(k)],),
                    final(self).data@[old(self).offset_at(k)],
                ),
            old(self).distinct_offsets() ==> forall|idx: Seq<int>|
                in_bounds(idx, old(self).shape_s()) ==> f.ensures((old(self).elem(idx),), #[trigger] final(self).elem(idx)),
            !old(self).compact() ==> forall|o: int|
                0 <= o < old(self).data@.len() && !old(self).reaches(o) ==> #[trigger] final(self).data@[o]
                    == old(self).data@[o],
    {
        let ghost s = self.shape_s();
        let ghost st = self.strides_s();
        let ghost old_data = self.data@;
        if self.is_contiguous() {
            let n = self.data.len();
            let mut i: usize = 0;
            while i < n
                invariant
                    n == self.data@.len(),
                    n == old_data.len(),
                    i <= n,
                    forall|x: T| #[trigger] f.requires((x,)),
                    forall|j: int| 0 <= j < i ==> #[trigger] f.ensures((old_data[j],), self.data@[j]),
                    forall|j: int| i <= j < n ==> self.data@[j] == old_data[j],
                    self.dims == old(self).dims,
                    self.name == old(self).name,
                decreases n - i,
            {
                let x = self.data[i];
                let y = f(x);
                self.data.set(i, y);
                i = i + 1;
            }
            proof {
                assert forall|k: int| 0 <= k < prod(s) && old(self).distinct_offsets() implies #[trigger] f.ensures(
                    (old_data[old(self).offset_at(k)],),
                    self.data@[old(self).offset_at(k)],
                ) by {
                    lemma_unflatten_in_bounds(k, s);
                    lemma_dot_bound(unflatten(k, s), s, st);
                }
                if old(self).distinct_offsets() {
                    lemma_mapped_elems(*old(self), *self, f);
                }
            }
            return;
        }
        let total = self.len();
        let dlen = self.data.len();
        let mut k: usize = 0;
        while k < total
            invariant
                s == self.shape_s(),
                st == self.strides_s(),
                s == old(self).shape_s(),
                st == old(self).strides_s(),
                self.wf(),
                old(self).wf(),
                self.dims == old(self).dims,
                self.name == old(self).name,
                old_data == old(self).data@,
                total == prod(s),
                dlen == old_data.len(),
                k <= total,
                forall|x: T| #[trigger] f.requires((x,)),
                self.data@.len() == old_data.len(),
                old(self).distinct_offsets() ==> forall|j: int|
                    0 <= j < k ==> #[trigger] f.ensures((old_data[old(self).offset_at(j)],), self.data@[old(self).offset_at(j)]),
                old(self).distinct_offsets() ==> forall|j: int|
                    k <= j < total ==> self.data@[#[trigger] old(self).offset_at(j)] == old_data[old(self).offset_at(j)],
                forall|o: int|
                    0 <= o < old_data.len() && (forall|j: int| 0 <= j < k ==> #[trigger] old(self).offset_at(j) != o)
                        ==> self.data@[o] == old_data[o],
            decreases total - k,
        {
            proof {
                lemma_unflatten_in_bounds(k as int, s);
                lemma_dot_bound(unflatten(k as int, s), s, st);
            }
            let off = position_offset(k, self.dims.shape(), self.dims.strides());
            assert(off == old(self).offset_at(k as int));
            let x = self.data[off];
            let y = f(x);
            let ghost prev = self.data@;
            self.data.set(off, y);
            proof {
                assert(off < prev.len());
                assert(self.data@[off as int] == y);
                if old(self).distinct_offsets() {
                    assert(prev[off as int] == old_data[off as int]);
                    assert forall|j: int| 0 <= j < k + 1 implies #[trigger] f.ensures(
                        (old_data[old(self).offset_at(j)],),
                        self.data@[old(self).offset_at(j)],
                    ) by {
                        lemma_unflatten_in_bounds(j, s);
                        lemma_dot_bound(unflatten(j, s), s, st);
                        if j < k {
                            assert(old(self).offset_at(j) != old(self).offset_at(k as int));
                            assert(f.ensures((old_data[old(self).offset_at(j)],), prev[old(self).offset_at(j)]));
                        } else {
                            assert(old(self).offset_at(j) == off);
                        }
                    }
                    assert forall|j: int| k + 1 <= j < total implies self.data@[#[trigger] old(self).offset_at(j)]
                        == old_data[old(self).offset_at(j)] by {
                        lemma_unflatten_in_bounds(j, s);
                        lemma_dot_bound(unflatten(j, s), s, st);
                        assert(old(self).offset_at(j) != old(self).offset_at(k as int));
                        assert(prev[old(self).offset_at(j)] == old_data[old(self).offset_at(j)]);
                    }
                }
                assert forall|o: int|
                    0 <= o < old_data.len() && (forall|j: int| 0 <= j < k + 1 ==> #[trigger] old(self).offset_at(j) != o)
                        implies self.data@[o] == old_data[o] by {
                    assert(old(self).offset_at(k as int) != o);
                }
            }
            k = k + 1;
        }
        proof {
            assert forall|o: int| 0 <= o < old_data.len() && !old(self).reaches(o) implies #[trigger] self.data@[o]
                == old_data[o] by {
                assert forall|j: int| 0 <= j < k implies #[trigger] old(self).offset_at(j) != o by {
                    if old(self).offset_at(j) == o {
                        assert(old(self).reaches(o));
                    }
                }
            }
            if old(self).distinct_offsets() {
                lemma_mapped_elems(*old(self), *self, f);
            }
        }
    }
}

/// Where `b`'s buffer holds `f` of `a`'s element at every logical offset,
/// every element of `b` is `f` of the element of `a` at the same index.
proof fn lemma_mapped_elems<T, F: Fn(T) -> T>(a: NdArray<T>, b: NdArray<T>, f: F)
    requires
        a.wf(),
        b.dims == a.dims,
        forall|k: int|
            0 <= k < prod(a.shape_s()) ==> #[trigger] f.ensures(
                (a.data@[a.offset_at(k)],),
                b.data@[a.offset_at(k)],
            ),
    ensures
        forall|idx: Seq<int>| in_bounds(idx, a.shape_s()) ==> f.ensures((a.elem(idx),), #[trigger] b.elem(idx)),
{
    assert forall|idx: Seq<int>| in_bounds(idx, a.shape_s()) implies f.ensures((a.elem(idx),), #[trigger] b.elem(idx)) by {
        crate::layout::lemma_flatten_roundtrip(idx, a.shape_s());
        let k = flatten(idx, a.shape_s());
        assert(a.offset_at(k) == dot(idx, a.strides_s()));
        assert(f.ensures((a.data@[a.offset_at(k)],), b.data@[a.offset_at(k)]));
    }
}

/// Applies `f` to every element of `v`.
pub fn map_vec<T: Copy, F: Fn(T) -> T>(v: &Vec<T>, f: &F) -> (out: Vec<T>)
    requires
        forall|x: T| #[trigger] f.requires((x,)),
    ensures
        out@.len() == v@.len(),
        forall|k: int| 0 <= k < v@.len() ==> #[trigger] f.ensures((v@[k],), out@[k]),
{
    let mut out: Vec<T> = Vec::new();
    let mut i: usize = 0;
    while i < v.len()
        invariant
            i <= v@.len(),
            out@.len() == i,
            forall|x: T| #[trigger] f.requires((x,)),
            forall|k: int| 0 <= k < i ==> #[trigger] f.ensures((v@[k],), out@[k]),
        decreases v@.len() - i,
    {
        let y = f(v[i]);
        out.push(y);
        i = i + 1;
    }
    out
}


impl<T: Copy> NdArray<T> {
    /// Column `col` of a 2D array: `shape[0]` contiguous elements starting
    /// at `col * strides[1]`.
    pub fn col(&self, col: usize) -> (c: &[T])
        requires
            self.wf(),
            self.dims.shape@.len() == 2,
            col < self.dims.shape@[1],
            col * self.dims.strides@[1] + self.dims.shape@[0] <= self.data@.len(),
        ensures
            c@ == self.data@.subrange(
                col * self.dims.strides@[1] as int,
                col * self.dims.strides@[1] + self.dims.shape@[0],
            ),
    {
        let _n = self.data.len();
        let rows = self.dims.shape[0];
        let stride = self.dims.strides[1];
        let start = col * stride;
        vstd::slice::slice_subrange(self.data.as_slice(), start, start + rows)
    }

    /// Every column of a 2D array, in order.
    pub fn columns(&self) -> (cols: Vec<&[T]>)
        requires
            self.wf(),
            self.dims.shape@.len() == 2,
            self.dims.shape@[1] == 0 || (self.dims.shape@[1] - 1) * self.dims.strides@[1]
                + self.dims.shape@[0] <= self.data@.len(),
        ensures
            cols@.len() == self.dims.shape@[1],
            forall|c: int|
                0 <= c < cols@.len() ==> #[trigger] cols@[c]@ == self.data@.subrange(
                    c * self.dims.strides@[1] as int,
                    c * self.dims.strides@[1] + self.dims.shape@[0],
                ),
    {
        let n_cols = self.dims.shape[1];
        let mut cols: Vec<&[T]> = Vec::new();
        let mut c: usize = 0;
        while c < n_cols
            invariant
                self.wf(),
                self.dims.shape@.len() == 2,
                self.dims.shape@[1] == 0 || (self.dims.shape@[1] - 1) * self.dims.strides@[1]
                    + self.dims.shape@[0] <= self.data@.len(),
                n_cols == self.dims.shape@[1],
                c <= n_cols,
                cols@.len() == c,
                forall|k: int|
                    0 <= k < c ==> #[trigger] cols@[k]@ == self.data@.subrange(
                        k * self.dims.strides@[1] as int,
                        k * self.dims.strides@[1] + self.dims.shape@[0],
                    ),
            decreases n_cols - c,
        {
            proof {
                assert(c * self.dims.strides@[1] <= (self.dims.shape@[1] - 1) * self.dims.strides@[1])
                    by (nonlinear_arith)
                    requires
                        c <= self.dims.shape@[1] - 1,
                        self.dims.strides@[1] >= 0,
                ;
            }
            cols.push(self.col(c));
            c = c + 1;
        }
        cols
    }

    /// Row count as `i32` for BLAS. 2D only.
    pub fn m(&self) -> (m: i32)
        requires
            self.wf(),
            self.dims.shape@.len() == 2,
        ensures
            m == self.dims.shape@[0] as i32,
    {
        self.dims.shape[0] as i32
    }

    /// Column count as `i32` for BLAS. 2D only.
    pub fn n(&self) -> (n: i32)
        requires
            self.wf(),
            self.dims.shape@.len() == 2,
        ensures
            n == self.dims.shape@[1] as i32,
    {
        self.dims.shape[1] as i32
    }

    /// Leading dimension for BLAS: the column stride. 2D only.
    pub fn lda(&self) -> (lda: i32)
        requires
            self.wf(),
            self.dims.shape@.len() == 2,
        ensures
            lda == self.dims.strides@[1] as i32,
    {
        self.dims.strides[1] as i32
    }

    /// Reshape to a new shape with the same element count, copying the
    /// logical elements into a compact layout. Fails with a shape error
    /// when the counts differ.
    pub fn reshape(&self, new_shape: &[usize]) -> (out: Result<NdArray<T>, MinarrowError>)
        requires
            self.wf(),
            fits(ints(new_shape@)),
        ensures
            out is Ok <==> prod(ints(new_shape@)) == prod(self.shape_s()),
            out matches Ok(r) ==> {
                &&& r.wf()
                &&& r.compact()
                &&& r.dims.shape@ == new_shape@
                &&& r.values() == self.values()
                &&& r.name is None
            },
            out matches Err(e) ==> e is ShapeError && e->ShapeError_message@
                == "reshape: cannot reshape array of size "@ + decimal(prod(self.shape_s()) as nat)
                + " into a shape of size "@ + decimal(prod(ints(new_shape@)) as nat),
    {
        let new_len = shape_len(new_shape);
        let len = self.len();
        if new_len != len {
            let mut message = String::from_str("reshape: cannot reshape array of size ");
            append_usize(&mut message, len);
            message.append(" into a shape of size ");
            append_usize(&mut message, new_len);
            return Err(MinarrowError::ShapeError { message });
        }
        let flat = self.to_vec();
        Ok(NdArray::from_compact_vec(flat, new_shape))
    }

    /// Flatten to a compact 1D array of the logical elements.
    pub fn flatten(&self) -> (out: NdArray<T>)
        requires
            self.wf(),
        ensures
            out.wf(),
            out.compact(),
            out.dims.shape@ == seq![prod(self.shape_s()) as usize],
            out.values() == self.values(),
            out.name == self.name,
    {
        let flat = self.to_vec();
        let n = flat.len();
        let mut shape: Vec<usize> = Vec::new();
        shape.push(n);
        proof {
            lemma_prod_nonneg(self.shape_s());
            one_dim_fits(n as int);
            assert(ints(shape@) =~= seq![n as int]);
        }
        let mut out = NdArray::from_compact_vec(flat, shape.as_slice());
        out.name = clone_name(&self.name);
        proof {
            assert(out.dims.shape@ =~= seq![prod(self.shape_s()) as usize]);
        }
        out
    }

    /// A compact copy. An array that is already compact is returned as an
    /// equal copy (name included); any other layout is re-laid out without
    /// its name.
    pub fn to_contiguous(&self) -> (out: NdArray<T>)
        requires
            self.wf(),
        ensures
            out.wf(),
            out.compact(),
            out.dims.shape@ == self.dims.shape@,
            out.values() == self.values(),
            self.compact() ==> out.same(self),
            !self.compact() ==> out.name is None,
    {
        if self.is_contiguous() {
            return self.duplicate();
        }
        let flat = self.to_vec();
        proof {
            lemma_prod_nonneg(self.shape_s());
        }
        NdArray::from_compact_vec(flat, self.dims.shape())
    }

    /// Transpose by reversing the axis order into a new compact array:
    /// the element at `idx` moves to the reversed index. The name carries
    /// over.
    pub fn transpose(&self) -> (out: NdArray<T>)
        requires
            self.wf(),
            fits(self.shape_s().reverse()),
        ensures
            out.wf(),
            out.compact(),
            out.dims.shape@ == self.dims.shape@.reverse(),
            out.values() == logical(self.data@, 0, self.shape_s().reverse(), self.strides_s().reverse()),
            out.name == self.name,
            forall|idx: Seq<int>|
                in_bounds(idx, self.shape_s()) ==> #[trigger] out.elem(idx.reverse()) == self.elem(idx),
    {
        let shape = reversed(self.dims.shape());
        let strides = reversed(self.dims.strides());
        let ghost rs = self.shape_s().reverse();
        let ghost rst = self.strides_s().reverse();
        proof {
            assert(ints(shape@) =~= rs);
            assert(ints(strides@) =~= rst);
            lemma_layout_reverse(self.data@.len() as int, 0, self.shape_s(), self.strides_s());
        }
        let flat = gather(&self.data, 0, shape.as_slice(), strides.as_slice());
        proof {
            lemma_prod_reverse(self.shape_s());
            lemma_prod_nonneg(rs);
        }
        let mut out = NdArray::from_compact_vec(flat, shape.as_slice());
        out.name = clone_name(&self.name);
        proof {
            assert(out.dims.shape@ =~= self.dims.shape@.reverse());
            assert forall|idx: Seq<int>| in_bounds(idx, self.shape_s()) implies #[trigger] out.elem(idx.reverse())
                == self.elem(idx) by {
                lemma_in_bounds_reverse(idx, self.shape_s());
                lemma_compact_index(idx.reverse(), rs, out.strides_s());
                lemma_logical_at(self.data@, 0, rs, rst, idx.reverse());
                lemma_dot_reverse(idx, self.strides_s());
            }
        }
        out
    }

    /// A full view over a copy of this array. The array is borrowed, so
    /// its buffer is copied once into the view's shared parent; views
    /// derived from the result share that copy. [`NdArrayV::from_ndarray`]
    /// takes an array by value and copies nothing.
    pub fn as_view(&self) -> (v: NdArrayV<T>)
        requires
            self.wf(),
        ensures
            v.wf(),
            v.source.same(self),
            v.offset == 0,
            v.dims.shape@ == self.dims.shape@,
            v.dims.strides@ == self.dims.strides@,
            v.values() == self.values(),
    {
        NdArrayV::from_ndarray(self.duplicate())
    }

    /// View of one axis-0 observation: an (N-1)-dimensional view over a
    /// copy of this array (see [`NdArray::as_view`]). Requires rank 2 or
    /// higher.
    pub fn obs(&self, idx: usize) -> (v: NdArrayV<T>)
        requires
            self.wf(),
            self.dims.shape@.len() >= 2,
            idx < self.dims.shape@[0],
            idx * self.dims.strides@[0] <= usize::MAX,
        ensures
            v.wf(),
            v.source.same(self),
            v.offset == idx * self.dims.strides@[0],
            v.dims.shape@ == self.dims.shape@.drop_first(),
            v.dims.strides@ == self.dims.strides@.drop_first(),
            forall|j: Seq<int>|
                in_bounds(j, v.shape_s()) ==> #[trigger] v.elem(j) == self.elem(seq![idx as int] + j),
    {
        self.as_view().obs(idx)
    }

    /// Slice along any combination of axes: an index collapses its axis, a
    /// range keeps it. Returns a view over a copy of this array (see
    /// [`NdArray::as_view`]).
    pub fn slice(&self, sels: &[AxisSel]) -> (v: NdArrayV<T>)
        requires
            self.wf(),
            sel_valid(sels@, self.shape_s()),
            sel_offset(sels@, self.strides_s()) <= usize::MAX,
        ensures
            v.wf(),
            v.source.same(self),
            v.offset == sel_offset(sels@, self.strides_s()),
            v.shape_s() == window_shape(sels@),
            v.strides_s() == window_strides(sels@, self.strides_s()),
            forall|j: Seq<int>|
                in_bounds(j, v.shape_s()) ==> #[trigger] v.elem(j) == self.elem(window_source(sels@, j)),
            forall|j: Seq<int>|
                in_bounds(j, v.shape_s()) ==> in_bounds(#[trigger] window_source(sels@, j), self.shape_s()),
    {
        self.as_view().slice(sels)
    }
}

/// A one-dimensional shape always fits.
proof fn one_dim_fits(n: int)
    requires
        0 <= n <= usize::MAX,
    ensures
        fits(seq![n]),
        prod(seq![n]) == n,
{
    let s = seq![n];
    assert(s.drop_first() =~= Seq::<int>::empty());
    assert(prod(s) == n * prod(s.drop_first()));
    assert forall|d: int| 0 <= d <= s.len() implies #[trigger] prod(s.take(d)) <= usize::MAX by {
        if d == 0 {
            assert(s.take(0) =~= Seq::<int>::empty());
        } else {
            assert(s.take(1) =~= s);
        }
    }
}


/// Shape after joining `b` onto `a` along axis 0.
pub open spec fn concat_shape(a: Seq<int>, b: Seq<int>) -> Seq<int> {
    a.update(0, a[0] + b[0])
}

/// Logical elements of the axis-0 join of two arrays with `a0` and `b0`
/// rows and the same trailing shape, given their own logical elements:
/// position `k` splits into a row `k % (a0 + b0)` and a trailing position
/// `k / (a0 + b0)`.
pub open spec fn concat_values<T>(a: Seq<T>, b: Seq<T>, a0: int, b0: int, total: int) -> Seq<T> {
    Seq::new(
        total as nat,
        |k: int|
            if k % (a0 + b0) < a0 {
                a[k % (a0 + b0) + a0 * (k / (a0 + b0))]
            } else {
                b[k % (a0 + b0) - a0 + b0 * (k / (a0 + b0))]
            },
    )
}

/// The axis-0 join's element at a multi-index: `a`'s element for a leading
/// index below `a`'s row count, otherwise `b`'s element with the leading
/// index shifted down by that count.
proof fn lemma_concat_elems<T>(a: NdArray<T>, b: NdArray<T>, r: NdArray<T>)
    requires
        a.wf(),
        b.wf(),
        r.wf(),
        a.dims.shape@.len() >= 1,
        trailing_match(a.shape_s(), b.shape_s()),
        r.shape_s() == concat_shape(a.shape_s(), b.shape_s()),
        r.values() == concat_values(
            a.values(),
            b.values(),
            a.shape_s()[0],
            b.shape_s()[0],
            prod(concat_shape(a.shape_s(), b.shape_s())),
        ),
    ensures
        forall|idx: Seq<int>|
            in_bounds(idx, r.shape_s()) ==> #[trigger] r.elem(idx) == (if idx[0] < a.shape_s()[0] {
                a.elem(idx)
            } else {
                b.elem(idx.update(0, idx[0] - a.shape_s()[0]))
            }),
{
    let cs = r.shape_s();
    let sa = a.shape_s();
    let sb = b.shape_s();
    let a0 = sa[0];
    let b0 = sb[0];
    let n = a0 + b0;
    assert(sa.drop_first() =~= cs.drop_first());
    assert(sb.drop_first() =~= cs.drop_first());
    assert forall|idx: Seq<int>| in_bounds(idx, cs) implies #[trigger] r.elem(idx) == (if idx[0] < a0 {
        a.elem(idx)
    } else {
        b.elem(idx.update(0, idx[0] - a0))
    }) by {
        law_values_match_get(r, idx);
        let rest = idx.drop_first();
        let q = flatten(rest, cs.drop_first());
        let k = flatten(idx, cs);
        assert(k == idx[0] + n * q);
        vstd::arithmetic::mul::lemma_mul_is_commutative(n, q);
        vstd::arithmetic::div_mod::lemma_fundamental_div_mod_converse(k, n, q, idx[0]);
        if idx[0] < a0 {
            assert(in_bounds(idx, sa)) by {
                assert forall|d: int| 0 <= d < idx.len() implies 0 <= #[trigger] idx[d] < sa[d] by {
                    if d > 0 {
                        assert(sa[d] == cs[d]);
                    }
                }
            }
            law_values_match_get(a, idx);
            assert(flatten(idx, sa) == idx[0] + a0 * q);
        } else {
            let j = idx.update(0, idx[0] - a0);
            assert(j.drop_first() =~= rest);
            assert(in_bounds(j, sb)) by {
                assert forall|d: int| 0 <= d < j.len() implies 0 <= #[trigger] j[d] < sb[d] by {
                    if d > 0 {
                        assert(sb[d] == cs[d]);
                        assert(j[d] == idx[d]);
                    }
                }
            }
            law_values_match_get(b, j);
            assert(flatten(j, sb) == idx[0] - a0 + b0 * q);
        }
    }
}

/// The two shapes agree on every axis but the first.
pub open spec fn trailing_match(a: Seq<int>, b: Seq<int>) -> bool {
    &&& a.len() == b.len()
    &&& forall|d: int| 1 <= d < a.len() ==> #[trigger] a[d] == b[d]
}

/// Logical elements of a column list: column `k / rows`, row `k % rows`.
pub open spec fn columns_values<T>(cols: Seq<Vec<T>>, rows: int) -> Seq<T> {
    Seq::new((rows * cols.len()) as nat, |k: int| cols[k / rows]@[k % rows])
}

impl<T: Copy> NdArray<T> {
    /// Join `other` onto this array along axis 0. Every other dimension
    /// must match; the result is a compact array without a name.
    pub fn concat(self, other: Self) -> (out: Result<Self, MinarrowError>)
        requires
            self.wf(),
            other.wf(),
            self.dims.shape@.len() == other.dims.shape@.len() ==> self.dims.shape@.len() >= 1,
            trailing_match(self.shape_s(), other.shape_s()) ==> fits(concat_shape(self.shape_s(), other.shape_s())),
        ensures
            out is Ok <==> trailing_match(self.shape_s(), other.shape_s()),
            out matches Ok(r) ==> {
                &&& r.wf()
                &&& r.compact()
                &&& r.shape_s() == concat_shape(self.shape_s(), other.shape_s())
                &&& r.values() == concat_values(
                    self.values(),
                    other.values(),
                    self.shape_s()[0],
                    other.shape_s()[0],
                    prod(concat_shape(self.shape_s(), other.shape_s())),
                )
                &&& r.name is None
                &&& forall|idx: Seq<int>|
                    in_bounds(idx, r.shape_s()) ==> #[trigger] r.elem(idx) == (if idx[0] < self.shape_s()[0] {
                        self.elem(idx)
                    } else {
                        other.elem(idx.update(0, idx[0] - self.shape_s()[0]))
                    })
            },
            out matches Err(e) ==> e is IncompatibleTypeError,
            self.dims.shape@.len() != other.dims.shape@.len() ==> (out matches Err(
                MinarrowError::IncompatibleTypeError { from, to, message: Some(m) },
            ) && from@ == "NdArray"@ && to@ == "NdArray"@ && m@ == "Cannot concatenate "@ + decimal(
                self.dims.shape@.len(),
            ) + "D and "@ + decimal(other.dims.shape@.len()) + "D arrays"@),
            forall|d: int|
                1 <= d < self.dims.shape@.len() && self.dims.shape@.len() == other.dims.shape@.len()
                    && self.dims.shape@[d] != other.dims.shape@[d] && (forall|e: int|
                    1 <= e < d ==> self.dims.shape@[e] == other.dims.shape@[e]) ==> (out matches Err(
                    MinarrowError::IncompatibleTypeError { from, to, message: Some(m) },
                ) && from@ == "NdArray"@ && to@ == "NdArray"@ && m@ == "Dimension "@ + decimal(d as nat)
                    + " mismatch: "@ + decimal(#[trigger] self.dims.shape@[d] as nat) + " vs "@ + decimal(
                    other.dims.shape@[d] as nat,
                )),
    {
        let ghost first = self;
        let ghost second = other;
        let n1 = self.dims.shape.len();
        let n2 = other.dims.shape.len();
        if n1 != n2 {
            let mut message = String::from_str("Cannot concatenate ");
            append_usize(&mut message, n1);
            message.append("D and ");
            append_usize(&mut message, n2);
            message.append("D arrays");
            return Err(MinarrowError::IncompatibleTypeError {
                from: String::from_str("NdArray"),
                to: String::from_str("NdArray"),
                message: Some(message),
            });
        }
        let mut d: usize = 1;
        while d < n1
            invariant
                n1 == self.dims.shape@.len(),
                n2 == other.dims.shape@.len(),
                n1 == n2,
                1 <= d,
                d <= n1 || n1 == 0,
                forall|e: int| 1 <= e < d ==> #[trigger] self.dims.shape@[e] == other.dims.shape@[e],
            decreases n1 - d,
        {
            if self.dims.shape[d] != other.dims.shape[d] {
                let mut message = String::from_str("Dimension ");
                append_usize(&mut message, d);
                message.append(" mismatch: ");
                append_usize(&mut message, self.dims.shape[d]);
                message.append(" vs ");
                append_usize(&mut message, other.dims.shape[d]);
                proof {
                    assert(self.shape_s()[d as int] != other.shape_s()[d as int]);
                    assert forall|q: int|
                        1 <= q < self.dims.shape@.len() && self.dims.shape@[q] != other.dims.shape@[q] && (forall|e: int|
                            1 <= e < q ==> self.dims.shape@[e] == other.dims.shape@[e]) implies q == d by {
                        if q < d {
                            assert(self.dims.shape@[q] == other.dims.shape@[q]);
                        } else if q > d {
                            assert(self.dims.shape@[d as int] == other.dims.shape@[d as int]);
                        }
                    }
                }
                return Err(MinarrowError::IncompatibleTypeError {
                    from: String::from_str("NdArray"),
                    to: String::from_str("NdArray"),
                    message: Some(message),
                });
            }
            d = d + 1;
        }
        let ghost s1 = self.shape_s();
        let ghost s2 = other.shape_s();
        assert(trailing_match(s1, s2));
        let a = self.to_vec();
        let b = other.to_vec();
        let a0 = self.dims.shape[0];
        let b0 = other.dims.shape[0];
        let mut new_shape = vstd::slice::slice_to_vec(self.dims.shape());
        let ghost ns = concat_shape(s1, s2);
        proof {
            assert(ns[0] <= usize::MAX) by {
                assert(ns.take(1).drop_first() =~= Seq::<int>::empty());
                assert(prod(ns.take(1)) == ns.take(1)[0] * prod(ns.take(1).drop_first()));
            }
        }
        new_shape.set(0, a0 + b0);
        proof {
            assert(ints(new_shape@) =~= ns);
        }
        let total = shape_len(new_shape.as_slice());
        let ghost r_len = prod(s1.drop_first());
        proof {
            assert(s1.drop_first() =~= s2.drop_first());
            assert(ns.drop_first() =~= s1.drop_first());
            lemma_prod_nonneg(s1.drop_first());
            assert(a@.len() == a0 * r_len);
            assert(b@.len() == b0 * r_len);
            assert(total == (a0 + b0) * r_len);
        }
        let n = a0 + b0;
        let alen = a.len();
        let blen = b.len();
        let mut out: Vec<T> = Vec::new();
        let mut k: usize = 0;
        while k < total
            invariant
                alen == a@.len(),
                blen == b@.len(),
                total == (a0 + b0) * r_len,
                n == a0 + b0,
                r_len >= 0,
                a@.len() == a0 * r_len,
                b@.len() == b0 * r_len,
                k <= total,
                out@.len() == k,
                forall|j: int| 0 <= j < k ==> #[trigger] out@[j] == concat_values(a@, b@, a0 as int, b0 as int, total as int)[j],
            decreases total - k,
        {
            proof {
                assert(n > 0) by (nonlinear_arith)
                    requires
                        k < total,
                        total == n * r_len,
                        n >= 0,
                ;
                vstd::arithmetic::div_mod::lemma_multiply_divide_lt(k as int, n as int, r_len);
                vstd::arithmetic::div_mod::lemma_mod_bound(k as int, n as int);
                vstd::arithmetic::div_mod::lemma_div_pos_is_pos(k as int, n as int);
            }
            let row = k % n;
            let rest = k / n;
            if row < a0 {
                proof {
                    assert(row + a0 * rest < a0 * r_len) by (nonlinear_arith)
                        requires
                            row < a0,
                            rest < r_len,
                    ;
                }
                out.push(a[row + a0 * rest]);
            } else {
                proof {
                    assert(row - a0 + b0 * rest < b0 * r_len) by (nonlinear_arith)
                        requires
                            row - a0 < b0,
                            rest < r_len,
                            row >= a0,
                    ;
                }
                out.push(b[row - a0 + b0 * rest]);
            }
            k = k + 1;
        }
        proof {
            assert(out@ =~= concat_values(a@, b@, a0 as int, b0 as int, total as int));
        }
        let r = NdArray::from_compact_vec(out, new_shape.as_slice());
        proof {
            lemma_concat_elems(first, second, r);
        }
        Ok(r)
    }

    /// A compact 2D array from equal-length columns: shape
    /// `[column length, column count]`. No columns give shape `[0, 0]`.
    pub fn from_columns(columns: &[Vec<T>]) -> (out: Self)
        requires
            forall|c: int| 0 <= c < columns@.len() ==> #[trigger] columns@[c]@.len() == columns@[0]@.len(),
            columns@.len() > 0 ==> columns@[0]@.len() * columns@.len() <= usize::MAX,
        ensures
            out.wf(),
            out.compact(),
            columns@.len() == 0 ==> out.dims.shape@ == seq![0usize, 0usize],
            columns@.len() > 0 ==> out.dims.shape@ == seq![columns@[0]@.len() as usize, columns@.len() as usize],
            columns@.len() > 0 ==> out.values() == columns_values(columns@, columns@[0]@.len() as int),
            out.name is None,
    {
        let n_cols = columns.len();
        let mut shape: Vec<usize> = Vec::new();
        if n_cols == 0 {
            shape.push(0);
            shape.push(0);
            proof {
                assert(ints(shape@) =~= seq![0int, 0int]);
                lemma_square_fits(0);
                assert(shape@ =~= seq![0usize, 0usize]);
            }
            return NdArray::from_compact_vec(Vec::new(), shape.as_slice());
        }
        let n_rows = columns[0].len();
        let mut out: Vec<T> = Vec::new();
        let mut c: usize = 0;
        while c < n_cols
            invariant
                n_cols == columns@.len(),
                n_cols > 0,
                n_rows == columns@[0]@.len(),
                n_rows * n_cols <= usize::MAX,
                forall|e: int| 0 <= e < columns@.len() ==> #[trigger] columns@[e]@.len() == columns@[0]@.len(),
                c <= n_cols,
                out@.len() == c * n_rows,
                forall|k: int| 0 <= k < c * n_rows ==> #[trigger] out@[k] == columns@[k / n_rows as int]@[k % n_rows as int],
            decreases n_cols - c,
        {
            let col = &columns[c];
            assert(col@.len() == n_rows);
            let mut r: usize = 0;
            while r < n_rows
                invariant
                    n_cols == columns@.len(),
                    c < n_cols,
                    col@ == columns@[c as int]@,
                    col@.len() == n_rows,
                    n_rows * n_cols <= usize::MAX,
                    r <= n_rows,
                    out@.len() == c * n_rows + r,
                    forall|k: int| 0 <= k < c * n_rows + r ==> #[trigger] out@[k] == columns@[k / n_rows as int]@[k % n_rows as int],
                decreases n_rows - r,
            {
                proof {
                    assert(c * n_rows + r < n_rows * n_cols) by (nonlinear_arith)
                        requires
                            r < n_rows,
                            c < n_cols,
                    ;
                    vstd::arithmetic::div_mod::lemma_fundamental_div_mod_converse(
                        c * n_rows + r,
                        n_rows as int,
                        c as int,
                        r as int,
                    );
                }
                out.push(col[r]);
                r = r + 1;
            }
            proof {
                assert((c + 1) * n_rows == c * n_rows + n_rows) by (nonlinear_arith);
            }
            c = c + 1;
        }
        shape.push(n_rows);
        shape.push(n_cols);
        proof {
            assert(ints(shape@) =~= seq![n_rows as int, n_cols as int]);
            lemma_pair_fits(n_rows as int, n_cols as int);
            assert(shape@ =~= seq![n_rows, n_cols]);
            assert(n_cols * n_rows == n_rows * n_cols) by (nonlinear_arith);
        }
        let out_arr = NdArray::from_compact_vec(out, shape.as_slice());
        proof {
            assert(out_arr.values() =~= columns_values(columns@, n_rows as int));
        }
        out_arr
    }
}

/// The shape `[r, c]` fits whenever `r * c` does.
proof fn lemma_pair_fits(r: int, c: int)
    requires
        0 <= r,
        0 <= c,
        r <= usize::MAX,
        r * c <= usize::MAX,
    ensures
        fits(seq![r, c]),
        prod(seq![r, c]) == r * c,
{
    let s = seq![r, c];
    assert(s.drop_first() =~= seq![c]);
    assert(s.drop_first().drop_first() =~= Seq::<int>::empty());
    assert(prod(seq![c]) == c * prod(seq![c].drop_first()));
    assert(prod(s) == r * c);
    assert(prod(seq![r]) == r) by {
        assert(seq![r].drop_first() =~= Seq::<int>::empty());
        assert(prod(seq![r]) == r * prod(seq![r].drop_first()));
    }
    assert forall|d: int| 0 <= d <= s.len() implies #[trigger] prod(s.take(d)) <= usize::MAX by {
        if d == 0 {
            assert(s.take(0) =~= Seq::<int>::empty());
        } else if d == 1 {
            assert(s.take(1) =~= seq![r]);
        } else {
            assert(s.take(2) =~= s);
        }
    }
}

/// What `outer(idx)` reaches: the element at `idx` of a unit-stride 1D
/// array, column `idx` of a unit-row-stride 2D array, and in 3D and up the
/// compact slab at `idx` of the outermost axis, whose element `k` is the
/// element at the inner index `k` followed by `idx`.
proof fn lemma_outer_slab<T>(a: NdArray<T>, idx: int)
    requires
        a.wf(),
        a.dims.shape@.len() >= 1,
        a.dims.shape@.len() >= 3 ==> a.compact(),
        0 <= a.outer_range(idx).0 <= a.outer_range(idx).1 <= a.data@.len(),
    ensures
        ({
            let sl = a.data@.subrange(a.outer_range(idx).0, a.outer_range(idx).1);
            &&& a.dims.shape@.len() == 1 ==> sl.len() == 1 && (a.strides_s()[0] == 1 ==> sl[0] == a.elem(seq![idx]))
            &&& a.dims.shape@.len() == 2 && a.strides_s()[0] == 1 ==> sl.len() == a.shape_s()[0] && forall|r: int|
                0 <= r < sl.len() ==> #[trigger] sl[r] == a.elem(seq![r, idx])
            &&& a.dims.shape@.len() >= 3 ==> sl.len() == prod(a.shape_s().drop_last()) && forall|k: int|
                0 <= k < sl.len() ==> #[trigger] sl[k] == a.elem(unflatten(k, a.shape_s().drop_last()).push(idx))
        }),
{
    let s = a.shape_s();
    let st = a.strides_s();
    let sl = a.data@.subrange(a.outer_range(idx).0, a.outer_range(idx).1);
    let n = s.len();
    if n == 1 {
        if st[0] == 1 {
            assert(seq![idx].drop_first() =~= Seq::<int>::empty());
            assert(dot(seq![idx], st) == idx * st[0] + dot(Seq::<int>::empty(), st.drop_first()));
        }
    } else if n == 2 {
        if st[0] == 1 {
            assert forall|r: int| 0 <= r < sl.len() implies #[trigger] sl[r] == a.elem(seq![r, idx]) by {
                let j = seq![r, idx];
                assert(j.drop_first() =~= seq![idx]);
                assert(seq![idx].drop_first() =~= Seq::<int>::empty());
                assert(dot(seq![idx], st.drop_first()) == idx * st[1] + dot(
                    Seq::<int>::empty(),
                    st.drop_first().drop_first(),
                ));
                assert(dot(j, st) == r * st[0] + dot(j.drop_first(), st.drop_first()));
            }
        }
    } else {
        let inner = s.drop_last();
        let sti = st.drop_last();
        assert(inner =~= s.take(n - 1));
        assert(st[n - 1] == prod(s.take(n - 1)));
        assert(nonneg(inner)) by {
            assert forall|d: int| 0 <= d < inner.len() implies #[trigger] inner[d] >= 0 by {
                assert(inner[d] == a.dims.shape@[d]);
            }
        }
        assert(is_compact(inner, sti)) by {
            assert forall|d: int| 0 <= d < inner.len() implies #[trigger] sti[d] == prod(inner.take(d)) by {
                assert(inner.take(d) =~= s.take(d));
            }
        }
        assert(st =~= sti.push(st[n - 1]));
        assert forall|k: int| 0 <= k < sl.len() implies #[trigger] sl[k] == a.elem(unflatten(k, inner).push(idx)) by {
            let j = unflatten(k, inner);
            lemma_unflatten_in_bounds(k, inner);
            crate::layout::lemma_compact_offset(k, inner, sti);
            crate::layout::lemma_dot_push(j, sti, idx, st[n - 1]);
        }
    }
}

impl<T> NdArray<T> {
    /// Buffer range that `outer(idx)` returns: the element itself in 1D,
    /// column `idx` in 2D, and the `idx`-th outermost slab otherwise.
    pub open spec fn outer_range(&self, idx: int) -> (int, int) {
        let s = self.shape_s();
        let st = self.strides_s();
        if s.len() == 1 {
            (idx, idx + 1)
        } else if s.len() == 2 {
            (idx * st[1], idx * st[1] + s[0])
        } else {
            (idx * st[s.len() - 1], idx * st[s.len() - 1] + st[s.len() - 1])
        }
    }

    /// Buffer range that `span(start, end)` returns: elements `start..end`
    /// in 1D, otherwise outermost positions `start..end` of a compact
    /// layout.
    pub open spec fn span_range(&self, start: int, end: int) -> (int, int) {
        let s = self.shape_s();
        let st = self.strides_s();
        if s.len() == 1 {
            (start, end)
        } else {
            (start * st[s.len() - 1], end * st[s.len() - 1])
        }
    }
}

impl<T: Copy> NdArray<T> {
    /// Index the outermost axis: the single element in 1D, column `idx` in
    /// 2D, the `idx`-th outermost slab of a compact layout in 3D and up.
    pub fn outer(&self, idx: usize) -> (s: &[T])
        requires
            self.wf(),
            self.dims.shape@.len() >= 1,
            self.dims.shape@.len() >= 3 ==> self.compact(),
            0 <= self.outer_range(idx as int).0 <= self.outer_range(idx as int).1 <= self.data@.len(),
        ensures
            s@ == self.data@.subrange(self.outer_range(idx as int).0, self.outer_range(idx as int).1),
            self.dims.shape@.len() == 1 ==> s@.len() == 1 && (self.strides_s()[0] == 1 ==> s@[0] == self.elem(
                seq![idx as int],
            )),
            self.dims.shape@.len() == 2 && self.strides_s()[0] == 1 ==> s@.len() == self.shape_s()[0] && forall|r: int|
                0 <= r < s@.len() ==> #[trigger] s@[r] == self.elem(seq![r, idx as int]),
            self.dims.shape@.len() >= 3 ==> s@.len() == prod(self.shape_s().drop_last()) && forall|k: int|
                0 <= k < s@.len() ==> #[trigger] s@[k] == self.elem(
                    unflatten(k, self.shape_s().drop_last()).push(idx as int),
                ),
    {
        proof {
            lemma_outer_slab(*self, idx as int);
        }
        let _n = self.data.len();
        let shape = self.dims.shape();
        let strides = self.dims.strides();
        let nd = shape.len();
        if nd == 1 {
            vstd::slice::slice_subrange(self.data.as_slice(), idx, idx + 1)
        } else if nd == 2 {
            let start = idx * strides[1];
            vstd::slice::slice_subrange(self.data.as_slice(), start, start + shape[0])
        } else {
            let st = strides[nd - 1];
            let start = idx * st;
            vstd::slice::slice_subrange(self.data.as_slice(), start, start + st)
        }
    }

    /// Index a range of the outermost axis: elements `start..end` in 1D,
    /// otherwise the outermost positions `start..end` of a compact layout.
    pub fn span(&self, start: usize, end: usize) -> (s: &[T])
        requires
            self.wf(),
            self.dims.shape@.len() >= 1,
            self.dims.shape@.len() >= 2 ==> self.compact(),
            0 <= self.span_range(start as int, end as int).0 <= self.span_range(start as int, end as int).1
                <= self.data@.len(),
        ensures
            s@ == self.data@.subrange(
                self.span_range(start as int, end as int).0,
                self.span_range(start as int, end as int).1,
            ),
    {
        let _n = self.data.len();
        let strides = self.dims.strides();
        let nd = strides.len();
        if nd == 1 {
            vstd::slice::slice_subrange(self.data.as_slice(), start, end)
        } else {
            let st = strides[nd - 1];
            vstd::slice::slice_subrange(self.data.as_slice(), start * st, end * st)
        }
    }

    /// A compact 1D array copying `data`.
    pub fn from_flat(data: &[T]) -> (out: Self)
        ensures
            out.wf(),
            out.compact(),
            out.dims.shape@ == seq![data@.len() as usize],
            out.values() == data@,
            out.name is None,
    {
        let n = data.len();
        let mut shape: Vec<usize> = Vec::new();
        shape.push(n);
        proof {
            one_dim_fits(n as int);
            assert(ints(shape@) =~= seq![n as int]);
        }
        let out = NdArray::from_compact_vec(vstd::slice::slice_to_vec(data), shape.as_slice());
        proof {
            assert(out.dims.shape@ =~= seq![data@.len() as usize]);
        }
        out
    }

    /// A compact 1D array taking ownership of `data`.
    pub fn from_vec(data: Vec<T>) -> (out: Self)
        ensures
            out.wf(),
            out.compact(),
            out.dims.shape@ == seq![data@.len() as usize],
            out.values() == data@,
            out.name is None,
    {
        let n = data.len();
        let mut shape: Vec<usize> = Vec::new();
        shape.push(n);
        proof {
            one_dim_fits(n as int);
            assert(ints(shape@) =~= seq![n as int]);
        }
        let ghost d = data@;
        let out = NdArray::from_compact_vec(data, shape.as_slice());
        proof {
            assert(out.dims.shape@ =~= seq![d.len() as usize]);
        }
        out
    }

    /// Header describing the array: `NdArray 'name': [d0, d1] [2D, col-major]`
    /// (the name part only when the array is named).
    pub fn describe(&self) -> (s: String)
        ensures
            s@ == "NdArray"@ + name_label(self.name) + ": "@ + dims_text(ints(self.dims.shape@)) + " ["@ + decimal(
                self.dims.shape@.len() as nat,
            ) + "D, col-major]"@,
    {
        let mut s = String::from_str("NdArray");
        match &self.name {
            Some(n) => {
                s.append(" '");
                s.append(n.as_str());
                s.append("'");
            },
            None => {},
        }
        s.append(": ");
        append_dims(&mut s, self.dims.shape());
        s.append(" [");
        append_usize(&mut s, self.dims.shape.len());
        s.append("D, col-major]");
        s
    }
}

/// Shape classification by rank.
#[derive(Debug, Clone, PartialEq, Eq)]
pub enum ShapeDim {
    Rank1(usize),
    Rank2 { rows: usize, cols: usize },
    RankN(Vec<usize>),
}

/// The rank-classified shape of a container.
pub trait Shape {
    /// `d` classifies this container's shape.
    spec fn classifies(&self, d: ShapeDim) -> bool;

    fn shape(&self) -> (d: ShapeDim)
        ensures
            self.classifies(d),
    ;
}

/// `d` classifies `shape` by rank: one and two dimensions get their own
/// variants, any other rank carries the full shape.
pub open spec fn classifies_shape(shape: Seq<usize>, d: ShapeDim) -> bool {
    &&& shape.len() == 1 ==> d == ShapeDim::Rank1(shape[0])
    &&& shape.len() == 2 ==> d == (ShapeDim::Rank2 { rows: shape[0], cols: shape[1] })
    &&& shape.len() != 1 && shape.len() != 2 ==> (d matches ShapeDim::RankN(v) && v@ == shape)
}

/// Classifies a shape by rank.
pub fn classify_shape(shape: &[usize]) -> (d: ShapeDim)
    ensures
        classifies_shape(shape@, d),
{
    if shape.len() == 1 {
        ShapeDim::Rank1(shape[0])
    } else if shape.len() == 2 {
        ShapeDim::Rank2 { rows: shape[0], cols: shape[1] }
    } else {
        ShapeDim::RankN(vstd::slice::slice_to_vec(shape))
    }
}

impl<T: Copy> Shape for NdArray<T> {
    open spec fn classifies(&self, d: ShapeDim) -> bool {
        classifies_shape(self.dims.shape@, d)
    }

    fn shape(&self) -> (d: ShapeDim) {
        classify_shape(self.dims.shape.as_slice())
    }
}

impl<T: Copy> Shape for NdArrayV<T> {
    open spec fn classifies(&self, d: ShapeDim) -> bool {
        classifies_shape(self.dims.shape@, d)
    }

    fn shape(&self) -> (d: ShapeDim) {
        classify_shape(self.dims.shape.as_slice())
    }
}

/// The logical order and indexed access agree: for every in-bounds index
/// of a well-formed array, the element `get` returns sits in the logical
/// (column-major) sequence at the index's flattened position.
pub proof fn law_values_match_get<T>(a: NdArray<T>, idx: Seq<int>)
    requires
        a.wf(),
        in_bounds(idx, a.shape_s()),
    ensures
        0 <= flatten(idx, a.shape_s()) < a.values().len(),
        a.values()[flatten(idx, a.shape_s())] == a.elem(idx),
{
    lemma_logical_at(a.data@, 0, a.shape_s(), a.strides_s(), idx);
}

/// Building from a flat column-major slice and reading back the logical
/// elements returns the slice.
pub proof fn law_from_slice_roundtrip<T>(data: Seq<T>, shape: Seq<int>, strides: Seq<int>)
    requires
        nonneg(shape),
        is_compact(shape, strides),
        data.len() == prod(shape),
    ensures
        logical(data, 0, shape, strides) == data,
{
    lemma_logical_compact(data, shape, strides);
    assert(data.take(prod(shape)) =~= data);
}


/// Writing one element and reading the array back: the written index
/// holds the new value, and, where distinct elements live at distinct
/// buffer offsets, every other element keeps its value.
pub proof fn law_set_then_get<T>(a: NdArray<T>, b: NdArray<T>, idx: Seq<int>, value: T)
    requires
        a.wf(),
        in_bounds(idx, a.shape_s()),
        b.dims.shape@ == a.dims.shape@,
        b.dims.strides@ == a.dims.strides@,
        b.data@ == a.data@.update(dot(idx, a.strides_s()), value),
    ensures
        b.elem(idx) == value,
        a.distinct_offsets() ==> forall|j: Seq<int>|
            in_bounds(j, a.shape_s()) && j != idx ==> #[trigger] b.elem(j) == a.elem(j),
{
    let s = a.shape_s();
    let st = a.strides_s();
    lemma_dot_bound(idx, s, st);
    crate::layout::lemma_flatten_roundtrip(idx, s);
    lemma_prod_all_pos_from_index(idx, s);
    if a.distinct_offsets() {
        assert forall|j: Seq<int>| in_bounds(j, s) && j != idx implies #[trigger] b.elem(j) == a.elem(j) by {
            lemma_dot_bound(j, s, st);
            crate::layout::lemma_flatten_roundtrip(j, s);
            let kj = flatten(j, s);
            let ki = flatten(idx, s);
            assert(kj != ki);
            assert(a.offset_at(kj) != a.offset_at(ki));
        }
    }
}

/// A shape with an in-bounds index holds at least one element.
proof fn lemma_prod_all_pos_from_index(idx: Seq<int>, s: Seq<int>)
    requires
        in_bounds(idx, s),
    ensures
        prod(s) > 0,
    decreases s.len(),
{
    if s.len() > 0 {
        let rest = s.drop_first();
        assert(in_bounds(idx.drop_first(), rest)) by {
            assert forall|d: int| 0 <= d < idx.drop_first().len() implies 0 <= #[trigger] idx.drop_first()[d]
                < rest[d] by {
                assert(idx.drop_first()[d] == idx[d + 1]);
            }
        }
        lemma_prod_all_pos_from_index(idx.drop_first(), rest);
        assert(0 <= idx[0] < s[0]);
        assert(s[0] * prod(rest) > 0) by (nonlinear_arith)
            requires
                s[0] > 0,
                prod(rest) > 0,
        ;
    }
}

/// Transposing twice gives back the original layout of elements: the
/// shape returns, and every element is back at its index.
pub proof fn law_transpose_twice<T>(a: NdArray<T>, t: NdArray<T>, tt: NdArray<T>)
    requires
        a.wf(),
        t.dims.shape@ == a.dims.shape@.reverse(),
        forall|idx: Seq<int>| in_bounds(idx, a.shape_s()) ==> #[trigger] t.elem(idx.reverse()) == a.elem(idx),
        tt.dims.shape@ == t.dims.shape@.reverse(),
        forall|idx: Seq<int>| in_bounds(idx, t.shape_s()) ==> #[trigger] tt.elem(idx.reverse()) == t.elem(idx),
    ensures
        tt.dims.shape@ == a.dims.shape@,
        forall|idx: Seq<int>| in_bounds(idx, a.shape_s()) ==> #[trigger] tt.elem(idx) == a.elem(idx),
        tt.values() == a.values(),
{
    assert(a.dims.shape@.reverse().reverse() =~= a.dims.shape@);
    assert(t.shape_s() =~= a.shape_s().reverse());
    assert forall|idx: Seq<int>| in_bounds(idx, a.shape_s()) implies #[trigger] tt.elem(idx) == a.elem(idx) by {
        lemma_in_bounds_reverse(idx, a.shape_s());
        assert(idx.reverse().reverse() =~= idx);
        assert(tt.elem(idx.reverse().reverse()) == t.elem(idx.reverse()));
    }
    assert(tt.shape_s() =~= a.shape_s());
    assert(nonneg(a.shape_s())) by {
        assert forall|d: int| 0 <= d < a.shape_s().len() implies #[trigger] a.shape_s()[d] >= 0 by {
            assert(a.shape_s()[d] == a.dims.shape@[d]);
        }
    }
    lemma_prod_nonneg(a.shape_s());
    assert forall|k: int| 0 <= k < a.values().len() implies #[trigger] tt.values()[k] == a.values()[k] by {
        lemma_unflatten_in_bounds(k, a.shape_s());
        assert(tt.elem(unflatten(k, a.shape_s())) == a.elem(unflatten(k, a.shape_s())));
    }
    assert(tt.values() =~= a.values());
}


impl<T: Copy> NdArray<T> {
    /// The buffer elements `lo..hi`, mutably; writes land in the buffer.
    fn data_range_mut(&mut self, lo: usize, hi: usize) -> (s: &mut [T])
        requires
            lo <= hi <= old(self).data@.len(),
        ensures
            s@ == old(self).data@.subrange(lo as int, hi as int),
            final(self).data@ == old(self).data@.subrange(0, lo as int) + final(s)@ + old(self).data@.subrange(
                hi as int,
                old(self).data@.len() as int,
            ),
            final(self).dims == old(self).dims,
            final(self).name == old(self).name,
    {
        let whole = self.data.as_mut_slice();
        let (_head, rest) = whole.split_at_mut(lo);
        let (mid, _tail) = rest.split_at_mut(hi - lo);
        mid
    }

    /// The element at an N-dimensional index, mutably.
    pub fn get_mut(&mut self, indices: &[usize]) -> (r: &mut T)
        requires
            old(self).wf(),
            in_bounds(ints(indices@), old(self).shape_s()),
        ensures
            *r == old(self).elem(ints(indices@)),
            final(self).data@ == old(self).data@.update(dot(ints(indices@), old(self).strides_s()), *final(r)),
            final(self).dims == old(self).dims,
            final(self).name == old(self).name,
    {
        let off = self.offset_of(indices);
        &mut self.data[off]
    }

    /// The whole buffer, mutably.
    pub fn as_mut_slice(&mut self) -> (s: &mut [T])
        ensures
            s@ == old(self).data@,
            final(self).data@ == final(s)@,
            final(self).dims == old(self).dims,
            final(self).name == old(self).name,
    {
        self.data.as_mut_slice()
    }

    /// Column `col` of a 2D array, mutably: `shape[0]` contiguous elements
    /// starting at `col * strides[1]`.
    pub fn col_mut(&mut self, col: usize) -> (c: &mut [T])
        requires
            old(self).wf(),
            old(self).dims.shape@.len() == 2,
            col < old(self).dims.shape@[1],
            col * old(self).dims.strides@[1] + old(self).dims.shape@[0] <= old(self).data@.len(),
        ensures
            ({
                let lo = col * old(self).dims.strides@[1];
                let hi = lo + old(self).dims.shape@[0];
                &&& c@ == old(self).data@.subrange(lo, hi)
                &&& final(self).data@ == old(self).data@.subrange(0, lo) + final(c)@ + old(self).data@.subrange(
                    hi,
                    old(self).data@.len() as int,
                )
            }),
            final(self).dims == old(self).dims,
            final(self).name == old(self).name,
    {
        let _n = self.data.len();
        let start = col * self.dims.strides[1];
        let rows = self.dims.shape[0];
        self.data_range_mut(start, start + rows)
    }

    /// Mutable form of [`NdArray::outer`].
    pub fn outer_mut(&mut self, idx: usize) -> (s: &mut [T])
        requires
            old(self).wf(),
            old(self).dims.shape@.len() >= 1,
            old(self).dims.shape@.len() >= 3 ==> old(self).compact(),
            0 <= old(self).outer_range(idx as int).0 <= old(self).outer_range(idx as int).1 <= old(self).data@.len(),
        ensures
            ({
                let (lo, hi) = old(self).outer_range(idx as int);
                &&& s@ == old(self).data@.subrange(lo, hi)
                &&& final(self).data@ == old(self).data@.subrange(0, lo) + final(s)@ + old(self).data@.subrange(
                    hi,
                    old(self).data@.len() as int,
                )
            }),
            old(self).dims.shape@.len() == 1 ==> s@.len() == 1 && (old(self).strides_s()[0] == 1 ==> s@[0] == old(self).elem(
                seq![idx as int],
            )),
            old(self).dims.shape@.len() == 2 && old(self).strides_s()[0] == 1 ==> s@.len() == old(self).shape_s()[0] && forall|r: int|
                0 <= r < s@.len() ==> #[trigger] s@[r] == old(self).elem(seq![r, idx as int]),
            old(self).dims.shape@.len() >= 3 ==> s@.len() == prod(old(self).shape_s().drop_last()) && forall|k: int|
                0 <= k < s@.len() ==> #[trigger] s@[k] == old(self).elem(
                    unflatten(k, old(self).shape_s().drop_last()).push(idx as int),
                ),
            final(self).dims == old(self).dims,
            final(self).name == old(self).name,
    {
        proof {
            lemma_outer_slab(*self, idx as int);
        }
        let _n = self.data.len();
        let nd = self.dims.shape.len();
        if nd == 1 {
            self.data_range_mut(idx, idx + 1)
        } else if nd == 2 {
            let start = idx * self.dims.strides[1];
            let rows = self.dims.shape[0];
            self.data_range_mut(start, start + rows)
        } else {
            let st = self.dims.strides[nd - 1];
            let start = idx * st;
            self.data_range_mut(start, start + st)
        }
    }

    /// Mutable form of [`NdArray::span`].
    pub fn span_mut(&mut self, start: usize, end: usize) -> (s: &mut [T])
        requires
            old(self).wf(),
            old(self).dims.shape@.len() >= 1,
            old(self).dims.shape@.len() >= 2 ==> old(self).compact(),
            0 <= old(self).span_range(start as int, end as int).0 <= old(self).span_range(start as int, end as int).1
                <= old(self).data@.len(),
        ensures
            ({
                let (lo, hi) = old(self).span_range(start as int, end as int);
                &&& s@ == old(self).data@.subrange(lo, hi)
                &&& final(self).data@ == old(self).data@.subrange(0, lo) + final(s)@ + old(self).data@.subrange(
                    hi,
                    old(self).data@.len() as int,
                )
            }),
            final(self).dims == old(self).dims,
            final(self).name == old(self).name,
    {
        let _n = self.data.len();
        let nd = self.dims.strides.len();
        if nd == 1 {
            self.data_range_mut(start, end)
        } else {
            let st = self.dims.strides[nd - 1];
            self.data_range_mut(start * st, end * st)
        }
    }
}


/// The buffer from offset `base` on, with columns `c0, c0 + 1, ...`
/// (column `c` at `c * stride`, `n_rows` long) holding `cols` in place of
/// the elements of `od`; the gaps before, between and after them keep
/// `od`'s elements.
pub open spec fn woven_from<T>(od: Seq<T>, stride: int, n_rows: int, base: int, cols: Seq<Seq<T>>, c0: int) -> Seq<T>
    decreases cols.len(),
{
    if cols.len() == 0 {
        od.subrange(base, od.len() as int)
    } else {
        od.subrange(base, c0 * stride) + cols[0] + woven_from(
            od,
            stride,
            n_rows,
            c0 * stride + n_rows,
            cols.drop_first(),
            c0 + 1,
        )
    }
}

/// The columns of a buffer as `od` holds them, from column `c0` on.
pub open spec fn buffer_cols<T>(od: Seq<T>, stride: int, n_rows: int, c0: int, n: int) -> Seq<Seq<T>> {
    Seq::new(n as nat, |k: int| od.subrange((c0 + k) * stride, (c0 + k) * stride + n_rows))
}

/// Writing each column back as it was leaves the buffer as it was.
pub proof fn law_untouched_columns_keep_buffer<T>(od: Seq<T>, stride: int, n_rows: int, base: int, c0: int, n: int)
    requires
        0 <= n,
        0 <= c0,
        0 <= n_rows,
        0 <= base <= od.len(),
        n > 0 ==> base <= c0 * stride,
        n > 1 ==> n_rows <= stride,
        n > 0 ==> (c0 + n - 1) * stride + n_rows <= od.len(),
    ensures
        woven_from(od, stride, n_rows, base, buffer_cols(od, stride, n_rows, c0, n), c0) == od.subrange(
            base,
            od.len() as int,
        ),
    decreases n,
{
    let cols = buffer_cols(od, stride, n_rows, c0, n);
    if n > 0 {
        let start = c0 * stride;
        assert(cols.drop_first() =~= buffer_cols(od, stride, n_rows, c0 + 1, n - 1));
        if n > 1 {
            assert((c0 + 1) * stride == c0 * stride + stride) by (nonlinear_arith);
            assert(start + n_rows <= (c0 + 1) * stride);
            assert((c0 + 1 + (n - 1) - 1) * stride == (c0 + n - 1) * stride);
        }
        assert(start + n_rows <= od.len()) by {
            if n > 1 {
                assert((c0 + n - 1) * stride >= c0 * stride) by (nonlinear_arith)
                    requires
                        n > 1,
                        stride >= 0,
                ;
            }
        }
        law_untouched_columns_keep_buffer(od, stride, n_rows, start + n_rows, c0 + 1, n - 1);
        assert(od.subrange(base, start) + cols[0] + od.subrange(start + n_rows, od.len() as int) =~= od.subrange(
            base,
            od.len() as int,
        ));
    }
}

impl<T: Copy> NdArray<T> {
    /// Columns `c, c + 1, ...` of a buffer whose elements from offset
    /// `base` on are `rest`, as mutable slices.
    fn columns_from<'a>(
        rest: &'a mut [T],
        base: usize,
        c: usize,
        n_cols: usize,
        stride: usize,
        n_rows: usize,
        Ghost(od): Ghost<Seq<T>>,
    ) -> (cols: Vec<&'a mut [T]>)
        requires
            old(rest)@ == od.subrange(base as int, od.len() as int),
            base <= od.len() <= usize::MAX,
            c <= n_cols,
            c < n_cols ==> base <= c * stride,
            n_cols > 1 ==> n_rows <= stride,
            n_cols > 0 ==> (n_cols - 1) * stride + n_rows <= od.len(),
        ensures
            cols@.len() == n_cols - c,
            forall|k: int|
                #![auto]
                0 <= k < n_cols - c ==> cols@[k]@ == od.subrange(
                    (c + k) * stride,
                    (c + k) * stride + n_rows,
                ),
            final(rest)@ == woven_from(
                od,
                stride as int,
                n_rows as int,
                base as int,
                Seq::new((n_cols - c) as nat, |k: int| final(cols@[k])@),
                c as int,
            ),
        decreases n_cols - c,
    {
        if c == n_cols {
            return Vec::new();
        }
        proof {
            assert(c * stride + n_rows <= od.len()) by {
                assert(c * stride <= (n_cols - 1) * stride) by (nonlinear_arith)
                    requires
                        c <= n_cols - 1,
                ;
            }
            if c + 1 < n_cols {
                assert((c + 1) * stride == c * stride + stride) by (nonlinear_arith);
            }
        }
        let start = c * stride;
        let (_gap, tail) = rest.split_at_mut(start - base);
        let (col, more_rest) = tail.split_at_mut(n_rows);
        proof {
            assert(more_rest@ =~= od.subrange(start + n_rows, od.len() as int));
            assert(col@ =~= od.subrange(start as int, start + n_rows));
        }
        let mut cols = Self::columns_from(more_rest, start + n_rows, c + 1, n_cols, stride, n_rows, Ghost(od));
        let ghost pre = cols@;
        cols.insert(0, col);
        proof {
            let f = Seq::new((n_cols - c) as nat, |k: int| final(cols@[k])@);
            assert(f.drop_first() =~= Seq::new((n_cols - c - 1) as nat, |k: int| final(pre[k])@));
            assert forall|k: int| #![auto] 0 <= k < n_cols - c implies cols@[k]@ == od.subrange(
                (c + k) * stride,
                (c + k) * stride + n_rows,
            ) by {
                if k > 0 {
                    assert(cols@[k] == pre[k - 1]);
                    assert(c + k == (c + 1) + (k - 1));
                }
            }
        }
        cols
    }

    /// All columns of a 2D array as mutable slices, left to right: column
    /// `c` is the `shape[0]` elements from `c * strides[1]`. The columns
    /// lie inside the buffer and do not overlap; writes through them land
    /// in the buffer, and the elements between them are unchanged.
    pub fn columns_mut(&mut self) -> (cols: Vec<&mut [T]>)
        requires
            old(self).wf(),
            old(self).dims.shape@.len() == 2,
            old(self).dims.shape@[1] > 1 ==> old(self).dims.shape@[0] <= old(self).dims.strides@[1],
            old(self).dims.shape@[1] > 0 ==> (old(self).dims.shape@[1] - 1) * old(self).dims.strides@[1]
                + old(self).dims.shape@[0] <= old(self).data@.len(),
        ensures
            cols@.len() == old(self).dims.shape@[1],
            forall|c: int|
                #![auto]
                0 <= c < cols@.len() ==> cols@[c]@ == old(self).data@.subrange(
                    c * old(self).dims.strides@[1] as int,
                    c * old(self).dims.strides@[1] + old(self).dims.shape@[0],
                ),
            final(self).data@ == woven_from(
                old(self).data@,
                old(self).dims.strides@[1] as int,
                old(self).dims.shape@[0] as int,
                0,
                Seq::new(old(self).dims.shape@[1] as nat, |k: int| final(cols@[k])@),
                0,
            ),
            final(self).dims == old(self).dims,
            final(self).name == old(self).name,
    {
        let ghost od = self.data@;
        let n_rows = self.dims.shape[0];
        let n_cols = self.dims.shape[1];
        let stride = self.dims.strides[1];
        let n = self.data.len();
        assert(od.len() == n);
        let whole = self.data.as_mut_slice();
        assert(whole@ =~= od.subrange(0, od.len() as int));
        Self::columns_from(whole, 0, 0, n_cols, stride, n_rows, Ghost(od))
    }
}

} // verus!
