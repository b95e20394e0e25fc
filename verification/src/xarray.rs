//! # XArray - labelled n-dimensional array
//!
//! An [`NdArray`] or an [`NdArrayV`] together with one named axis per
//! dimension, each optionally carrying coordinate labels. Positions can be
//! addressed by index (`select`, `slice`) or by coordinate value (`at`,
//! `between`, `nearest`). Views taken from view-backed storage share its
//! parent; views taken from owned storage are built over one copy of it
//! (see [`NdArray::as_view`]).

use vstd::prelude::*;

use crate::coords::{axis_message, axis_text, Coords, CoordsView, Scalar};
use crate::error::{decimal, join3, usize_text, MinarrowError};
use crate::layout::{dot, fits, flatten, in_bounds, ints, lemma_logical_at, prod};
use crate::ndarray::{
    classifies_shape, classify_shape, concat_shape, concat_values, trailing_match, NdArray, Shape, ShapeDim,
};
use crate::ndarray_view::NdArrayV;
use crate::selection::{
    kept_shape, lemma_sel_offset_le, lemma_sel_rest, sel_offset, sel_valid, window_shape, window_source, window_strides, AxisSel,
};
use crate::text::str_eq;

verus! {

/// Storage of an [`XArray`]: an owned array or a view into one.
#[derive(Debug, PartialEq)]
pub enum NdArrayE<T> {
    Owned(NdArray<T>),
    View(NdArrayV<T>),
}

impl<T> NdArrayE<T> {
    pub open spec fn shape_u(&self) -> Seq<usize> {
        match self {
            NdArrayE::Owned(a) => a.dims.shape@,
            NdArrayE::View(v) => v.dims.shape@,
        }
    }

    pub open spec fn shape_s(&self) -> Seq<int> {
        ints(self.shape_u())
    }

    pub open spec fn strides_u(&self) -> Seq<usize> {
        match self {
            NdArrayE::Owned(a) => a.dims.strides@,
            NdArrayE::View(v) => v.dims.strides@,
        }
    }

    pub open spec fn strides_s(&self) -> Seq<int> {
        ints(self.strides_u())
    }

    pub open spec fn wf(&self) -> bool {
        match self {
            NdArrayE::Owned(a) => a.wf(),
            NdArrayE::View(v) => v.wf(),
        }
    }

    /// The element at a multi-index.
    pub open spec fn elem(&self, idx: Seq<int>) -> T {
        match self {
            NdArrayE::Owned(a) => a.elem(idx),
            NdArrayE::View(v) => v.elem(idx),
        }
    }

    /// The logical elements in column-major order.
    pub open spec fn values(&self) -> Seq<T> {
        match self {
            NdArrayE::Owned(a) => a.values(),
            NdArrayE::View(v) => v.values(),
        }
    }

    /// Buffer offset of the first addressed element.
    pub open spec fn base(&self) -> int {
        match self {
            NdArrayE::Owned(_) => 0,
            NdArrayE::View(v) => v.offset as int,
        }
    }

    /// Same storage kind, contents and layout.
    pub open spec fn same(&self, other: &NdArrayE<T>) -> bool {
        match (self, other) {
            (NdArrayE::Owned(a), NdArrayE::Owned(b)) => a.same(b),
            (NdArrayE::View(a), NdArrayE::View(b)) => a.same(b),
            _ => false,
        }
    }
}

impl<T: Copy> Clone for NdArrayE<T> {
    fn clone(&self) -> (out: Self)
        ensures
            out.same(self),
    {
        match self {
            NdArrayE::Owned(a) => NdArrayE::Owned(a.duplicate()),
            NdArrayE::View(v) => NdArrayE::View(v.clone()),
        }
    }
}

/// Name and coordinate labels of an axis.
pub type AxisView = (Seq<char>, Option<CoordsView>);

/// The view of optional coordinates.
pub open spec fn coords_view(c: Option<Coords>) -> Option<CoordsView> {
    match c {
        Some(c) => Some(c@),
        None => None,
    }
}

/// Coordinate labels restricted to positions `s .. e`.
pub open spec fn narrow_view(c: CoordsView, s: int, e: int) -> CoordsView {
    (c.0, c.1.subrange(s, e), c.2.subrange(s, e))
}

/// An axis restricted to positions `s .. e`: same name, narrowed labels.
pub open spec fn narrow_axis(a: AxisView, s: int, e: int) -> AxisView {
    (
        a.0,
        match a.1 {
            Some(c) => Some(narrow_view(c, s, e)),
            None => None,
        },
    )
}

/// A named dimension with optional coordinate labels, one per position.
#[derive(Debug, PartialEq)]
pub struct Axis {
    pub name: String,
    pub coords: Option<Coords>,
}

impl View for Axis {
    type V = AxisView;

    open spec fn view(&self) -> AxisView {
        (self.name@, coords_view(self.coords))
    }
}

impl Clone for Axis {
    fn clone(&self) -> (out: Self)
        ensures
            out@ == self@,
    {
        let coords = match &self.coords {
            Some(c) => Some(c.clone()),
            None => None,
        };
        Axis { name: self.name.clone(), coords }
    }
}

/// Axis metadata fits a shape: one axis per dimension (none for the
/// one-dimensional window left after collapsing every labelled axis), and
/// each axis's labels number its dimension's extent.
pub open spec fn axes_fit(axes: Seq<Axis>, shape: Seq<int>) -> bool {
    &&& (axes.len() == shape.len() || (axes.len() == 0 && shape.len() == 1))
    &&& forall|i: int| 0 <= i < axes.len() ==> #[trigger] coords_fit(axes[i], shape[i])
}

/// An axis's labels, if any, number `n`.
pub open spec fn coords_fit(a: Axis, n: int) -> bool {
    view_fits(a@, n)
}

/// Labels, if any, number `n`.
pub open spec fn view_fits(a: AxisView, n: int) -> bool {
    a.1 matches Some(c) ==> c.1.len() == n
}

/// `p` is the first position whose name is `name`.
pub open spec fn is_first(names: Seq<Seq<char>>, name: Seq<char>, p: int) -> bool {
    &&& 0 <= p < names.len()
    &&& names[p] == name
    &&& forall|q: int| 0 <= q < p ==> names[q] != name
}

/// Some position carries the name.
pub open spec fn has_name(names: Seq<Seq<char>>, name: Seq<char>) -> bool {
    exists|p: int| 0 <= p < names.len() && names[p] == name
}

/// The first position carrying the name.
pub open spec fn pos_of(names: Seq<Seq<char>>, name: Seq<char>) -> int {
    choose|p: int| is_first(names, name, p)
}

/// The first position with a name is unique.
pub proof fn lemma_first_unique(names: Seq<Seq<char>>, name: Seq<char>, p: int, q: int)
    requires
        is_first(names, name, p),
        is_first(names, name, q),
    ensures
        p == q,
{
    if p < q {
        assert(names[p] != name);
    }
    if q < p {
        assert(names[q] != name);
    }
}

/// A name that occurs has a first position, found by `pos_of`.
pub proof fn lemma_pos_of(names: Seq<Seq<char>>, name: Seq<char>)
    requires
        has_name(names, name),
    ensures
        is_first(names, name, pos_of(names, name)),
    decreases names.len(),
{
    let w = choose|p: int| 0 <= p < names.len() && names[p] == name;
    let mut p = w;
    if names[0] == name {
        assert(is_first(names, name, 0));
    } else {
        let rest = names.drop_first();
        assert(rest[w - 1] == name);
        lemma_pos_of(rest, name);
        let r = pos_of(rest, name);
        assert forall|q: int| 0 <= q < r + 1 implies names[q] != name by {
            if q > 0 {
                assert(names[q] == rest[q - 1]);
            }
        }
        assert(is_first(names, name, r + 1));
    }
}

impl Axis {
    /// Named axis without coordinates.
    pub fn named(name: &str) -> (a: Axis)
        ensures
            a.name@ == name@,
            a.coords is None,
    {
        Axis { name: name.to_string(), coords: None }
    }

    /// Named axis with coordinate labels.
    pub fn with_coords(name: &str, coords: Coords) -> (a: Axis)
        ensures
            a.name@ == name@,
            a.coords == Some(coords),
    {
        Axis { name: name.to_string(), coords: Some(coords) }
    }

    /// This axis restricted to positions `start .. end`.
    pub fn narrowed(&self, start: usize, end: usize) -> (out: Axis)
        requires
            start <= end,
            self.coords matches Some(c) ==> end <= c.len_s(),
        ensures
            out@ == narrow_axis(self@, start as int, end as int),
    {
        let coords = match &self.coords {
            Some(c) => {
                let n = c.slice_clone(start, end - start);
                proof {
                    assert(n@.1 =~= c@.1.subrange(start as int, end as int));
                    assert(n@.2 =~= c@.2.subrange(start as int, end as int));
                }
                Some(n)
            },
            None => None,
        };
        Axis { name: self.name.clone(), coords }
    }
}

/// Labelled n-dimensional array: storage plus one named axis per
/// dimension.
#[derive(Debug, PartialEq)]
pub struct XArray<T> {
    pub data: NdArrayE<T>,
    pub axes: Vec<Axis>,
}

impl<T> XArray<T> {
    pub open spec fn shape_s(&self) -> Seq<int> {
        self.data.shape_s()
    }

    pub open spec fn strides_s(&self) -> Seq<int> {
        self.data.strides_s()
    }

    /// The element at a multi-index.
    pub open spec fn elem(&self, idx: Seq<int>) -> T {
        self.data.elem(idx)
    }

    /// The logical elements in column-major order.
    pub open spec fn values(&self) -> Seq<T> {
        self.data.values()
    }

    /// Names and labels of the axes, in order.
    pub open spec fn axes_v(&self) -> Seq<AxisView> {
        self.axes@.map_values(|a: Axis| a@)
    }

    /// Names of the axes, in order.
    pub open spec fn names(&self) -> Seq<Seq<char>> {
        self.axes@.map_values(|a: Axis| a.name@)
    }

    /// Well-formed storage, and axes that fit its shape.
    pub open spec fn wf(&self) -> bool {
        &&& self.data.wf()
        &&& axes_fit(self.axes@, self.shape_s())
    }

    /// Every position selection stays inside the address space: the base
    /// offset plus each extent times its stride fits in a `usize`.
    pub open spec fn addressable(&self) -> bool {
        self.data.base() + dot(self.shape_s(), self.strides_s()) <= usize::MAX
    }
}

impl<T: Copy> Clone for XArray<T> {
    fn clone(&self) -> (out: Self)
        ensures
            out.data.same(&self.data),
            out.axes_v() == self.axes_v(),
            out.axes@.len() == self.axes@.len(),
            forall|i: int| 0 <= i < out.axes@.len() ==> #[trigger] out.axes@[i]@ == self.axes@[i]@,
    {
        XArray { data: self.data.clone(), axes: clone_axes(&self.axes) }
    }
}

/// Copies of every axis.
pub fn clone_axes(axes: &Vec<Axis>) -> (out: Vec<Axis>)
    ensures
        out@.len() == axes@.len(),
        forall|i: int| 0 <= i < axes@.len() ==> #[trigger] out@[i]@ == axes@[i]@,
        out@.map_values(|a: Axis| a@) == axes@.map_values(|a: Axis| a@),
{
    let mut out: Vec<Axis> = Vec::new();
    let mut i: usize = 0;
    while i < axes.len()
        invariant
            i <= axes@.len(),
            out@.len() == i,
            forall|k: int| 0 <= k < i ==> #[trigger] out@[k]@ == axes@[k]@,
        decreases axes@.len() - i,
    {
        out.push(axes[i].clone());
        i = i + 1;
    }
    assert(out@.map_values(|a: Axis| a@) =~= axes@.map_values(|a: Axis| a@));
    out
}

/// Coordinates of equal-view axes fit the same extents.
proof fn lemma_fit_by_view(a: Seq<Axis>, b: Seq<Axis>, shape: Seq<int>)
    requires
        axes_fit(a, shape),
        a.len() == b.len(),
        forall|i: int| 0 <= i < a.len() ==> #[trigger] b[i]@ == a[i]@,
    ensures
        axes_fit(b, shape),
{
    assert forall|i: int| 0 <= i < b.len() implies #[trigger] coords_fit(b[i], shape[i]) by {
        assert(b[i]@ == a[i]@);
        assert(coords_fit(a[i], shape[i]));
        if let Some(c) = b[i].coords {
            assert(coords_view(b[i].coords) == coords_view(a[i].coords));
            assert(c@.1.len() == c.len_s());
        }
    }
}

/// Labels `dim_0`, `dim_1`, ... for `n` axes.
pub open spec fn auto_name(i: int) -> Seq<char> {
    "dim_"@ + decimal(i as nat)
}

impl<T: Copy> XArray<T> {
    /// Named dimensions, no coordinates. One name per dimension.
    pub fn new(data: NdArray<T>, dim_names: &[&str]) -> (out: Self)
        requires
            data.wf(),
            dim_names@.len() == data.dims.shape@.len(),
        ensures
            out.wf(),
            out.data == NdArrayE::Owned(data),
            out.axes@.len() == dim_names@.len(),
            forall|i: int| 0 <= i < dim_names@.len() ==> #[trigger] out.axes@[i]@ == (dim_names@[i]@, None::<CoordsView>),
    {
        let mut axes: Vec<Axis> = Vec::new();
        let mut i: usize = 0;
        while i < dim_names.len()
            invariant
                i <= dim_names@.len(),
                axes@.len() == i,
                forall|k: int| 0 <= k < i ==> #[trigger] axes@[k]@ == (dim_names@[k]@, None::<CoordsView>),
            decreases dim_names@.len() - i,
        {
            axes.push(Axis::named(dim_names[i]));
            i = i + 1;
        }
        let out = XArray { data: NdArrayE::Owned(data), axes };
        proof {
            assert forall|k: int| 0 <= k < out.axes@.len() implies #[trigger] coords_fit(out.axes@[k], out.shape_s()[k]) by {
                assert(out.axes@[k]@.1 is None);
            }
        }
        out
    }

    /// Fully specified axes: one per dimension, each with as many labels
    /// as its dimension has positions.
    pub fn with_axes(data: NdArray<T>, axes: Vec<Axis>) -> (out: Self)
        requires
            data.wf(),
            axes@.len() == data.dims.shape@.len(),
            forall|i: int| 0 <= i < axes@.len() ==> #[trigger] coords_fit(axes@[i], data.shape_s()[i]),
        ensures
            out.wf(),
            out.data == NdArrayE::Owned(data),
            out.axes == axes,
    {
        XArray { data: NdArrayE::Owned(data), axes }
    }

    /// Axes named `dim_0`, `dim_1`, ... in order.
    pub fn from_ndarray(data: NdArray<T>) -> (out: Self)
        requires
            data.wf(),
        ensures
            out.wf(),
            out.data == NdArrayE::Owned(data),
            out.axes@.len() == data.dims.shape@.len(),
            forall|i: int| 0 <= i < out.axes@.len() ==> #[trigger] out.axes@[i]@ == (auto_name(i), None::<CoordsView>),
    {
        let n = data.ndim();
        let mut axes: Vec<Axis> = Vec::new();
        let mut i: usize = 0;
        proof {
            reveal_strlit("dim_");
        }
        while i < n
            invariant
                i <= n,
                axes@.len() == i,
                forall|k: int| 0 <= k < i ==> #[trigger] axes@[k]@ == (auto_name(k), None::<CoordsView>),
            decreases n - i,
        {
            let mut name = String::from_str("dim_");
            let digits = usize_text(i);
            name.append(digits.as_str());
            axes.push(Axis { name, coords: None });
            i = i + 1;
        }
        let out = XArray { data: NdArrayE::Owned(data), axes };
        proof {
            assert forall|k: int| 0 <= k < out.axes@.len() implies #[trigger] coords_fit(out.axes@[k], out.shape_s()[k]) by {
                assert(out.axes@[k]@.1 is None);
            }
        }
        out
    }

    /// Labelled view: one axis per view dimension, each with as many labels
    /// as its dimension has positions. The view is moved in, not copied.
    pub fn from_view(view: NdArrayV<T>, axes: Vec<Axis>) -> (out: Self)
        requires
            view.wf(),
            axes@.len() == view.dims.shape@.len(),
            forall|i: int| 0 <= i < axes@.len() ==> #[trigger] coords_fit(axes@[i], view.shape_s()[i]),
        ensures
            out.wf(),
            out.data == NdArrayE::View(view),
            out.axes == axes,
    {
        XArray { data: NdArrayE::View(view), axes }
    }

    /// Position of the first axis named `name`.
    pub fn try_dim(&self, name: &str) -> (r: Option<usize>)
        ensures
            r matches Some(p) ==> is_first(self.names(), name@, p as int) && p == pos_of(self.names(), name@),
            r is None <==> !has_name(self.names(), name@),
    {
        let mut i: usize = 0;
        while i < self.axes.len()
            invariant
                i <= self.axes@.len(),
                forall|q: int| 0 <= q < i ==> #[trigger] self.names()[q] != name@,
            decreases self.axes@.len() - i,
        {
            if str_eq(self.axes[i].name.as_str(), name) {
                proof {
                    assert(self.names()[i as int] == name@);
                    assert(is_first(self.names(), name@, i as int));
                    lemma_pos_of(self.names(), name@);
                    lemma_first_unique(self.names(), name@, i as int, pos_of(self.names(), name@));
                }
                return Some(i);
            }
            i = i + 1;
        }
        proof {
            if has_name(self.names(), name@) {
                let p = choose|p: int| 0 <= p < self.names().len() && self.names()[p] == name@;
                assert(self.names()[p] != name@);
            }
        }
        None
    }

    /// Position of the first axis named `name`, which must exist.
    pub fn dim(&self, name: &str) -> (p: usize)
        requires
            has_name(self.names(), name@),
        ensures
            is_first(self.names(), name@, p as int),
            p == pos_of(self.names(), name@),
    {
        self.try_dim(name).unwrap()
    }

    /// The first axis named `name`.
    pub fn try_ax(&self, name: &str) -> (r: Option<&Axis>)
        ensures
            r matches Some(a) ==> *a == self.axes@[pos_of(self.names(), name@)] && is_first(
                self.names(),
                name@,
                pos_of(self.names(), name@),
            ),
            r is None <==> !has_name(self.names(), name@),
    {
        match self.try_dim(name) {
            Some(p) => Some(&self.axes[p]),
            None => None,
        }
    }

    /// The first axis named `name`, which must exist.
    pub fn ax(&self, name: &str) -> (a: &Axis)
        requires
            has_name(self.names(), name@),
        ensures
            *a == self.axes@[pos_of(self.names(), name@)],
            is_first(self.names(), name@, pos_of(self.names(), name@)),
    {
        let p = self.dim(name);
        &self.axes[p]
    }

    /// All axes.
    pub fn axes(&self) -> (a: &[Axis])
        ensures
            a@ == self.axes@,
    {
        self.axes.as_slice()
    }

    /// The axis names, in order.
    pub fn dim_names(&self) -> (out: Vec<&str>)
        ensures
            out@.len() == self.axes@.len(),
            forall|i: int| 0 <= i < out@.len() ==> #[trigger] out@[i]@ == self.names()[i],
    {
        let mut out: Vec<&str> = Vec::new();
        let mut i: usize = 0;
        while i < self.axes.len()
            invariant
                i <= self.axes@.len(),
                out@.len() == i,
                forall|k: int| 0 <= k < i ==> #[trigger] out@[k]@ == self.names()[k],
            decreases self.axes@.len() - i,
        {
            out.push(self.axes[i].name.as_str());
            i = i + 1;
        }
        out
    }

    /// The storage as an owned array, materialising a view.
    pub fn into_ndarray(self) -> (out: NdArray<T>)
        requires
            self.wf(),
        ensures
            out.wf(),
            out.dims.shape@ == self.data.shape_u(),
            out.values() == self.values(),
            self.data matches NdArrayE::Owned(a) ==> out == a,
    {
        match self.data {
            NdArrayE::Owned(a) => a,
            NdArrayE::View(v) => v.to_ndarray(),
        }
    }

    /// An owned copy: the same array when already owned, the materialised
    /// view otherwise, with the same axes.
    pub fn to_owned(&self) -> (out: XArray<T>)
        requires
            self.wf(),
        ensures
            out.wf(),
            out.data is Owned,
            out.data.shape_u() == self.data.shape_u(),
            out.values() == self.values(),
            out.axes_v() == self.axes_v(),
            self.data is Owned ==> out.data.same(&self.data),
    {
        let axes = clone_axes(&self.axes);
        let data = match &self.data {
            NdArrayE::Owned(a) => NdArrayE::Owned(a.duplicate()),
            NdArrayE::View(v) => NdArrayE::Owned(v.to_ndarray()),
        };
        let out = XArray { data, axes };
        proof {
            lemma_fit_by_view(self.axes@, out.axes@, self.shape_s());
        }
        out
    }

    /// The storage as a view, whether owned or already a view.
    pub fn as_view(&self) -> (v: NdArrayV<T>)
        requires
            self.wf(),
        ensures
            v.wf(),
            v.dims.shape@ == self.data.shape_u(),
            v.values() == self.values(),
            forall|idx: Seq<int>| in_bounds(idx, self.shape_s()) ==> #[trigger] v.elem(idx) == self.elem(idx),
    {
        match &self.data {
            NdArrayE::Owned(a) => a.as_view(),
            NdArrayE::View(v) => v.clone(),
        }
    }

    /// The underlying storage, owned or view.
    pub(crate) fn storage(&self) -> (st: &NdArrayE<T>)
        ensures
            *st == self.data,
    {
        &self.data
    }

    /// True when the storage is an owned array.
    pub fn is_owned(&self) -> (b: bool)
        ensures
            b == self.data is Owned,
    {
        match &self.data {
            NdArrayE::Owned(_) => true,
            NdArrayE::View(_) => false,
        }
    }

    pub fn ndim(&self) -> (n: usize)
        ensures
            n == self.data.shape_u().len(),
    {
        match &self.data {
            NdArrayE::Owned(a) => a.ndim(),
            NdArrayE::View(v) => v.ndim(),
        }
    }

    pub fn shape(&self) -> (s: Vec<usize>)
        ensures
            s@ == self.data.shape_u(),
    {
        match &self.data {
            NdArrayE::Owned(a) => vstd::slice::slice_to_vec(a.shape()),
            NdArrayE::View(v) => vstd::slice::slice_to_vec(v.shape()),
        }
    }

    pub fn strides(&self) -> (s: &[usize])
        ensures
            s@ == self.data.strides_u(),
    {
        match &self.data {
            NdArrayE::Owned(a) => a.strides(),
            NdArrayE::View(v) => v.strides(),
        }
    }

    /// Number of logical elements.
    pub fn len(&self) -> (n: usize)
        requires
            self.wf(),
        ensures
            n == prod(self.shape_s()),
            n == self.values().len(),
    {
        match &self.data {
            NdArrayE::Owned(a) => a.len(),
            NdArrayE::View(v) => v.len(),
        }
    }

    pub fn is_empty(&self) -> (b: bool)
        requires
            self.wf(),
        ensures
            b == (prod(self.shape_s()) == 0),
    {
        self.len() == 0
    }

    /// View of one axis-0 observation (see the module documentation for
    /// when the storage is copied). Rank 2 or higher.
    pub fn obs(&self, idx: usize) -> (v: NdArrayV<T>)
        requires
            self.wf(),
            self.data.shape_u().len() >= 2,
            idx < self.data.shape_u()[0],
            self.data.base() + idx * self.data.strides_u()[0] <= usize::MAX,
        ensures
            v.wf(),
            v.dims.shape@ == self.data.shape_u().drop_first(),
            forall|j: Seq<int>| in_bounds(j, v.shape_s()) ==> #[trigger] v.elem(j) == self.elem(seq![idx as int] + j),
    {
        match &self.data {
            NdArrayE::Owned(a) => a.obs(idx),
            NdArrayE::View(v) => v.obs(idx),
        }
    }

    /// Row count as `i32` for BLAS. 2D only.
    pub fn m(&self) -> (m: i32)
        requires
            self.wf(),
            self.data.shape_u().len() == 2,
        ensures
            m == self.data.shape_u()[0] as i32,
    {
        match &self.data {
            NdArrayE::Owned(a) => a.m(),
            NdArrayE::View(v) => v.m(),
        }
    }

    /// Column count as `i32` for BLAS. 2D only.
    pub fn n(&self) -> (n: i32)
        requires
            self.wf(),
            self.data.shape_u().len() == 2,
        ensures
            n == self.data.shape_u()[1] as i32,
    {
        match &self.data {
            NdArrayE::Owned(a) => a.n(),
            NdArrayE::View(v) => v.n(),
        }
    }

    /// Leading dimension for BLAS: the column stride. 2D only.
    pub fn lda(&self) -> (lda: i32)
        requires
            self.wf(),
            self.data.shape_u().len() == 2,
        ensures
            lda == self.data.strides_u()[1] as i32,
    {
        match &self.data {
            NdArrayE::Owned(a) => a.lda(),
            NdArrayE::View(v) => v.lda(),
        }
    }

    /// The element at an N-dimensional index.
    pub fn get(&self, indices: &[usize]) -> (v: T)
        requires
            self.wf(),
            in_bounds(ints(indices@), self.shape_s()),
        ensures
            v == self.elem(ints(indices@)),
    {
        match &self.data {
            NdArrayE::Owned(a) => a.get(indices),
            NdArrayE::View(v) => v.get(indices),
        }
    }

    /// Overwrite the element at an N-dimensional index. Only owned storage
    /// can be written.
    pub fn set(&mut self, indices: &[usize], value: T)
        requires
            old(self).wf(),
            old(self).data is Owned,
            in_bounds(ints(indices@), old(self).shape_s()),
        ensures
            final(self).wf(),
            final(self).axes == old(self).axes,
            final(self).data is Owned,
            final(self).data.shape_u() == old(self).data.shape_u(),
            final(self).data.strides_u() == old(self).data.strides_u(),
            final(self).data->Owned_0.data@ == old(self).data->Owned_0.data@.update(
                dot(ints(indices@), old(self).strides_s()),
                value,
            ),
            final(self).data->Owned_0.name == old(self).data->Owned_0.name,
    {
        match &mut self.data {
            NdArrayE::Owned(a) => a.set(indices, value),
            NdArrayE::View(_) => {},
        }
    }

    /// A new owned labelled array with `f` applied to every logical element
    /// and the same axes.
    pub fn apply<F: Fn(T) -> T>(&self, f: F) -> (out: XArray<T>)
        requires
            self.wf(),
            forall|x: T| #[trigger] f.requires((x,)),
        ensures
            out.wf(),
            out.data is Owned,
            out.data.shape_u() == self.data.shape_u(),
            out.axes_v() == self.axes_v(),
            out.values().len() == self.values().len(),
            forall|k: int| 0 <= k < self.values().len() ==> #[trigger] f.ensures((self.values()[k],), out.values()[k]),
    {
        let data = match &self.data {
            NdArrayE::Owned(a) => NdArrayE::Owned(a.apply(f)),
            NdArrayE::View(v) => NdArrayE::Owned(v.apply(f)),
        };
        let out = XArray { data, axes: clone_axes(&self.axes) };
        proof {
            lemma_fit_by_view(self.axes@, out.axes@, self.shape_s());
        }
        out
    }

    /// Apply `f` to every logical element in place. Only owned storage can
    /// be written.
    pub fn apply_mut<F: Fn(T) -> T>(&mut self, f: F)
        requires
            old(self).wf(),
            old(self).data is Owned,
            forall|x: T| #[trigger] f.requires((x,)),
        ensures
            final(self).wf(),
            final(self).axes == old(self).axes,
            final(self).data is Owned,
            final(self).data->Owned_0.dims == old(self).data->Owned_0.dims,
            final(self).data->Owned_0.data@.len() == old(self).data->Owned_0.data@.len(),
            old(self).data->Owned_0.distinct_offsets() ==> forall|k: int|
                0 <= k < prod(old(self).shape_s()) ==> #[trigger] f.ensures(
                    (old(self).data->Owned_0.data@[old(self).data->Owned_0.offset_at(k)],),
                    final(self).data->Owned_0.data@[old(self).data->Owned_0.offset_at(k)],
                ),
    {
        match &mut self.data {
            NdArrayE::Owned(a) => a.apply_mut(f),
            NdArrayE::View(_) => {},
        }
    }

    /// Rename the first axis named `old_name`.
    pub fn rename_dim(&mut self, old_name: &str, new_name: &str)
        requires
            has_name(old(self).names(), old_name@),
        ensures
            old(self).wf() ==> final(self).wf(),
            final(self).data == old(self).data,
            final(self).axes@.len() == old(self).axes@.len(),
            final(self).axes_v() == old(self).axes_v().update(
                pos_of(old(self).names(), old_name@),
                (new_name@, old(self).axes_v()[pos_of(old(self).names(), old_name@)].1),
            ),
    {
        let idx = self.dim(old_name);
        let coords = copy_coords(&self.axes[idx].coords);
        let ghost before = self.axes@;
        self.axes.set(idx, Axis { name: new_name.to_string(), coords });
        proof {
            assert(self.axes_v() =~= old(self).axes_v().update(
                idx as int,
                (new_name@, old(self).axes_v()[idx as int].1),
            ));
            lemma_replace_fit(before, self.axes@, self.shape_s(), idx as int);
        }
    }

    /// Assign or replace the coordinates of the first axis named
    /// `dim_name`; they must number that dimension's positions.
    pub fn assign_coords(&mut self, dim_name: &str, coords: Coords)
        requires
            old(self).wf(),
            has_name(old(self).names(), dim_name@),
            coords.len_s() == old(self).shape_s()[pos_of(old(self).names(), dim_name@)],
        ensures
            final(self).wf(),
            final(self).data == old(self).data,
            final(self).axes@.len() == old(self).axes@.len(),
            final(self).axes_v() == old(self).axes_v().update(
                pos_of(old(self).names(), dim_name@),
                (dim_name@, Some(coords@)),
            ),
    {
        let idx = self.dim(dim_name);
        let name = self.axes[idx].name.clone();
        let ghost before = self.axes@;
        self.axes.set(idx, Axis { name, coords: Some(coords) });
        proof {
            assert(self.axes_v() =~= old(self).axes_v().update(idx as int, (dim_name@, Some(coords@))));
            assert(coords_fit(self.axes@[idx as int], self.shape_s()[idx as int]));
            assert forall|i: int| 0 <= i < self.axes@.len() implies #[trigger] coords_fit(self.axes@[i], self.shape_s()[i]) by {
                if i != idx {
                    assert(self.axes@[i] == before[i]);
                    assert(coords_fit(before[i], self.shape_s()[i]));
                }
            }
        }
    }

    /// Remove the coordinates of the first axis named `dim_name`.
    pub fn drop_coords(&mut self, dim_name: &str)
        requires
            has_name(old(self).names(), dim_name@),
        ensures
            old(self).wf() ==> final(self).wf(),
            final(self).data == old(self).data,
            final(self).axes@.len() == old(self).axes@.len(),
            final(self).axes_v() == old(self).axes_v().update(
                pos_of(old(self).names(), dim_name@),
                (dim_name@, None::<CoordsView>),
            ),
    {
        let idx = self.dim(dim_name);
        let name = self.axes[idx].name.clone();
        let ghost before = self.axes@;
        self.axes.set(idx, Axis { name, coords: None });
        proof {
            assert(self.axes_v() =~= old(self).axes_v().update(idx as int, (dim_name@, None::<CoordsView>)));
            if old(self).wf() {
                assert forall|i: int| 0 <= i < self.axes@.len() implies #[trigger] coords_fit(
                    self.axes@[i],
                    self.shape_s()[i],
                ) by {
                    if i != idx {
                        assert(self.axes@[i] == before[i]);
                        assert(coords_fit(before[i], self.shape_s()[i]));
                    }
                }
            }
        }
    }
}

/// A copy of optional coordinates.
pub fn copy_coords(c: &Option<Coords>) -> (out: Option<Coords>)
    ensures
        coords_view(out) == coords_view(*c),
{
    match c {
        Some(x) => Some(x.clone()),
        None => None,
    }
}

/// Replacing one axis by one with the same labels keeps the fit.
proof fn lemma_replace_fit(a: Seq<Axis>, b: Seq<Axis>, shape: Seq<int>, i: int)
    requires
        axes_fit(a, shape) || !axes_fit(a, shape),
        a.len() == b.len(),
        0 <= i < a.len(),
        b[i]@.1 == a[i]@.1,
        forall|k: int| 0 <= k < a.len() && k != i ==> #[trigger] b[k] == a[k],
    ensures
        axes_fit(a, shape) ==> axes_fit(b, shape),
{
    if axes_fit(a, shape) {
        assert forall|k: int| 0 <= k < b.len() implies #[trigger] coords_fit(b[k], shape[k]) by {
            assert(coords_fit(a[k], shape[k]));
            if k == i {
                if let Some(c) = b[k].coords {
                    let d = a[k].coords->0;
                    assert(c@.1.len() == d@.1.len());
                }
            }
        }
    }
}
/// Full ranges on every axis.
pub open spec fn full_ranges(shape: Seq<usize>) -> Seq<AxisSel> {
    Seq::new(shape.len(), |i: int| AxisSel::Range(0usize, shape[i]))
}

/// A selection addresses positions inside an axis of extent `n`.
pub open spec fn sel_fits(s: AxisSel, n: int) -> bool {
    match s {
        AxisSel::Index(i) => i < n,
        AxisSel::Range(a, b) => a <= b && b <= n,
    }
}

/// Named selections applied in order to `base`: each replaces the
/// selection on the first axis with its name; later ones win.
pub open spec fn applied(base: Seq<AxisSel>, names: Seq<Seq<char>>, selection: Seq<(&str, AxisSel)>) -> Seq<
    AxisSel,
>
    decreases selection.len(),
{
    if selection.len() == 0 {
        base
    } else {
        applied(base, names, selection.drop_last()).update(
            pos_of(names, selection.last().0@),
            selection.last().1,
        )
    }
}

/// Axes kept by a selection, each narrowed to its selected range; axes
/// selected by a single index are dropped.
pub open spec fn kept_axes(axes: Seq<AxisView>, sels: Seq<AxisSel>) -> Seq<AxisView>
    decreases sels.len(),
{
    if sels.len() == 0 {
        Seq::empty()
    } else {
        match sels[0] {
            AxisSel::Index(_) => kept_axes(axes.drop_first(), sels.drop_first()),
            AxisSel::Range(a, b) => seq![narrow_axis(axes[0], a as int, b as int)] + kept_axes(
                axes.drop_first(),
                sels.drop_first(),
            ),
        }
    }
}

/// Kept axes fit the kept extents.
pub proof fn lemma_kept_fit(av: Seq<AxisView>, sels: Seq<AxisSel>, shape: Seq<int>)
    requires
        av.len() == sels.len(),
        sel_valid(sels, shape),
        forall|i: int| 0 <= i < av.len() ==> #[trigger] view_fits(av[i], shape[i]),
    ensures
        kept_axes(av, sels).len() == kept_shape(sels).len(),
        forall|k: int| 0 <= k < kept_axes(av, sels).len() ==> #[trigger] view_fits(kept_axes(av, sels)[k], kept_shape(sels)[k]),
    decreases sels.len(),
{
    if sels.len() > 0 {
        lemma_sel_rest(sels, shape);
        let rest = av.drop_first();
        assert forall|i: int| 0 <= i < rest.len() implies #[trigger] view_fits(rest[i], shape.drop_first()[i]) by {
            assert(view_fits(av[i + 1], shape[i + 1]));
        }
        lemma_kept_fit(rest, sels.drop_first(), shape.drop_first());
        assert(view_fits(av[0], shape[0]));
        assert(match sels[0] {
            AxisSel::Index(i) => i < shape[0],
            AxisSel::Range(a, b) => a <= b && b <= shape[0],
        });
        let ka = kept_axes(av, sels);
        let ks = kept_shape(sels);
        if let AxisSel::Range(a, b) = sels[0] {
            assert forall|k: int| 0 <= k < ka.len() implies #[trigger] view_fits(ka[k], ks[k]) by {
                if k > 0 {
                    assert(ka[k] == kept_axes(rest, sels.drop_first())[k - 1]);
                    assert(ks[k] == kept_shape(sels.drop_first())[k - 1]);
                }
            }
        }
    }
}

/// Every applied selection is valid when the base and each named
/// selection are.
proof fn lemma_applied_valid(
    base: Seq<AxisSel>,
    names: Seq<Seq<char>>,
    selection: Seq<(&str, AxisSel)>,
    shape: Seq<int>,
)
    requires
        sel_valid(base, shape),
        names.len() <= shape.len(),
        forall|k: int|
            0 <= k < selection.len() ==> has_name(names, (#[trigger] selection[k]).0@) && sel_fits(
                selection[k].1,
                shape[pos_of(names, selection[k].0@)],
            ),
    ensures
        sel_valid(applied(base, names, selection), shape),
    decreases selection.len(),
{
    if selection.len() > 0 {
        let prev = selection.drop_last();
        assert forall|k: int| 0 <= k < prev.len() implies has_name(names, (#[trigger] prev[k]).0@) && sel_fits(
            prev[k].1,
            shape[pos_of(names, prev[k].0@)],
        ) by {
            assert(prev[k] == selection[k]);
        }
        lemma_applied_valid(base, names, prev, shape);
        let last = selection.last();
        assert(selection[selection.len() - 1] == last);
        lemma_pos_of(names, last.0@);
        let p = pos_of(names, last.0@);
        let r = applied(base, names, selection);
        let q = applied(base, names, prev);
        assert forall|d: int| 0 <= d < r.len() implies match #[trigger] r[d] {
            AxisSel::Index(i) => i < shape[d],
            AxisSel::Range(a, b) => a <= b && b <= shape[d],
        } by {
            if d == p {
                assert(r[d] == last.1);
            } else {
                assert(r[d] == q[d]);
                assert(match q[d] {
                    AxisSel::Index(i) => i < shape[d],
                    AxisSel::Range(a, b) => a <= b && b <= shape[d],
                });
            }
        }
    }
}

/// Full ranges on every axis.
pub fn full_sels(shape: &[usize]) -> (out: Vec<AxisSel>)
    ensures
        out@ == full_ranges(shape@),
        sel_valid(out@, ints(shape@)),
{
    let mut out: Vec<AxisSel> = Vec::new();
    let mut i: usize = 0;
    while i < shape.len()
        invariant
            i <= shape@.len(),
            out@.len() == i,
            forall|k: int| 0 <= k < i ==> #[trigger] out@[k] == AxisSel::Range(0usize, shape@[k]),
        decreases shape@.len() - i,
    {
        out.push(AxisSel::Range(0, shape[i]));
        i = i + 1;
    }
    assert(out@ =~= full_ranges(shape@));
    out
}

/// The kept axes of a selection, each narrowed to its range.
fn carry_axes(axes: &Vec<Axis>, sels: &Vec<AxisSel>, shape: Ghost<Seq<int>>) -> (out: Vec<Axis>)
    requires
        axes@.len() == sels@.len(),
        sel_valid(sels@, shape@),
        forall|i: int| 0 <= i < axes@.len() ==> #[trigger] coords_fit(axes@[i], shape@[i]),
    ensures
        out@.map_values(|a: Axis| a@) == kept_axes(axes@.map_values(|a: Axis| a@), sels@),
{
    let ghost av = axes@.map_values(|a: Axis| a@);
    let mut out: Vec<Axis> = Vec::new();
    let mut d: usize = 0;
    assert(av.skip(0) =~= av);
    assert(sels@.skip(0) =~= sels@);
    while d < sels.len()
        invariant
            axes@.len() == sels@.len(),
            av == axes@.map_values(|a: Axis| a@),
            sel_valid(sels@, shape@),
            forall|i: int| 0 <= i < axes@.len() ==> #[trigger] coords_fit(axes@[i], shape@[i]),
            d <= sels@.len(),
            out@.map_values(|a: Axis| a@) + kept_axes(av.skip(d as int), sels@.skip(d as int)) == kept_axes(
                av,
                sels@,
            ),
        decreases sels@.len() - d,
    {
        let ghost before = out@.map_values(|a: Axis| a@);
        assert(av.skip(d as int).drop_first() =~= av.skip(d as int + 1));
        assert(sels@.skip(d as int).drop_first() =~= sels@.skip(d as int + 1));
        assert(sels@.skip(d as int)[0] == sels@[d as int]);
        assert(av.skip(d as int)[0] == axes@[d as int]@);
        match sels[d] {
            AxisSel::Index(_) => {},
            AxisSel::Range(a, b) => {
                assert(match sels@[d as int] {
                    AxisSel::Index(i) => i < shape@[d as int],
                    AxisSel::Range(x, y) => x <= y && y <= shape@[d as int],
                });
                assert(coords_fit(axes@[d as int], shape@[d as int]));
                proof {
                    if let Some(c) = axes@[d as int].coords {
                        assert(c@.1.len() == c.len_s());
                    }
                }
                let ax = axes[d].narrowed(a, b);
                out.push(ax);
                assert(out@.map_values(|a: Axis| a@) =~= before.push(ax@));
                assert(before.push(ax@) + kept_axes(av.skip(d as int + 1), sels@.skip(d as int + 1)) =~= before
                    + kept_axes(av.skip(d as int), sels@.skip(d as int)));
            },
        }
        d = d + 1;
    }
    assert(av.skip(sels@.len() as int) =~= Seq::<AxisView>::empty());
    assert(sels@.skip(sels@.len() as int) =~= Seq::<AxisSel>::empty());
    assert(out@.map_values(|a: Axis| a@) =~= kept_axes(av, sels@));
    out
}

impl Axis {
    /// Position of the first coordinate equal to `value`. Text coordinates
    /// match by string equality, integer and datetime coordinates by value
    /// in their own integer domain.
    pub(crate) fn try_coord_pos(&self, value: &Scalar) -> (r: Result<usize, MinarrowError>)
        ensures
            r matches Ok(p) ==> self.coords matches Some(c) && p < c.len_s() && c.matches_at(p as int, value)
                && forall|q: int| 0 <= q < p ==> !#[trigger] c.matches_at(q, value),
            r is Ok <==> (self.coords matches Some(c) && exists|q: int|
                0 <= q < c.len_s() && #[trigger] c.matches_at(q, value)),
            self.coords is None ==> (r matches Err(MinarrowError::ShapeError { message }) && message@ == axis_text(
                "axis "@,
                self.name@,
                " has no coordinates for value lookup"@,
            )),
            (self.coords matches Some(c) && c is Text && !(value is Str)) ==> (r matches Err(
                MinarrowError::TypeError { from, to, message: Some(m) },
            ) && from@ == "scalar"@ && to@ == "string"@ && m@ == axis_text("axis "@, self.name@, " holds text coordinates"@)),
            (self.coords matches Some(c) && c is Datetime64 && value.as_i64() is None) ==> (r matches Err(
                MinarrowError::TypeError { from, to, message: Some(m) },
            ) && from@ == "scalar"@ && to@ == "datetime ticks"@ && m@ == axis_text(
                "axis "@,
                self.name@,
                " holds datetime coordinates"@,
            )),
            (self.coords matches Some(c) && !((c is Text && !(value is Str)) || (c is Datetime64
                && value.as_i64() is None))) ==> (r is Ok || (r matches Err(MinarrowError::IndexError(m)) && m@
                == axis_text("value not found on axis "@, self.name@, ""@))),
    {
        let c = match &self.coords {
            Some(c) => c,
            None => {
                return Err(
                    MinarrowError::ShapeError {
                        message: axis_message("axis ", self.name.as_str(), " has no coordinates for value lookup"),
                    },
                );
            },
        };
        if let Coords::Text(_) = c {
            if value.try_str().is_none() {
                return Err(
                    MinarrowError::TypeError {
                        from: String::from_str("scalar"),
                        to: String::from_str("string"),
                        message: Some(axis_message("axis ", self.name.as_str(), " holds text coordinates")),
                    },
                );
            }
        }
        if let Coords::Datetime64(_) = c {
            if value.try_i64().is_none() {
                return Err(
                    MinarrowError::TypeError {
                        from: String::from_str("scalar"),
                        to: String::from_str("datetime ticks"),
                        message: Some(axis_message("axis ", self.name.as_str(), " holds datetime coordinates")),
                    },
                );
            }
        }
        match c.find_pos(value) {
            Some(p) => Ok(p),
            None => Err(
                MinarrowError::IndexError(axis_message("value not found on axis ", self.name.as_str(), "")),
            ),
        }
    }

    /// Start and end positions of the coordinates inside the inclusive
    /// bounds `[low, high]`. Text compares lexicographically, integer and
    /// datetime coordinates by value. Refused when no coordinate is inside,
    /// or when those inside do not form one contiguous run.
    pub(crate) fn try_coord_range(&self, low: &Scalar, high: &Scalar) -> (r: Result<(usize, usize), MinarrowError>)
        ensures
            r matches Ok((s, e)) ==> self.coords matches Some(c) && c.is_window(s as int, e as int, low, high),
            r is Ok <==> (self.coords matches Some(c) && exists|s: int, e: int| #[trigger] c.is_window(s, e, low, high)),
            self.coords is None ==> (r matches Err(MinarrowError::ShapeError { message }) && message@ == axis_text(
                "axis "@,
                self.name@,
                " has no coordinates for range lookup"@,
            )),
            (self.coords matches Some(c) && c is Text && !(low is Str && high is Str)) ==> (r matches Err(
                MinarrowError::TypeError { from, to, message: Some(m) },
            ) && from@ == "scalar"@ && to@ == "string"@ && m@ == axis_text("axis "@, self.name@, " holds text coordinates"@)),
            (self.coords matches Some(c) && c is Datetime64 && (low.as_i64() is None || high.as_i64() is None)) ==> (r matches Err(
                MinarrowError::TypeError { from, to, message: Some(m) },
            ) && from@ == "scalar"@ && to@ == "datetime ticks"@ && m@ == axis_text(
                "axis "@,
                self.name@,
                " holds datetime coordinates"@,
            )),
            (self.coords matches Some(c) && !((c is Text && !(low is Str && high is Str)) || (c is Datetime64 && (
            low.as_i64() is None || high.as_i64() is None))) && !(exists|i: int|
                0 <= i < c.len_s() && #[trigger] c.in_window(i, low, high))) ==> (r matches Err(
                MinarrowError::IndexError(m),
            ) && m@ == axis_text("no values in the bounds on axis "@, self.name@, ""@)),
            (self.coords matches Some(c) && !((c is Text && !(low is Str && high is Str)) || (c is Datetime64 && (
            low.as_i64() is None || high.as_i64() is None))) && (exists|i: int|
                0 <= i < c.len_s() && #[trigger] c.in_window(i, low, high))) ==> (r is Ok || (r matches Err(
                MinarrowError::IndexError(m),
            ) && m@ == axis_text(
                "coordinates on axis "@,
                self.name@,
                " are not monotonic over the bounds, sort the axis or gather by position instead"@,
            ))),
    {
        let c = match &self.coords {
            Some(c) => c,
            None => {
                return Err(
                    MinarrowError::ShapeError {
                        message: axis_message("axis ", self.name.as_str(), " has no coordinates for range lookup"),
                    },
                );
            },
        };
        if let Coords::Text(_) = c {
            if low.try_str().is_none() || high.try_str().is_none() {
                proof {
                    assert forall|s: int, e: int| !#[trigger] c.is_window(s, e, low, high) by {
                        if c.is_window(s, e, low, high) {
                            assert(c.in_window(s, low, high));
                        }
                    }
                }
                return Err(
                    MinarrowError::TypeError {
                        from: String::from_str("scalar"),
                        to: String::from_str("string"),
                        message: Some(axis_message("axis ", self.name.as_str(), " holds text coordinates")),
                    },
                );
            }
        }
        if let Coords::Datetime64(_) = c {
            if low.try_i64().is_none() || high.try_i64().is_none() {
                proof {
                    assert forall|s: int, e: int| !#[trigger] c.is_window(s, e, low, high) by {
                        if c.is_window(s, e, low, high) {
                            assert(c.in_window(s, low, high));
                        }
                    }
                }
                return Err(
                    MinarrowError::TypeError {
                        from: String::from_str("scalar"),
                        to: String::from_str("datetime ticks"),
                        message: Some(axis_message("axis ", self.name.as_str(), " holds datetime coordinates")),
                    },
                );
            }
        }
        if !c.any_in_window(low, high) {
            proof {
                assert forall|s: int, e: int| !#[trigger] c.is_window(s, e, low, high) by {
                    if c.is_window(s, e, low, high) {
                        assert(c.in_window(s, low, high));
                    }
                }
            }
            return Err(
                MinarrowError::IndexError(axis_message("no values in the bounds on axis ", self.name.as_str(), "")),
            );
        }
        match c.range_window(low, high) {
            Some(w) => Ok(w),
            None => Err(
                MinarrowError::IndexError(
                    axis_message(
                        "coordinates on axis ",
                        self.name.as_str(),
                        " are not monotonic over the bounds, sort the axis or gather by position instead",
                    ),
                ),
            ),
        }
    }

    /// Position of the integer or datetime coordinate closest to `value`;
    /// ties resolve to the earliest position. Text has no distance and is
    /// refused.
    pub(crate) fn try_coord_nearest(&self, value: &Scalar) -> (r: Result<usize, MinarrowError>)
        ensures
            r matches Ok(p) ==> self.coords matches Some(c) && !(c is Text) && (c.int_target(value) matches Some(t)
                && c.nearest_at(p as int, t)),
            r is Ok <==> (self.coords matches Some(c) && !(c is Text) && c.int_target(value) is Some && c.len_s()
                > 0),
            self.coords is None ==> (r matches Err(MinarrowError::ShapeError { message }) && message@ == axis_text(
                "axis "@,
                self.name@,
                " has no coordinates for nearest lookup"@,
            )),
            (self.coords matches Some(c) && c is Text) ==> (r matches Err(
                MinarrowError::TypeError { from, to, message: Some(m) },
            ) && from@ == "text"@ && to@ == "numeric"@ && m@ == axis_text(
                "axis "@,
                self.name@,
                " holds text coordinates with no distance metric - use at"@,
            )),
            (self.coords matches Some(c) && c is Datetime64 && value.as_i64() is None) ==> (r matches Err(
                MinarrowError::TypeError { from, to, message: Some(m) },
            ) && from@ == "scalar"@ && to@ == "datetime ticks"@ && m@ == axis_text(
                "axis "@,
                self.name@,
                " holds datetime coordinates"@,
            )),
            (self.coords matches Some(c) && !(c is Text || (c is Datetime64 && value.as_i64() is None))) ==> (r is Ok
                || (r matches Err(MinarrowError::IndexError(m)) && m@ == axis_text(
                "axis "@,
                self.name@,
                " has no comparable coordinates"@,
            ))),
    {
        let c = match &self.coords {
            Some(c) => c,
            None => {
                return Err(
                    MinarrowError::ShapeError {
                        message: axis_message("axis ", self.name.as_str(), " has no coordinates for nearest lookup"),
                    },
                );
            },
        };
        if let Coords::Text(_) = c {
            return Err(
                MinarrowError::TypeError {
                    from: String::from_str("text"),
                    to: String::from_str("numeric"),
                    message: Some(
                        axis_message(
                            "axis ",
                            self.name.as_str(),
                            " holds text coordinates with no distance metric - use at",
                        ),
                    ),
                },
            );
        }
        if let Coords::Datetime64(_) = c {
            if value.try_i64().is_none() {
                return Err(
                    MinarrowError::TypeError {
                        from: String::from_str("scalar"),
                        to: String::from_str("datetime ticks"),
                        message: Some(axis_message("axis ", self.name.as_str(), " holds datetime coordinates")),
                    },
                );
            }
        }
        match c.nearest_pos(value) {
            Some(p) => Ok(p),
            None => Err(
                MinarrowError::IndexError(axis_message("axis ", self.name.as_str(), " has no comparable coordinates")),
            ),
        }
    }
}

/// Full ranges with a single index on axis `d`.
pub open spec fn point_sels(shape: Seq<usize>, d: int, p: usize) -> Seq<AxisSel> {
    full_ranges(shape).update(d, AxisSel::Index(p))
}

/// Full ranges with the range `s .. e` on axis `d`.
pub open spec fn range_sels(shape: Seq<usize>, d: int, s: usize, e: usize) -> Seq<AxisSel> {
    full_ranges(shape).update(d, AxisSel::Range(s, e))
}

/// `p` is the first coordinate equal to `v`.
pub open spec fn first_match(c: Coords, v: Scalar, p: int) -> bool {
    &&& 0 <= p < c.len_s()
    &&& c.matches_at(p, &v)
    &&& forall|q: int| 0 <= q < p ==> !#[trigger] c.matches_at(q, &v)
}

/// The first coordinate equal to `v`.
pub open spec fn at_pos(c: Coords, v: Scalar) -> usize {
    choose|p: usize| first_match(c, v, p as int)
}

/// The window of coordinates inside `[lo, hi]`.
pub open spec fn between_pos(c: Coords, lo: Scalar, hi: Scalar) -> (usize, usize) {
    choose|w: (usize, usize)| c.is_window(w.0 as int, w.1 as int, &lo, &hi)
}

/// The coordinate nearest to the integer `t`, earliest on ties.
pub open spec fn nearest_pos_of(c: Coords, t: int) -> usize {
    choose|p: usize| c.nearest_at(p as int, t)
}

proof fn lemma_first_match_unique(c: Coords, v: Scalar, p: usize)
    requires
        first_match(c, v, p as int),
    ensures
        at_pos(c, v) == p,
{
    let q = at_pos(c, v);
    assert(first_match(c, v, q as int));
    if q < p {
        assert(!c.matches_at(q as int, &v));
    }
    if p < q {
        assert(!c.matches_at(p as int, &v));
    }
}

proof fn lemma_window_unique(c: Coords, lo: Scalar, hi: Scalar, s: usize, e: usize)
    requires
        c.is_window(s as int, e as int, &lo, &hi),
    ensures
        between_pos(c, lo, hi) == (s, e),
{
    let w0: (usize, usize) = (s, e);
    assert(c.is_window(w0.0 as int, w0.1 as int, &lo, &hi));
    let w = between_pos(c, lo, hi);
    assert(c.is_window(w.0 as int, w.1 as int, &lo, &hi));
    assert(c.in_window(s as int, &lo, &hi));
    assert(c.in_window(w.0 as int, &lo, &hi));
    assert(c.in_window(e - 1, &lo, &hi));
    assert(c.in_window(w.1 - 1, &lo, &hi));
    if w.1 < e {
        assert(c.in_window(w.1 as int, &lo, &hi) <==> (s <= w.1 < e));
    }
    if e < w.1 {
        assert(c.in_window(e as int, &lo, &hi) <==> (w.0 <= e < w.1));
    }
}

proof fn lemma_nearest_unique(c: Coords, t: int, p: usize)
    requires
        c.nearest_at(p as int, t),
    ensures
        nearest_pos_of(c, t) == p,
{
    let q = nearest_pos_of(c, t);
    assert(c.nearest_at(q as int, t));
    if q < p {
        assert(int_dist_of(c, p as int, t) < int_dist_of(c, q as int, t));
    }
    if p < q {
        assert(int_dist_of(c, q as int, t) < int_dist_of(c, p as int, t));
    }
}

spec fn int_dist_of(c: Coords, p: int, t: int) -> int {
    crate::coords::int_dist(c.int_at(p), t)
}

impl<T> XArray<T> {
    /// Coordinates of the first axis named `name`.
    pub open spec fn dim_coords(&self, name: Seq<char>) -> Option<Coords> {
        self.axes@[pos_of(self.names(), name)].coords
    }

    /// `out` is the labelled window of this array that `sels` selects:
    /// a view with the window's shape whose elements are the selected
    /// ones, with the kept axes narrowed to their ranges.
    pub open spec fn windowed(&self, out: &XArray<T>, sels: Seq<AxisSel>) -> bool {
        &&& out.wf()
        &&& out.data is View
        &&& out.shape_s() == window_shape(sels)
        &&& forall|j: Seq<int>| in_bounds(j, out.shape_s()) ==> #[trigger] out.elem(j) == self.elem(window_source(sels, j))
        &&& out.axes_v() == (if self.axes@.len() == sels.len() {
            kept_axes(self.axes_v(), sels)
        } else {
            Seq::empty()
        })
    }

    /// The selection that named selections make: full ranges, with each
    /// named axis's selection replaced in order.
    pub open spec fn select_sels(&self, selection: Seq<(&str, AxisSel)>) -> Seq<AxisSel> {
        applied(full_ranges(self.data.shape_u()), self.names(), selection)
    }
}

impl<T: Copy> XArray<T> {
    /// Positional slice of the storage: an index collapses its axis, a
    /// range keeps it. Unlabelled; see the module documentation for when
    /// the storage is copied.
    pub fn slice(&self, sels: &[AxisSel]) -> (v: NdArrayV<T>)
        requires
            self.wf(),
            sel_valid(sels@, self.shape_s()),
            self.data.base() + sel_offset(sels@, self.strides_s()) <= usize::MAX,
        ensures
            v.wf(),
            v.offset == self.data.base() + sel_offset(sels@, self.strides_s()),
            v.shape_s() == window_shape(sels@),
            v.strides_s() == window_strides(sels@, self.strides_s()),
            forall|j: Seq<int>| in_bounds(j, v.shape_s()) ==> #[trigger] v.elem(j) == self.elem(window_source(sels@, j)),
    {
        match &self.data {
            NdArrayE::Owned(a) => a.slice(sels),
            NdArrayE::View(v) => v.slice(sels),
        }
    }

    /// The labelled window that `sels` selects.
    fn window(&self, sels: Vec<AxisSel>) -> (out: XArray<T>)
        requires
            self.wf(),
            sel_valid(sels@, self.shape_s()),
            self.data.base() + sel_offset(sels@, self.strides_s()) <= usize::MAX,
        ensures
            self.windowed(&out, sels@),
    {
        let view = self.slice(sels.as_slice());
        let axes = if self.axes.len() == sels.len() {
            carry_axes(&self.axes, &sels, Ghost(self.shape_s()))
        } else {
            Vec::new()
        };
        let out = XArray { data: NdArrayE::View(view), axes };
        proof {
            if self.axes@.len() == sels@.len() {
                let av = self.axes_v();
                assert forall|i: int| 0 <= i < av.len() implies #[trigger] view_fits(av[i], self.shape_s()[i]) by {
                    assert(coords_fit(self.axes@[i], self.shape_s()[i]));
                }
                lemma_kept_fit(av, sels@, self.shape_s());
                assert(out.axes@.len() == out.axes_v().len());
                if kept_shape(sels@).len() == 0 {
                    assert(out.axes@.len() == 0);
                } else {
                    assert(out.shape_s() == kept_shape(sels@));
                }
                assert forall|k: int| 0 <= k < out.axes@.len() implies #[trigger] coords_fit(
                    out.axes@[k],
                    out.shape_s()[k],
                ) by {
                    assert(out.axes@[k]@ == out.axes_v()[k]);
                }
            } else {
                assert(out.axes_v() =~= Seq::<AxisView>::empty());
                crate::selection::lemma_kept_len(sels@, self.strides_s());
                assert(out.shape_s().len() == 1);
            }
            assert(out.data.wf());
            assert(axes_fit(out.axes@, out.shape_s()));
            assert(out.shape_s() == window_shape(sels@));
        }
        out
    }

    /// The base offset plus any valid selection's start fits a `usize`.
    proof fn lemma_sel_fits(&self, sels: Seq<AxisSel>)
        requires
            self.wf(),
            self.addressable(),
            sel_valid(sels, self.shape_s()),
        ensures
            self.data.base() + sel_offset(sels, self.strides_s()) <= usize::MAX,
    {
        crate::layout::lemma_ints_nonneg(self.data.strides_u());
        lemma_sel_offset_le(sels, self.shape_s(), self.strides_s());
    }

    /// Select by named axes: each `(name, selection)` pair applies to the
    /// first axis with that name (a later pair for the same axis wins); an
    /// index collapses the axis and drops it, a range keeps it with its
    /// coordinates narrowed. Unnamed axes keep their full extent. The
    /// result is view-backed; see the module documentation for when the
    /// storage is copied.
    pub fn select(&self, selection: &[(&str, AxisSel)]) -> (out: XArray<T>)
        requires
            self.wf(),
            self.addressable(),
            forall|k: int|
                0 <= k < selection@.len() ==> has_name(self.names(), (#[trigger] selection@[k]).0@) && sel_fits(
                    selection@[k].1,
                    self.shape_s()[pos_of(self.names(), selection@[k].0@)],
                ),
        ensures
            self.windowed(&out, self.select_sels(selection@)),
    {
        let shape = self.shape();
        let mut sels = full_sels(shape.as_slice());
        let mut k: usize = 0;
        assert(selection@.take(0) =~= Seq::<(&str, AxisSel)>::empty());
        while k < selection.len()
            invariant
                self.wf(),
                shape@ == self.data.shape_u(),
                sels@.len() == shape@.len(),
                k <= selection@.len(),
                sels@ == applied(full_ranges(shape@), self.names(), selection@.take(k as int)),
                forall|q: int|
                    0 <= q < selection@.len() ==> has_name(self.names(), (#[trigger] selection@[q]).0@) && sel_fits(
                        selection@[q].1,
                        self.shape_s()[pos_of(self.names(), selection@[q].0@)],
                    ),
            decreases selection@.len() - k,
        {
            let name = selection[k].0;
            let sel = selection[k].1;
            assert(has_name(self.names(), selection@[k as int].0@));
            let idx = self.dim(name);
            sels.set(idx, sel);
            proof {
                assert(selection@.take(k as int + 1).drop_last() =~= selection@.take(k as int));
                assert(selection@.take(k as int + 1).last() == selection@[k as int]);
            }
            k = k + 1;
        }
        proof {
            assert(selection@.take(selection@.len() as int) =~= selection@);
            let full = full_ranges(shape@);
            assert(sel_valid(full, self.shape_s()));
            lemma_applied_valid(full, self.names(), selection@, self.shape_s());
            self.lemma_sel_fits(sels@);
        }
        self.window(sels)
    }

    /// Select the first position whose coordinate on the first axis named
    /// `dim_name` equals `value`, collapsing that axis. Refused when the
    /// axis has no coordinates, holds coordinates of another kind, or has
    /// no equal coordinate.
    pub fn try_at(&self, dim_name: &str, value: Scalar) -> (r: Result<XArray<T>, MinarrowError>)
        requires
            self.wf(),
            self.addressable(),
            has_name(self.names(), dim_name@),
        ensures
            r is Ok <==> (self.dim_coords(dim_name@) matches Some(c) && exists|q: int|
                0 <= q < c.len_s() && #[trigger] c.matches_at(q, &value)),
            r matches Ok(out) ==> self.windowed(
                &out,
                point_sels(
                    self.data.shape_u(),
                    pos_of(self.names(), dim_name@),
                    at_pos(self.dim_coords(dim_name@)->0, value),
                ),
            ),
            self.dim_coords(dim_name@) is None ==> (r matches Err(MinarrowError::ShapeError { message }) && message@
                == axis_text("axis "@, dim_name@, " has no coordinates for value lookup"@)),
            (self.dim_coords(dim_name@) matches Some(c) && c is Text && !(value is Str)) ==> (r matches Err(
                MinarrowError::TypeError { from, to, message: Some(m) },
            ) && from@ == "scalar"@ && to@ == "string"@ && m@ == axis_text("axis "@, dim_name@, " holds text coordinates"@)),
            (self.dim_coords(dim_name@) matches Some(c) && c is Datetime64 && value.as_i64() is None) ==> (r matches Err(
                MinarrowError::TypeError { from, to, message: Some(m) },
            ) && from@ == "scalar"@ && to@ == "datetime ticks"@ && m@ == axis_text(
                "axis "@,
                dim_name@,
                " holds datetime coordinates"@,
            )),
            (self.dim_coords(dim_name@) matches Some(c) && !((c is Text && !(value is Str)) || (c is Datetime64
                && value.as_i64() is None))) ==> (r is Ok || (r matches Err(MinarrowError::IndexError(m)) && m@
                == axis_text("value not found on axis "@, dim_name@, ""@))),
    {
        let d = self.dim(dim_name);
        proof {
            assert(self.names()[d as int] == self.axes@[d as int].name@);
        }
        let p = self.axes[d].try_coord_pos(&value)?;
        let mut sels = full_sels(self.shape().as_slice());
        sels.set(d, AxisSel::Index(p));
        proof {
            let c = self.axes@[d as int].coords->0;
            assert(first_match(c, value, p as int));
            lemma_first_match_unique(c, value, p);
            assert(coords_fit(self.axes@[d as int], self.shape_s()[d as int]));
            assert(c@.1.len() == c.len_s());
            assert(sels@ =~= point_sels(self.data.shape_u(), d as int, p));
            assert forall|i: int| 0 <= i < sels@.len() implies match #[trigger] sels@[i] {
                AxisSel::Index(x) => x < self.shape_s()[i],
                AxisSel::Range(a, b) => a <= b && b <= self.shape_s()[i],
            } by {}
            self.lemma_sel_fits(sels@);
        }
        Ok(self.window(sels))
    }

    /// As `try_at`, for a value that is known to be present.
    pub fn at(&self, dim_name: &str, value: Scalar) -> (out: XArray<T>)
        requires
            self.wf(),
            self.addressable(),
            has_name(self.names(), dim_name@),
            self.dim_coords(dim_name@) matches Some(c) && exists|q: int|
                0 <= q < c.len_s() && #[trigger] c.matches_at(q, &value),
        ensures
            self.windowed(
                &out,
                point_sels(
                    self.data.shape_u(),
                    pos_of(self.names(), dim_name@),
                    at_pos(self.dim_coords(dim_name@)->0, value),
                ),
            ),
    {
        match self.try_at(dim_name, value) {
            Ok(out) => out,
            Err(_) => {
                assert(false);
                self.to_owned()
            },
        }
    }

    /// Select the positions whose coordinates on the first axis named
    /// `dim_name` lie inside the inclusive bounds `[low, high]`, narrowing
    /// that axis and its coordinates. Refused when the axis has no
    /// coordinates, when the bounds are of another kind, when no coordinate
    /// is inside, or when those inside do not form one contiguous run.
    pub fn try_between(&self, dim_name: &str, low: Scalar, high: Scalar) -> (r: Result<XArray<T>, MinarrowError>)
        requires
            self.wf(),
            self.addressable(),
            has_name(self.names(), dim_name@),
        ensures
            r is Ok <==> (self.dim_coords(dim_name@) matches Some(c) && exists|s: int, e: int|
                #[trigger] c.is_window(s, e, &low, &high)),
            r matches Ok(out) ==> self.windowed(
                &out,
                range_sels(
                    self.data.shape_u(),
                    pos_of(self.names(), dim_name@),
                    between_pos(self.dim_coords(dim_name@)->0, low, high).0,
                    between_pos(self.dim_coords(dim_name@)->0, low, high).1,
                ),
            ),
            self.dim_coords(dim_name@) is None ==> (r matches Err(MinarrowError::ShapeError { message }) && message@
                == axis_text("axis "@, dim_name@, " has no coordinates for range lookup"@)),
            (self.dim_coords(dim_name@) matches Some(c) && c is Text && !(low is Str && high is Str)) ==> (r matches Err(
                MinarrowError::TypeError { from, to, message: Some(m) },
            ) && from@ == "scalar"@ && to@ == "string"@ && m@ == axis_text("axis "@, dim_name@, " holds text coordinates"@)),
            (self.dim_coords(dim_name@) matches Some(c) && c is Datetime64 && (low.as_i64() is None
                || high.as_i64() is None)) ==> (r matches Err(MinarrowError::TypeError { from, to, message: Some(m) })
                && from@ == "scalar"@ && to@ == "datetime ticks"@ && m@ == axis_text(
                "axis "@,
                dim_name@,
                " holds datetime coordinates"@,
            )),
            (self.dim_coords(dim_name@) matches Some(c) && !((c is Text && !(low is Str && high is Str)) || (
            c is Datetime64 && (low.as_i64() is None || high.as_i64() is None))) && !(exists|i: int|
                0 <= i < c.len_s() && #[trigger] c.in_window(i, &low, &high))) ==> (r matches Err(
                MinarrowError::IndexError(m),
            ) && m@ == axis_text("no values in the bounds on axis "@, dim_name@, ""@)),
            (self.dim_coords(dim_name@) matches Some(c) && !((c is Text && !(low is Str && high is Str)) || (
            c is Datetime64 && (low.as_i64() is None || high.as_i64() is None))) && (exists|i: int|
                0 <= i < c.len_s() && #[trigger] c.in_window(i, &low, &high))) ==> (r is Ok || (r matches Err(
                MinarrowError::IndexError(m),
            ) && m@ == axis_text(
                "coordinates on axis "@,
                dim_name@,
                " are not monotonic over the bounds, sort the axis or gather by position instead"@,
            ))),
    {
        let d = self.dim(dim_name);
        proof {
            assert(self.names()[d as int] == self.axes@[d as int].name@);
        }
        let (s, e) = self.axes[d].try_coord_range(&low, &high)?;
        let mut sels = full_sels(self.shape().as_slice());
        sels.set(d, AxisSel::Range(s, e));
        proof {
            let c = self.axes@[d as int].coords->0;
            lemma_window_unique(c, low, high, s, e);
            assert(coords_fit(self.axes@[d as int], self.shape_s()[d as int]));
            assert(c@.1.len() == c.len_s());
            assert(sels@ =~= range_sels(self.data.shape_u(), d as int, s, e));
            assert forall|i: int| 0 <= i < sels@.len() implies match #[trigger] sels@[i] {
                AxisSel::Index(x) => x < self.shape_s()[i],
                AxisSel::Range(a, b) => a <= b && b <= self.shape_s()[i],
            } by {}
            self.lemma_sel_fits(sels@);
        }
        Ok(self.window(sels))
    }

    /// As `try_between`, for bounds that are known to select one run.
    pub fn between(&self, dim_name: &str, low: Scalar, high: Scalar) -> (out: XArray<T>)
        requires
            self.wf(),
            self.addressable(),
            has_name(self.names(), dim_name@),
            self.dim_coords(dim_name@) matches Some(c) && exists|s: int, e: int|
                #[trigger] c.is_window(s, e, &low, &high),
        ensures
            self.windowed(
                &out,
                range_sels(
                    self.data.shape_u(),
                    pos_of(self.names(), dim_name@),
                    between_pos(self.dim_coords(dim_name@)->0, low, high).0,
                    between_pos(self.dim_coords(dim_name@)->0, low, high).1,
                ),
            ),
    {
        match self.try_between(dim_name, low, high) {
            Ok(out) => out,
            Err(_) => {
                assert(false);
                self.to_owned()
            },
        }
    }

    /// Select the position whose integer or datetime coordinate on the
    /// first axis named `dim_name` is closest to `value` (earliest on ties),
    /// collapsing that axis. Refused for text coordinates, for a value
    /// outside the coordinates' integer domain, or for an axis without
    /// coordinates or positions.
    pub fn try_nearest(&self, dim_name: &str, value: Scalar) -> (r: Result<XArray<T>, MinarrowError>)
        requires
            self.wf(),
            self.addressable(),
            has_name(self.names(), dim_name@),
        ensures
            r is Ok <==> (self.dim_coords(dim_name@) matches Some(c) && !(c is Text) && c.int_target(&value) is Some
                && c.len_s() > 0),
            r matches Ok(out) ==> self.windowed(
                &out,
                point_sels(
                    self.data.shape_u(),
                    pos_of(self.names(), dim_name@),
                    nearest_pos_of(
                        self.dim_coords(dim_name@)->0,
                        self.dim_coords(dim_name@)->0.int_target(&value)->0,
                    ),
                ),
            ),
            self.dim_coords(dim_name@) is None ==> (r matches Err(MinarrowError::ShapeError { message }) && message@
                == axis_text("axis "@, dim_name@, " has no coordinates for nearest lookup"@)),
            (self.dim_coords(dim_name@) matches Some(c) && c is Text) ==> (r matches Err(
                MinarrowError::TypeError { from, to, message: Some(m) },
            ) && from@ == "text"@ && to@ == "numeric"@ && m@ == axis_text(
                "axis "@,
                dim_name@,
                " holds text coordinates with no distance metric - use at"@,
            )),
            (self.dim_coords(dim_name@) matches Some(c) && c is Datetime64 && value.as_i64() is None) ==> (r matches Err(
                MinarrowError::TypeError { from, to, message: Some(m) },
            ) && from@ == "scalar"@ && to@ == "datetime ticks"@ && m@ == axis_text(
                "axis "@,
                dim_name@,
                " holds datetime coordinates"@,
            )),
            (self.dim_coords(dim_name@) matches Some(c) && !(c is Text || (c is Datetime64 && value.as_i64() is None)))
                ==> (r is Ok || (r matches Err(MinarrowError::IndexError(m)) && m@ == axis_text(
                "axis "@,
                dim_name@,
                " has no comparable coordinates"@,
            ))),
    {
        let d = self.dim(dim_name);
        proof {
            assert(self.names()[d as int] == self.axes@[d as int].name@);
        }
        let p = self.axes[d].try_coord_nearest(&value)?;
        let mut sels = full_sels(self.shape().as_slice());
        sels.set(d, AxisSel::Index(p));
        proof {
            let c = self.axes@[d as int].coords->0;
            lemma_nearest_unique(c, c.int_target(&value)->0, p);
            assert(coords_fit(self.axes@[d as int], self.shape_s()[d as int]));
            assert(c@.1.len() == c.len_s());
            assert(sels@ =~= point_sels(self.data.shape_u(), d as int, p));
            assert forall|i: int| 0 <= i < sels@.len() implies match #[trigger] sels@[i] {
                AxisSel::Index(x) => x < self.shape_s()[i],
                AxisSel::Range(a, b) => a <= b && b <= self.shape_s()[i],
            } by {}
            self.lemma_sel_fits(sels@);
        }
        Ok(self.window(sels))
    }

    /// As `try_nearest`, for an axis known to have comparable coordinates.
    pub fn nearest(&self, dim_name: &str, value: Scalar) -> (out: XArray<T>)
        requires
            self.wf(),
            self.addressable(),
            has_name(self.names(), dim_name@),
            self.dim_coords(dim_name@) matches Some(c) && !(c is Text) && c.int_target(&value) is Some && c.len_s()
                > 0,
        ensures
            self.windowed(
                &out,
                point_sels(
                    self.data.shape_u(),
                    pos_of(self.names(), dim_name@),
                    nearest_pos_of(
                        self.dim_coords(dim_name@)->0,
                        self.dim_coords(dim_name@)->0.int_target(&value)->0,
                    ),
                ),
            ),
    {
        match self.try_nearest(dim_name, value) {
            Ok(out) => out,
            Err(_) => {
                assert(false);
                self.to_owned()
            },
        }
    }
}

/// The logical sequence of well-formed storage holds each in-bounds
/// element at its flattened position.
pub proof fn lemma_values_elem<T>(e: NdArrayE<T>, idx: Seq<int>)
    requires
        e.wf(),
        in_bounds(idx, e.shape_s()),
    ensures
        0 <= flatten(idx, e.shape_s()) < e.values().len(),
        e.values()[flatten(idx, e.shape_s())] == e.elem(idx),
{
    match e {
        NdArrayE::Owned(a) => lemma_logical_at(a.data@, 0, a.shape_s(), a.strides_s(), idx),
        NdArrayE::View(v) => lemma_logical_at(v.source.data@, v.offset as int, v.shape_s(), v.strides_s(), idx),
    }
}

/// A two-dimensional shape that fits still fits with its axes swapped.
proof fn lemma_fits_swap(s: Seq<int>)
    requires
        s.len() == 2,
        fits(s),
        s[1] <= usize::MAX,
    ensures
        fits(s.reverse()),
{
    let r = s.reverse();
    let e = Seq::<int>::empty();
    assert(r.take(0) =~= e);
    assert(r.take(1) =~= seq![s[1]]);
    assert(r.take(2) =~= r);
    assert(s.take(2) =~= s);
    assert(seq![s[1]].drop_first() =~= e);
    assert(r.drop_first() =~= seq![s[0]]);
    assert(seq![s[0]].drop_first() =~= e);
    assert(s.drop_first() =~= seq![s[1]]);
    assert(prod(e) == 1);
    assert(prod(seq![s[1]]) == s[1] * prod(e));
    assert(prod(seq![s[0]]) == s[0] * prod(e));
    assert(prod(r) == s[1] * prod(seq![s[0]]));
    assert(prod(s) == s[0] * prod(seq![s[1]]));
    assert(s[1] * s[0] == s[0] * s[1]) by (nonlinear_arith);
    assert forall|d: int| 0 <= d <= r.len() implies #[trigger] prod(r.take(d)) <= usize::MAX by {
        assert(prod(s.take(2)) <= usize::MAX);
    }
}

/// Labels of the joined axis 0 when both sides carry labels: this side's
/// labels at positions below its length, the other side's labels after
/// them, in order, of the same kind.
pub open spec fn labels_joined(out: Axis, a: Axis, b: Axis) -> bool {
    a.coords matches Some(ca) ==> b.coords matches Some(cb) ==> {
        &&& out.coords matches Some(co)
        &&& co.kind() == ca.kind()
        &&& co.len_s() == ca.len_s() + cb.len_s()
        &&& forall|k: int|
            0 <= k < co.len_s() ==> #[trigger] co.int_at(k) == (if k < ca.len_s() {
                ca.int_at(k)
            } else {
                cb.int_at(k - ca.len_s())
            })
        &&& forall|k: int|
            0 <= k < co.len_s() ==> #[trigger] co.text_at(k) == (if k < ca.len_s() {
                ca.text_at(k)
            } else {
                cb.text_at(k - ca.len_s())
            })
    }
}

/// Joining along axis 0 keeps labels with their rows: the merged axis 0
/// of two labelled axes carries the first side's labels, in order, then
/// the second side's, so the label at row `k` is the first side's label
/// `k` below its length and the second side's label `k - len` after it.
pub proof fn law_axis0_labels_follow_rows(out: Axis, a: Axis, b: Axis)
    requires
        merge_axis(0, a@, b@) is Some,
        out@ == merge_axis(0, a@, b@)->0,
    ensures
        labels_joined(out, a, b),
{
    if a.coords is Some && b.coords is Some {
        let ca = a.coords->0;
        let cb = b.coords->0;
        assert(coords_view(out.coords) is Some);
        let co = out.coords->0;
        assert(co@ == (ca@.0, ca@.1 + cb@.1, ca@.2 + cb@.2));
        assert(co@.1.len() == co.len_s());
        assert forall|k: int| 0 <= k < co.len_s() implies #[trigger] co.int_at(k) == (if k < ca.len_s() {
            ca.int_at(k)
        } else {
            cb.int_at(k - ca.len_s())
        }) by {
            assert(co@.1[k] == co.int_at(k));
            if k < ca.len_s() {
                assert(ca@.1[k] == ca.int_at(k));
            } else {
                assert(cb@.1[k - ca.len_s()] == cb.int_at(k - ca.len_s()));
            }
        }
        assert forall|k: int| 0 <= k < co.len_s() implies #[trigger] co.text_at(k) == (if k < ca.len_s() {
            ca.text_at(k)
        } else {
            cb.text_at(k - ca.len_s())
        }) by {
            assert(co@.2[k] == co.text_at(k));
            if k < ca.len_s() {
                assert(ca@.2[k] == ca.text_at(k));
            } else {
                assert(cb@.2[k - ca.len_s()] == cb.text_at(k - ca.len_s()));
            }
        }
    }
}

/// Merged labels of axis `i` when joining along axis 0: axis 0 joins
/// labels present on both sides; other axes must agree where both sides
/// are labelled, and adopt the labelled side otherwise. `None` marks a
/// conflict.
pub open spec fn merge_axis(i: int, x: AxisView, y: AxisView) -> Option<AxisView> {
    if i == 0 {
        match (x.1, y.1) {
            (Some(c), Some(d)) => if c.0 == d.0 {
                Some((x.0, Some((c.0, c.1 + d.1, c.2 + d.2))))
            } else {
                None
            },
            (None, None) => Some((x.0, None)),
            _ => None,
        }
    } else {
        match (x.1, y.1) {
            (Some(c), Some(d)) => if c == d {
                Some((x.0, Some(c)))
            } else {
                None
            },
            (Some(c), None) => Some((x.0, Some(c))),
            (None, Some(d)) => Some((x.0, Some(d))),
            (None, None) => Some((x.0, None)),
        }
    }
}

/// Every axis merges without conflict.
pub open spec fn merge_ok(a: Seq<AxisView>, b: Seq<AxisView>) -> bool {
    forall|i: int| 0 <= i < a.len() ==> #[trigger] merge_axis(i, a[i], b[i]) is Some
}

impl<T: Copy> XArray<T> {
    /// Swap the two axes of a two-dimensional array so its dimensions come
    /// in `dim_order`. The current order returns an equal copy; the swapped
    /// order returns an owned array with the data transposed.
    pub fn transpose(&self, dim_order: &[&str]) -> (r: Result<XArray<T>, MinarrowError>)
        requires
            self.wf(),
        ensures
            r is Ok <==> (self.data.shape_u().len() == 2 && dim_order@.len() == 2 && dim_order@[0]@ != dim_order@[1]@
                && has_name(self.names(), dim_order@[0]@) && has_name(self.names(), dim_order@[1]@)),
            r matches Err(e) ==> e is ShapeError,
            self.data.shape_u().len() != 2 ==> (r matches Err(e) && e->ShapeError_message@
                == "transpose requires 2D, got "@ + decimal(self.data.shape_u().len()) + "D"@),
            (self.data.shape_u().len() == 2 && dim_order@.len() != 2) ==> (r matches Err(e) && e->ShapeError_message@
                == "transpose: expected 2 dim names"@),
            (self.data.shape_u().len() == 2 && dim_order@.len() == 2 && dim_order@[0]@ == dim_order@[1]@) ==> (r matches Err(
                e,
            ) && e->ShapeError_message@ == "transpose: dim names must be distinct, got '"@ + dim_order@[0]@
                + "' twice"@),
            (self.data.shape_u().len() == 2 && dim_order@.len() == 2 && dim_order@[0]@ != dim_order@[1]@ && !has_name(
                self.names(),
                dim_order@[0]@,
            )) ==> (r matches Err(e) && e->ShapeError_message@ == axis_text(
                "transpose: no axis named "@,
                dim_order@[0]@,
                ", axes are "@,
            ) + names_text(self.names())),
            (self.data.shape_u().len() == 2 && dim_order@.len() == 2 && dim_order@[0]@ != dim_order@[1]@ && has_name(
                self.names(),
                dim_order@[0]@,
            ) && !has_name(self.names(), dim_order@[1]@)) ==> (r matches Err(e) && e->ShapeError_message@ == axis_text(
                "transpose: no axis named "@,
                dim_order@[1]@,
                ", axes are "@,
            ) + names_text(self.names())),
            r matches Ok(out) ==> out.wf() && (if dim_order@[0]@ == self.names()[0] {
                out.data.same(&self.data) && out.axes_v() == self.axes_v()
            } else {
                &&& out.data is Owned
                &&& out.data.shape_u() == self.data.shape_u().reverse()
                &&& forall|idx: Seq<int>|
                    in_bounds(idx, self.shape_s()) ==> #[trigger] out.elem(idx.reverse()) == self.elem(idx)
                &&& out.axes_v() == seq![
                    self.axes_v()[pos_of(self.names(), dim_order@[0]@)],
                    self.axes_v()[pos_of(self.names(), dim_order@[1]@)],
                ]
            }),
    {
        let nd = self.ndim();
        if nd != 2 {
            let mut message = String::from_str("transpose requires 2D, got ");
            crate::error::append_usize(&mut message, nd);
            message.append("D");
            return Err(MinarrowError::ShapeError { message });
        }
        if dim_order.len() != 2 {
            return Err(MinarrowError::ShapeError { message: String::from_str("transpose: expected 2 dim names") });
        }
        if str_eq(dim_order[0], dim_order[1]) {
            return Err(
                MinarrowError::ShapeError {
                    message: join3("transpose: dim names must be distinct, got '", dim_order[0], "' twice"),
                },
            );
        }
        let mut k: usize = 0;
        while k < 2
            invariant
                self.data.shape_u().len() == 2,
                dim_order@.len() == 2,
                dim_order@[0]@ != dim_order@[1]@,
                k <= 2,
                forall|q: int| 0 <= q < k ==> has_name(self.names(), (#[trigger] dim_order@[q])@),
            decreases 2 - k,
        {
            if self.try_dim(dim_order[k]).is_none() {
                let mut message = axis_message("transpose: no axis named ", dim_order[k], ", axes are ");
                message.append(names_list(&self.axes).as_str());
                return Err(MinarrowError::ShapeError { message });
            }
            k = k + 1;
        }
        assert(has_name(self.names(), dim_order@[0]@));
        assert(has_name(self.names(), dim_order@[1]@));
        if str_eq(dim_order[0], self.axes[0].name.as_str()) {
            let out = self.clone();
            proof {
                lemma_fit_by_view(self.axes@, out.axes@, self.shape_s());
            }
            return Ok(out);
        }
        let a = match &self.data {
            NdArrayE::Owned(a) => a.duplicate(),
            NdArrayE::View(v) => v.to_ndarray(),
        };
        proof {
            lemma_fits_swap(a.shape_s());
        }
        let t = a.transpose();
        let first = self.ax(dim_order[0]).clone();
        let second = self.ax(dim_order[1]).clone();
        let mut axes: Vec<Axis> = Vec::new();
        axes.push(first);
        axes.push(second);
        let out = XArray { data: NdArrayE::Owned(t), axes };
        proof {
            assert(out.axes_v() =~= seq![
                self.axes_v()[pos_of(self.names(), dim_order@[0]@)],
                self.axes_v()[pos_of(self.names(), dim_order@[1]@)],
            ]);
            assert(ints(out.data.shape_u()) =~= self.shape_s().reverse());
            assert forall|idx: Seq<int>| in_bounds(idx, self.shape_s()) implies #[trigger] out.elem(idx.reverse())
                == self.elem(idx) by {
                lemma_values_elem(self.data, idx);
                lemma_values_elem(NdArrayE::Owned(a), idx);
            }
            // Each axis's labels number the extent it now describes.
            lemma_pos_of(self.names(), dim_order@[0]@);
            lemma_pos_of(self.names(), dim_order@[1]@);
            let p0 = pos_of(self.names(), dim_order@[0]@);
            let p1 = pos_of(self.names(), dim_order@[1]@);
            assert(p0 != 0);
            assert(p0 == 1);
            assert(p1 == 0) by {
                if p1 == 1 {
                    assert(self.names()[1] == dim_order@[0]@);
                }
            }
            assert(coords_fit(self.axes@[1], self.shape_s()[1]));
            assert(coords_fit(self.axes@[0], self.shape_s()[0]));
            assert(out.axes@[0]@ == self.axes@[1]@);
            assert(out.axes@[1]@ == self.axes@[0]@);
            assert(coords_fit(out.axes@[0], out.shape_s()[0]));
            assert(coords_fit(out.axes@[1], out.shape_s()[1]));
        }
        Ok(out)
    }

    /// Join `other` after this array along axis 0. Both must have the same
    /// axis names in order and matching extents on every other axis. Axis 0
    /// joins its labels when both sides carry them (and refuses when only
    /// one does); other axes keep labels that agree, adopt labels present on
    /// one side only, and refuse labels that differ. The result is owned.
    pub fn concat(self, other: Self) -> (r: Result<Self, MinarrowError>)
        requires
            self.wf(),
            other.wf(),
            self.data.shape_u().len() == other.data.shape_u().len() ==> self.data.shape_u().len() >= 1,
            trailing_match(self.shape_s(), other.shape_s()) ==> fits(concat_shape(self.shape_s(), other.shape_s())),
        ensures
            r is Ok <==> {
                &&& self.axes@.len() == other.axes@.len()
                &&& self.names() == other.names()
                &&& trailing_match(self.shape_s(), other.shape_s())
                &&& merge_ok(self.axes_v(), other.axes_v())
            },
            r matches Err(e) ==> e is IncompatibleTypeError,
            self.axes@.len() != other.axes@.len() ==> (r matches Err(
                MinarrowError::IncompatibleTypeError { from, to, message: Some(m) },
            ) && from@ == "XArray"@ && to@ == "XArray"@ && m@ == decimal(self.axes@.len()) + " dims vs "@ + decimal(
                other.axes@.len(),
            ) + " dims"@),
            forall|q: int|
                0 <= q < self.axes@.len() && self.axes@.len() == other.axes@.len() && #[trigger] self.names()[q]
                    != other.names()[q] && (forall|p: int| 0 <= p < q ==> self.names()[p] == other.names()[p]) ==> (r matches Err(
                    MinarrowError::IncompatibleTypeError { from, to, message: Some(m) },
                ) && from@ == "XArray"@ && to@ == "XArray"@ && m@ == axis_text(
                    "dim name mismatch: "@,
                    self.names()[q],
                    " vs "@,
                ) + axis_text(""@, other.names()[q], ""@)),
            r matches Ok(out) ==> {
                &&& out.wf()
                &&& out.data is Owned
                &&& out.shape_s() == concat_shape(self.shape_s(), other.shape_s())
                &&& out.values() == concat_values(
                    self.values(),
                    other.values(),
                    self.shape_s()[0],
                    other.shape_s()[0],
                    prod(concat_shape(self.shape_s(), other.shape_s())),
                )
                &&& out.axes_v() == Seq::new(
                    self.axes@.len(),
                    |i: int| merge_axis(i, self.axes_v()[i], other.axes_v()[i])->0,
                )
            },
            r matches Ok(out) ==> self.axes@.len() > 0 ==> labels_joined(out.axes@[0], self.axes@[0], other.axes@[0]),
    {
        let na = self.axes.len();
        let nb = other.axes.len();
        if na != nb {
            let mut message = usize_text(na);
            message.append(" dims vs ");
            crate::error::append_usize(&mut message, nb);
            message.append(" dims");
            return Err(
                MinarrowError::IncompatibleTypeError {
                    from: String::from_str("XArray"),
                    to: String::from_str("XArray"),
                    message: Some(message),
                },
            );
        }
        let mut i: usize = 0;
        while i < na
            invariant
                na == self.axes@.len(),
                nb == other.axes@.len(),
                na == nb,
                i <= na,
                forall|q: int| 0 <= q < i ==> #[trigger] self.names()[q] == other.names()[q],
            decreases na - i,
        {
            if !str_eq(self.axes[i].name.as_str(), other.axes[i].name.as_str()) {
                let mut message = axis_message("dim name mismatch: ", self.axes[i].name.as_str(), " vs ");
                message.append(axis_message("", other.axes[i].name.as_str(), "").as_str());
                proof {
                    assert(self.names()[i as int] != other.names()[i as int]);
                    assert forall|q: int|
                        0 <= q < self.axes@.len() && self.names()[q] != other.names()[q] && (forall|p: int|
                            0 <= p < q ==> self.names()[p] == other.names()[p]) implies q == i by {
                        if q < i {
                            assert(self.names()[q] == other.names()[q]);
                        } else if q > i {
                            assert(self.names()[i as int] == other.names()[i as int]);
                        }
                    }
                }
                return Err(
                    MinarrowError::IncompatibleTypeError {
                        from: String::from_str("XArray"),
                        to: String::from_str("XArray"),
                        message: Some(message),
                    },
                );
            }
            i = i + 1;
        }
        proof {
            assert(self.names() =~= other.names());
            assert forall|q: int| 0 <= q < self.axes@.len() implies #[trigger] self.axes@[q].name@ == other.axes@[q].name@ by {
                assert(self.names()[q] == other.names()[q]);
            }
        }
        let ghost sa = self.shape_s();
        let ghost sb = other.shape_s();
        let ghost va = self.values();
        let ghost vb = other.values();
        let ghost ava = self.axes_v();
        let ghost avb = other.axes_v();
        let XArray { data: self_data, axes: self_axes } = self;
        let XArray { data: other_data, axes: other_axes } = other;
        let a = match self_data {
            NdArrayE::Owned(a) => a,
            NdArrayE::View(v) => v.to_ndarray(),
        };
        let b = match other_data {
            NdArrayE::Owned(b) => b,
            NdArrayE::View(v) => v.to_ndarray(),
        };
        let joined = a.concat(b)?;
        let axes = merge_axes(&self_axes, &other_axes)?;
        let out = XArray { data: NdArrayE::Owned(joined), axes };
        proof {
            assert(out.axes_v() =~= Seq::new(na as nat, |i: int| merge_axis(i, ava[i], avb[i])->0));
            assert forall|k: int| 0 <= k < out.axes@.len() implies #[trigger] coords_fit(out.axes@[k], out.shape_s()[k]) by {
                assert(coords_fit(self_axes@[k], sa[k]));
                assert(coords_fit(other_axes@[k], sb[k]));
                assert(out.axes@[k]@ == merge_axis(k, ava[k], avb[k])->0);
                assert(ava[k] == self_axes@[k]@);
                assert(avb[k] == other_axes@[k]@);
            }
            if na >= 1 {
                assert(out.axes@[0]@ == merge_axis(0, ava[0], avb[0])->0);
                law_axis0_labels_follow_rows(out.axes@[0], self_axes@[0], other_axes@[0]);
            }
        }
        Ok(out)
    }

    /// The logical elements in column-major order.
    pub fn to_vec(&self) -> (out: Vec<T>)
        requires
            self.wf(),
        ensures
            out@ == self.values(),
    {
        match &self.data {
            NdArrayE::Owned(a) => a.to_vec(),
            NdArrayE::View(v) => v.to_vec(),
        }
    }

    /// One-line description: each axis as `name=extent`, marked
    /// `(labelled)` when it carries coordinates, and the storage kind.
    pub fn summary(&self) -> (s: String)
        requires
            self.wf(),
        ensures
            s@ == "XArray ["@ + axes_text(self.axes@, self.data.shape_u()) + "] ("@ + (if self.data is Owned {
                "owned"@
            } else {
                "view"@
            }) + ")"@,
    {
        let shape = self.shape();
        let mut s = String::from_str("XArray [");
        let ghost start = s@;
        let mut i: usize = 0;
        while i < self.axes.len()
            invariant
                self.wf(),
                shape@ == self.data.shape_u(),
                self.axes@.len() <= shape@.len(),
                i <= self.axes@.len(),
                s@ == start + axes_text(self.axes@.take(i as int), shape@),
            decreases self.axes@.len() - i,
        {
            let ghost before = s@;
            let ghost a = self.axes@.take(i as int + 1);
            proof {
                assert(a.drop_last() =~= self.axes@.take(i as int));
                assert(a.last() == self.axes@[i as int]);
            }
            if i > 0 {
                s.append(", ");
            }
            s.append(self.axes[i].name.as_str());
            s.append("=");
            crate::error::append_usize(&mut s, shape[i]);
            if self.axes[i].coords.is_some() {
                s.append(" (labelled)");
            }
            proof {
                if i == 0 {
                    assert(self.axes@.take(0) =~= Seq::<Axis>::empty());
                }
                assert(s@ =~= start + axes_text(a, shape@));
            }
            i = i + 1;
        }
        proof {
            assert(self.axes@.take(self.axes@.len() as int) =~= self.axes@);
        }
        s.append("] (");
        if self.is_owned() {
            s.append("owned");
        } else {
            s.append("view");
        }
        s.append(")");
        s
    }
}

/// One axis in a summary: `name=extent`, with ` (labelled)` for an axis
/// with coordinates.
pub open spec fn axis_entry(a: Axis, size: usize) -> Seq<char> {
    a.name@ + "="@ + decimal(size as nat) + (if a.coords is Some {
        " (labelled)"@
    } else {
        Seq::empty()
    })
}

/// The axes paired with their extents, separated by `", "`.
pub open spec fn axes_text(axes: Seq<Axis>, shape: Seq<usize>) -> Seq<char>
    decreases axes.len(),
{
    if axes.len() == 0 {
        Seq::empty()
    } else if axes.len() == 1 {
        axis_entry(axes[0], shape[0])
    } else {
        axes_text(axes.drop_last(), shape) + ", "@ + axis_entry(axes.last(), shape[axes.len() - 1])
    }
}

/// Names in double quotes, separated by `", "`.
pub open spec fn quoted_names(names: Seq<Seq<char>>) -> Seq<char>
    decreases names.len(),
{
    if names.len() == 0 {
        Seq::empty()
    } else if names.len() == 1 {
        "\""@ + names[0] + "\""@
    } else {
        quoted_names(names.drop_last()) + ", "@ + "\""@ + names.last() + "\""@
    }
}

/// Names rendered as a list: `["a", "b"]`.
pub open spec fn names_text(names: Seq<Seq<char>>) -> Seq<char> {
    "["@ + quoted_names(names) + "]"@
}

/// The axis names rendered as a list: `["a", "b"]`.
fn names_list(axes: &Vec<Axis>) -> (s: String)
    ensures
        s@ == names_text(axes@.map_values(|a: Axis| a.name@)),
{
    let ghost names = axes@.map_values(|a: Axis| a.name@);
    let mut s = String::from_str("[");
    let ghost head = s@;
    let mut i: usize = 0;
    assert(names.take(0) =~= Seq::<Seq<char>>::empty());
    while i < axes.len()
        invariant
            i <= axes@.len(),
            names == axes@.map_values(|a: Axis| a.name@),
            head == "["@,
            s@ == head + quoted_names(names.take(i as int)),
        decreases axes@.len() - i,
    {
        if i > 0 {
            s.append(", ");
        }
        s.append("\"");
        s.append(axes[i].name.as_str());
        s.append("\"");
        proof {
            let t = names.take(i as int + 1);
            assert(t.drop_last() =~= names.take(i as int));
            assert(t.last() == axes@[i as int].name@);
            if i == 0 {
                assert(names.take(0) =~= Seq::<Seq<char>>::empty());
            }
        }
        i = i + 1;
    }
    assert(names.take(axes@.len() as int) =~= names);
    s.append("]");
    s
}

/// Axes merged pairwise for a join along axis 0 (see `merge_axis`).
fn merge_axes(a: &Vec<Axis>, b: &Vec<Axis>) -> (r: Result<Vec<Axis>, MinarrowError>)
    requires
        a@.len() == b@.len(),
        forall|i: int| 0 <= i < a@.len() ==> #[trigger] a@[i].name@ == b@[i].name@,
    ensures
        r is Ok <==> merge_ok(a@.map_values(|x: Axis| x@), b@.map_values(|x: Axis| x@)),
        r matches Err(e) ==> e is IncompatibleTypeError,
        r matches Ok(out) ==> out@.len() == a@.len() && forall|i: int|
            0 <= i < a@.len() ==> #[trigger] out@[i]@ == merge_axis(i, a@[i]@, b@[i]@)->0,
{
    let ghost av = a@.map_values(|x: Axis| x@);
    let ghost bv = b@.map_values(|x: Axis| x@);
    let mut out: Vec<Axis> = Vec::new();
    let mut i: usize = 0;
    while i < a.len()
        invariant
            a@.len() == b@.len(),
            av == a@.map_values(|x: Axis| x@),
            bv == b@.map_values(|x: Axis| x@),
            i <= a@.len(),
            out@.len() == i,
            forall|k: int| 0 <= k < i ==> #[trigger] merge_axis(k, av[k], bv[k]) is Some,
            forall|k: int| 0 <= k < i ==> #[trigger] out@[k]@ == merge_axis(k, a@[k]@, b@[k]@)->0,
        decreases a@.len() - i,
    {
        let x = &a[i];
        let y = &b[i];
        assert(av[i as int] == x@ && bv[i as int] == y@);
        let merged = if i == 0 {
            match (&x.coords, &y.coords) {
                (Some(ca), Some(cb)) => {
                    match ca.concat(cb) {
                        Ok(c) => {
                            proof {
                                assert forall|k: int| 0 <= k < c.len_s() implies c@.1[k] == (ca@.1 + cb@.1)[k]
                                    && c@.2[k] == (ca@.2 + cb@.2)[k] by {
                                    if k >= ca.len_s() {
                                        let j = k - ca.len_s();
                                        assert(c.int_at(ca.len_s() + j) == cb.int_at(j));
                                    } else {
                                        assert(c.int_at(k) == ca.int_at(k));
                                    }
                                }
                                assert(c@.1 =~= ca@.1 + cb@.1);
                                assert(c@.2 =~= ca@.2 + cb@.2);
                            }
                            Axis { name: x.name.clone(), coords: Some(c) }
                        },
                        Err(e) => {
                            assert(merge_axis(i as int, av[i as int], bv[i as int]) is None);
                            return Err(e);
                        },
                    }
                },
                (None, None) => Axis { name: x.name.clone(), coords: None },
                _ => {
                    assert(merge_axis(i as int, av[i as int], bv[i as int]) is None);
                    return Err(
                        MinarrowError::IncompatibleTypeError {
                            from: String::from_str("XArray"),
                            to: String::from_str("XArray"),
                            message: Some(
                                axis_message(
                                    "axis ",
                                    x.name.as_str(),
                                    " is labelled on one side only, assign_coords or drop_coords first",
                                ),
                            ),
                        },
                    );
                },
            }
        } else {
            match (&x.coords, &y.coords) {
                (Some(ca), Some(cb)) => {
                    proof {
                        crate::coords::lemma_same_view(ca, cb);
                    }
                    if !ca.equals(cb) {
                        assert(merge_axis(i as int, av[i as int], bv[i as int]) is None);
                        return Err(
                            MinarrowError::IncompatibleTypeError {
                                from: String::from_str("XArray"),
                                to: String::from_str("XArray"),
                                message: Some(
                                    axis_message("axis ", x.name.as_str(), " coordinates differ between the two sides"),
                                ),
                            },
                        );
                    }
                    Axis { name: x.name.clone(), coords: Some(ca.clone()) }
                },
                (Some(ca), None) => Axis { name: x.name.clone(), coords: Some(ca.clone()) },
                (None, Some(cb)) => Axis { name: x.name.clone(), coords: Some(cb.clone()) },
                (None, None) => Axis { name: x.name.clone(), coords: None },
            }
        };
        out.push(merged);
        i = i + 1;
    }
    Ok(out)
}

impl<T: Copy> Shape for XArray<T> {
    open spec fn classifies(&self, d: ShapeDim) -> bool {
        classifies_shape(self.data.shape_u(), d)
    }

    fn shape(&self) -> (d: ShapeDim) {
        match &self.data {
            NdArrayE::Owned(a) => classify_shape(a.dims.shape.as_slice()),
            NdArrayE::View(v) => classify_shape(v.dims.shape.as_slice()),
        }
    }
}

} // verus!
