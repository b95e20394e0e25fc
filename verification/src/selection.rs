//! Per-axis selections for slicing: a single index collapses its axis, a
//! half-open range keeps it. Resolving a selection against a layout gives
//! the window's start offset and its own shape and strides.

use vstd::prelude::*;

use crate::layout::{
    dot, fits, in_bounds, ints, layout_ok, lemma_dot_bound, lemma_dot_is_max, lemma_prod_all_pos,
    nonneg, prod,
};

verus! {

/// Selection on one axis.
#[derive(Clone, Copy, Debug, PartialEq, Eq)]
pub enum AxisSel {
    /// A single position; the axis is collapsed.
    Index(usize),
    /// Positions `start..end`; the axis is kept with `end - start` entries.
    Range(usize, usize),
}

/// First selected position on the axis.
pub open spec fn sel_start(s: AxisSel) -> int {
    match s {
        AxisSel::Index(i) => i as int,
        AxisSel::Range(a, _) => a as int,
    }
}

/// Each selection addresses positions inside its axis.
pub open spec fn sel_valid(sels: Seq<AxisSel>, shape: Seq<int>) -> bool {
    &&& sels.len() == shape.len()
    &&& forall|d: int|
        0 <= d < sels.len() ==> match #[trigger] sels[d] {
            AxisSel::Index(i) => i < shape[d],
            AxisSel::Range(a, b) => a <= b && b <= shape[d],
        }
}

/// Offset of the window's first element relative to the layout's base.
pub open spec fn sel_offset(sels: Seq<AxisSel>, strides: Seq<int>) -> int
    decreases sels.len(),
{
    if sels.len() == 0 {
        0
    } else {
        sel_start(sels[0]) * strides[0] + sel_offset(sels.drop_first(), strides.drop_first())
    }
}

/// Extents of the kept (range-selected) axes.
pub open spec fn kept_shape(sels: Seq<AxisSel>) -> Seq<int>
    decreases sels.len(),
{
    if sels.len() == 0 {
        Seq::empty()
    } else {
        match sels[0] {
            AxisSel::Index(_) => kept_shape(sels.drop_first()),
            AxisSel::Range(a, b) => seq![b - a] + kept_shape(sels.drop_first()),
        }
    }
}

/// Strides of the kept axes.
pub open spec fn kept_strides(sels: Seq<AxisSel>, strides: Seq<int>) -> Seq<int>
    decreases sels.len(),
{
    if sels.len() == 0 {
        Seq::empty()
    } else {
        match sels[0] {
            AxisSel::Index(_) => kept_strides(sels.drop_first(), strides.drop_first()),
            AxisSel::Range(_, _) => seq![strides[0]] + kept_strides(sels.drop_first(), strides.drop_first()),
        }
    }
}

/// The window's shape: the kept extents, or a single element when every
/// axis collapsed.
pub open spec fn window_shape(sels: Seq<AxisSel>) -> Seq<int> {
    if kept_shape(sels).len() == 0 {
        seq![1int]
    } else {
        kept_shape(sels)
    }
}

/// The window's strides.
pub open spec fn window_strides(sels: Seq<AxisSel>, strides: Seq<int>) -> Seq<int> {
    if kept_shape(sels).len() == 0 {
        seq![1int]
    } else {
        kept_strides(sels, strides)
    }
}

/// The source index that a window index addresses.
pub open spec fn expand(sels: Seq<AxisSel>, j: Seq<int>) -> Seq<int>
    decreases sels.len(),
{
    if sels.len() == 0 {
        Seq::empty()
    } else {
        match sels[0] {
            AxisSel::Index(i) => seq![i as int] + expand(sels.drop_first(), j),
            AxisSel::Range(a, _) => seq![a + j[0]] + expand(sels.drop_first(), j.drop_first()),
        }
    }
}

/// The source index for a window index, with the single-element window of
/// a fully collapsed selection mapped to the collapsed positions.
pub open spec fn window_source(sels: Seq<AxisSel>, j: Seq<int>) -> Seq<int> {
    if kept_shape(sels).len() == 0 {
        expand(sels, Seq::empty())
    } else {
        expand(sels, j)
    }
}

pub proof fn lemma_sel_rest(sels: Seq<AxisSel>, shape: Seq<int>)
    requires
        sel_valid(sels, shape),
        sels.len() > 0,
    ensures
        sel_valid(sels.drop_first(), shape.drop_first()),
{
    assert forall|d: int| 0 <= d < sels.drop_first().len() implies match #[trigger] sels.drop_first()[d] {
        AxisSel::Index(i) => i < shape.drop_first()[d],
        AxisSel::Range(a, b) => a <= b && b <= shape.drop_first()[d],
    } by {
        assert(sels.drop_first()[d] == sels[d + 1]);
        assert(shape.drop_first()[d] == shape[d + 1]);
    }
}

pub proof fn lemma_kept_len(sels: Seq<AxisSel>, strides: Seq<int>)
    requires
        strides.len() >= sels.len(),
    ensures
        kept_shape(sels).len() == kept_strides(sels, strides).len(),
        kept_shape(sels).len() <= sels.len(),
    decreases sels.len(),
{
    if sels.len() > 0 {
        lemma_kept_len(sels.drop_first(), strides.drop_first());
    }
}

/// A window index in bounds of the kept shape addresses an in-bounds source
/// element, at the window offset plus its own dot product.
pub proof fn lemma_expand(sels: Seq<AxisSel>, shape: Seq<int>, strides: Seq<int>, j: Seq<int>)
    requires
        sel_valid(sels, shape),
        strides.len() == shape.len(),
        in_bounds(j, kept_shape(sels)),
    ensures
        in_bounds(expand(sels, j), shape),
        dot(expand(sels, j), strides) == sel_offset(sels, strides) + dot(j, kept_strides(sels, strides)),
    decreases sels.len(),
{
    if sels.len() > 0 {
        lemma_sel_rest(sels, shape);
        let rest = sels.drop_first();
        assert(sels[0] == sels[0]);
        match sels[0] {
            AxisSel::Index(i) => {
                lemma_expand(rest, shape.drop_first(), strides.drop_first(), j);
                let e = expand(sels, j);
                assert(e.drop_first() =~= expand(rest, j));
                assert forall|d: int| 0 <= d < e.len() implies 0 <= #[trigger] e[d] < shape[d] by {
                    if d > 0 {
                        assert(e[d] == expand(rest, j)[d - 1]);
                        assert(shape[d] == shape.drop_first()[d - 1]);
                    }
                }
            },
            AxisSel::Range(a, b) => {
                let kr = kept_shape(rest);
                assert(kept_shape(sels) == seq![b - a] + kr);
                assert(j.drop_first().len() == kr.len());
                assert(in_bounds(j.drop_first(), kr)) by {
                    assert forall|d: int| 0 <= d < j.drop_first().len() implies 0
                        <= #[trigger] j.drop_first()[d] < kr[d] by {
                        assert(j.drop_first()[d] == j[d + 1]);
                        assert(0 <= j[d + 1] < kept_shape(sels)[d + 1]);
                    }
                }
                assert(0 <= j[0] < kept_shape(sels)[0]);
                lemma_expand(rest, shape.drop_first(), strides.drop_first(), j.drop_first());
                let e = expand(sels, j);
                assert(e.drop_first() =~= expand(rest, j.drop_first()));
                assert forall|d: int| 0 <= d < e.len() implies 0 <= #[trigger] e[d] < shape[d] by {
                    if d > 0 {
                        assert(e[d] == expand(rest, j.drop_first())[d - 1]);
                        assert(shape[d] == shape.drop_first()[d - 1]);
                    }
                }
                let ks = kept_strides(sels, strides);
                assert(ks.drop_first() =~= kept_strides(rest, strides.drop_first()));
                assert((a + j[0]) * strides[0] == a * strides[0] + j[0] * strides[0]) by (nonlinear_arith);
            },
        }
    }
}

/// Extents and strides of a valid selection are non-negative.
pub proof fn lemma_kept_nonneg(sels: Seq<AxisSel>, shape: Seq<int>, strides: Seq<int>)
    requires
        sel_valid(sels, shape),
        strides.len() == shape.len(),
        nonneg(strides),
    ensures
        nonneg(kept_shape(sels)),
        nonneg(kept_strides(sels, strides)),
    decreases sels.len(),
{
    if sels.len() > 0 {
        lemma_sel_rest(sels, shape);
        assert(nonneg(strides.drop_first())) by {
            assert forall|i: int| 0 <= i < strides.drop_first().len() implies #[trigger] strides.drop_first()[i] >= 0 by {
                assert(strides.drop_first()[i] == strides[i + 1]);
            }
        }
        lemma_kept_nonneg(sels.drop_first(), shape.drop_first(), strides.drop_first());
        assert(sels[0] == sels[0]);
        match sels[0] {
            AxisSel::Index(_) => {},
            AxisSel::Range(a, b) => {
                let k = kept_shape(sels);
                assert(k == seq![b - a] + kept_shape(sels.drop_first()));
                assert forall|i: int| 0 <= i < k.len() implies #[trigger] k[i] >= 0 by {
                    if i > 0 {
                        assert(k[i] == kept_shape(sels.drop_first())[i - 1]);
                    }
                }
                let ks = kept_strides(sels, strides);
                assert forall|i: int| 0 <= i < ks.len() implies #[trigger] ks[i] >= 0 by {
                    if i > 0 {
                        assert(ks[i] == kept_strides(sels.drop_first(), strides.drop_first())[i - 1]);
                    }
                }
            },
        }
    }
}

/// Each prefix product of the kept extents is bounded by some prefix
/// product of the source shape.
pub proof fn lemma_kept_prefix(sels: Seq<AxisSel>, shape: Seq<int>, m: int) -> (t: int)
    requires
        sel_valid(sels, shape),
        nonneg(shape),
        0 <= m <= kept_shape(sels).len(),
    ensures
        0 <= t <= shape.len(),
        0 <= prod(kept_shape(sels).take(m)) <= prod(shape.take(t)),
    decreases sels.len(),
{
    lemma_kept_len(sels, shape);
    if sels.len() == 0 {
        assert(kept_shape(sels).take(m) =~= Seq::<int>::empty());
        assert(shape.take(0) =~= Seq::<int>::empty());
        0
    } else {
        lemma_sel_rest(sels, shape);
        let rest = sels.drop_first();
        let srest = shape.drop_first();
        assert(nonneg(srest)) by {
            assert forall|i: int| 0 <= i < srest.len() implies #[trigger] srest[i] >= 0 by {
                assert(srest[i] == shape[i + 1]);
            }
        }
        assert(sels[0] == sels[0]);
        match sels[0] {
            AxisSel::Index(i) => {
                let t1 = lemma_kept_prefix(rest, srest, m);
                assert(shape.take(t1 + 1).drop_first() =~= srest.take(t1));
                assert(shape[0] >= 1);
                assert(prod(srest.take(t1)) <= shape[0] * prod(srest.take(t1))) by (nonlinear_arith)
                    requires
                        shape[0] >= 1,
                        prod(srest.take(t1)) >= 0,
                ;
                t1 + 1
            },
            AxisSel::Range(a, b) => {
                let kr = kept_shape(rest);
                assert(kept_shape(sels) == seq![b - a] + kr);
                if m == 0 {
                    assert(kept_shape(sels).take(0) =~= Seq::<int>::empty());
                    assert(shape.take(0) =~= Seq::<int>::empty());
                    0
                } else {
                    let t1 = lemma_kept_prefix(rest, srest, m - 1);
                    assert(kept_shape(sels).take(m).drop_first() =~= kr.take(m - 1));
                    assert(kept_shape(sels).take(m)[0] == b - a);
                    assert(shape.take(t1 + 1).drop_first() =~= srest.take(t1));
                    assert((b - a) * prod(kr.take(m - 1)) <= shape[0] * prod(srest.take(t1))) by (nonlinear_arith)
                        requires
                            0 <= b - a <= shape[0],
                            0 <= prod(kr.take(m - 1)) <= prod(srest.take(t1)),
                    ;
                    assert(0 <= (b - a) * prod(kr.take(m - 1))) by (nonlinear_arith)
                        requires
                            0 <= b - a,
                            0 <= prod(kr.take(m - 1)),
                    ;
                    t1 + 1
                }
            },
        }
    }
}

/// The window of a valid selection is a well-formed layout over the same
/// buffer, starting at the selection offset.
pub proof fn lemma_window_layout(len: int, base: int, sels: Seq<AxisSel>, shape: Seq<int>, strides: Seq<int>)
    requires
        layout_ok(len, base, shape, strides),
        fits(shape),
        sel_valid(sels, shape),
        sel_offset(sels, strides) >= 0,
    ensures
        layout_ok(len, base + sel_offset(sels, strides), window_shape(sels), window_strides(sels, strides)),
        fits(window_shape(sels)),
{
    lemma_kept_len(sels, strides);
    lemma_kept_nonneg(sels, shape, strides);
    let ws = window_shape(sels);
    let wst = window_strides(sels, strides);
    // fits
    if kept_shape(sels).len() == 0 {
        assert forall|d: int| 0 <= d <= ws.len() implies #[trigger] prod(ws.take(d)) <= usize::MAX by {
            if d == 0 {
                assert(ws.take(0) =~= Seq::<int>::empty());
            } else {
                assert(ws.take(1) =~= seq![1int]);
                lemma_single(1, 1);
            }
        }
    } else {
        assert forall|d: int| 0 <= d <= ws.len() implies #[trigger] prod(ws.take(d)) <= usize::MAX by {
            let t = lemma_kept_prefix(sels, shape, d);
            assert(prod(shape.take(t)) <= usize::MAX);
        }
    }
    // bound
    if prod(ws) > 0 {
        let last = Seq::new(ws.len(), |d: int| ws[d] - 1);
        lemma_prod_pos_local(ws);
        assert(in_bounds(last, ws));
        lemma_dot_is_max(ws, wst);
        if kept_shape(sels).len() == 0 {
            assert(in_bounds(Seq::<int>::empty(), kept_shape(sels)));
            lemma_expand(sels, shape, strides, Seq::<int>::empty());
            let e = expand(sels, Seq::<int>::empty());
            assert forall|d: int| 0 <= d < shape.len() implies #[trigger] shape[d] > 0 by {
                assert(0 <= e[d] < shape[d]);
            }
            lemma_prod_all_pos(shape);
            lemma_dot_bound(e, shape, strides);
            assert(last =~= seq![0int]);
            assert(wst =~= seq![1int]);
            lemma_single(0, 1);
        } else {
            lemma_expand(sels, shape, strides, last);
            let e = expand(sels, last);
            assert forall|d: int| 0 <= d < shape.len() implies #[trigger] shape[d] > 0 by {
                assert(0 <= e[d] < shape[d]);
            }
            lemma_prod_all_pos(shape);
            lemma_dot_bound(e, shape, strides);
        }
    }
    assert(nonneg(ws));
    assert(nonneg(wst)) by {
        if kept_shape(sels).len() == 0 {
            assert(wst =~= seq![1int]);
        }
    }
}

proof fn lemma_single(x: int, y: int)
    ensures
        dot(seq![x], seq![y]) == x * y,
        prod(seq![x]) == x,
{
    assert(seq![x].drop_first() =~= Seq::<int>::empty());
    assert(seq![y].drop_first() =~= Seq::<int>::empty());
    assert(dot(seq![x], seq![y]) == x * y + dot(seq![x].drop_first(), seq![y].drop_first()));
    assert(prod(seq![x]) == x * prod(seq![x].drop_first()));
}

proof fn lemma_prod_pos_local(s: Seq<int>)
    requires
        nonneg(s),
        prod(s) > 0,
    ensures
        forall|d: int| 0 <= d < s.len() ==> #[trigger] s[d] > 0,
{
    crate::layout::lemma_prod_pos(s);
}

/// A window element is the source element its index expands to.
pub proof fn lemma_window_elem(sels: Seq<AxisSel>, shape: Seq<int>, strides: Seq<int>, j: Seq<int>)
    requires
        sel_valid(sels, shape),
        strides.len() == shape.len(),
        in_bounds(j, window_shape(sels)),
    ensures
        in_bounds(window_source(sels, j), shape),
        sel_offset(sels, strides) + dot(j, window_strides(sels, strides)) == dot(window_source(sels, j), strides),
{
    lemma_kept_len(sels, strides);
    if kept_shape(sels).len() == 0 {
        assert(in_bounds(Seq::<int>::empty(), kept_shape(sels)));
        lemma_expand(sels, shape, strides, Seq::<int>::empty());
        assert(j =~= seq![0int]);
        assert(window_strides(sels, strides) =~= seq![1int]);
        lemma_single(0, 1);
    } else {
        lemma_expand(sels, shape, strides, j);
    }
}

/// What a selection keeps of its axis: nothing for an index, the range's
/// length for a range.
pub open spec fn kept_extent(s: AxisSel) -> Seq<int> {
    match s {
        AxisSel::Index(_) => Seq::empty(),
        AxisSel::Range(a, b) => seq![b - a],
    }
}

/// A leading-axis selection read as a range of rows: a single index keeps
/// its axis as one row.
pub open spec fn as_row_range(s: AxisSel) -> AxisSel {
    match s {
        AxisSel::Index(i) => AxisSel::Range(i, (i + 1) as usize),
        AxisSel::Range(a, b) => AxisSel::Range(a, b),
    }
}

/// Appending a selection appends what it keeps.
pub proof fn lemma_kept_push(sels: Seq<AxisSel>, x: AxisSel)
    ensures
        kept_shape(sels.push(x)) == kept_shape(sels) + kept_extent(x),
    decreases sels.len(),
{
    let p = sels.push(x);
    if sels.len() == 0 {
        assert(p.drop_first() =~= Seq::<AxisSel>::empty());
        assert(p[0] == x);
        assert(kept_shape(p.drop_first()) =~= Seq::<int>::empty());
        assert(kept_shape(sels) =~= Seq::<int>::empty());
        match x {
            AxisSel::Index(_) => {},
            AxisSel::Range(a, b) => {
                assert(kept_shape(p) == seq![b - a] + kept_shape(p.drop_first()));
            },
        }
        assert(kept_shape(p) =~= kept_shape(sels) + kept_extent(x));
    } else {
        assert(p.drop_first() =~= sels.drop_first().push(x));
        lemma_kept_push(sels.drop_first(), x);
        assert(p[0] == sels[0]);
        let kr = kept_shape(sels.drop_first());
        assert(kept_shape(p.drop_first()) == kr + kept_extent(x));
        match sels[0] {
            AxisSel::Index(_) => {
                assert(kept_shape(p) == kept_shape(p.drop_first()));
                assert(kept_shape(sels) == kr);
            },
            AxisSel::Range(a, b) => {
                assert(kept_shape(p) == seq![b - a] + kept_shape(p.drop_first()));
                assert(kept_shape(sels) == seq![b - a] + kr);
                assert(seq![b - a] + (kr + kept_extent(x)) =~= (seq![b - a] + kr) + kept_extent(x));
            },
        }
    }
}

/// The kept extents of a valid selection over a shape that fits a `usize`
/// fit a `usize` too.
pub proof fn lemma_kept_fits(sels: Seq<AxisSel>, shape: Seq<int>)
    requires
        sel_valid(sels, shape),
        fits(shape),
    ensures
        fits(kept_shape(sels)),
{
    lemma_kept_nonneg(sels, shape, shape);
    let k = kept_shape(sels);
    assert forall|m: int| 0 <= m <= k.len() implies #[trigger] prod(k.take(m)) <= usize::MAX by {
        let t = lemma_kept_prefix(sels, shape, m);
        assert(prod(shape.take(t)) <= usize::MAX);
    }
}

/// A valid selection's window ends no further than the layout's own span:
/// its start offset plus its kept extents dotted with its kept strides is
/// at most the shape dotted with the strides.
pub proof fn lemma_sel_extent_le(sels: Seq<AxisSel>, shape: Seq<int>, strides: Seq<int>)
    requires
        sel_valid(sels, shape),
        strides.len() == shape.len(),
        nonneg(strides),
    ensures
        sel_offset(sels, strides) + dot(kept_shape(sels), kept_strides(sels, strides)) <= dot(shape, strides),
    decreases sels.len(),
{
    if sels.len() > 0 {
        lemma_sel_rest(sels, shape);
        let rest = sels.drop_first();
        let srest = shape.drop_first();
        let strest = strides.drop_first();
        assert(nonneg(strest)) by {
            assert forall|i: int| 0 <= i < strest.len() implies #[trigger] strest[i] >= 0 by {
                assert(strest[i] == strides[i + 1]);
            }
        }
        lemma_sel_extent_le(rest, srest, strest);
        let n = shape[0];
        let st = strides[0];
        assert(st >= 0);
        assert(sels[0] == sels[0]);
        match sels[0] {
            AxisSel::Index(i) => {
                assert(i < n);
                assert(i * st <= n * st) by (nonlinear_arith)
                    requires
                        i < n,
                        st >= 0,
                ;
            },
            AxisSel::Range(a, b) => {
                assert(a <= b && b <= n);
                let k = kept_shape(sels);
                let ks = kept_strides(sels, strides);
                assert(k.drop_first() =~= kept_shape(rest));
                assert(ks.drop_first() =~= kept_strides(rest, strest));
                assert(a * st + (b - a) * st <= n * st) by (nonlinear_arith)
                    requires
                        a <= b,
                        b <= n,
                        st >= 0,
                ;
            },
        }
    }
}

/// Resolves a selection against a layout: the window's offset (relative to
/// the layout's base), shape and strides.
pub fn resolve_selection(sels: &[AxisSel], shape: &[usize], strides: &[usize]) -> (out: (usize, Vec<usize>, Vec<usize>))
    requires
        sel_valid(sels@, ints(shape@)),
        strides@.len() == shape@.len(),
        sel_offset(sels@, ints(strides@)) <= usize::MAX,
    ensures
        out.0 == sel_offset(sels@, ints(strides@)),
        ints(out.1@) == window_shape(sels@),
        ints(out.2@) == window_strides(sels@, ints(strides@)),
{
    let ghost st = ints(strides@);
    let ghost s = ints(shape@);
    let mut offset: usize = 0;
    let mut new_shape: Vec<usize> = Vec::new();
    let mut new_strides: Vec<usize> = Vec::new();
    let mut d: usize = 0;
    assert(sels@.skip(0) =~= sels@);
    assert(st.skip(0) =~= st);
    assert(s.skip(0) =~= s);
    proof {
        lemma_kept_len(sels@, st);
    }
    while d < sels.len()
        invariant
            st == ints(strides@),
            s == ints(shape@),
            sel_valid(sels@, s),
            st.len() == s.len(),
            d <= sels@.len(),
            sel_offset(sels@, st) <= usize::MAX,
            offset + sel_offset(sels@.skip(d as int), st.skip(d as int)) == sel_offset(sels@, st),
            ints(new_shape@) + kept_shape(sels@.skip(d as int)) == kept_shape(sels@),
            ints(new_strides@) + kept_strides(sels@.skip(d as int), st.skip(d as int)) == kept_strides(sels@, st),
        decreases sels@.len() - d,
    {
        let ghost rest_sels = sels@.skip(d as int + 1);
        let ghost rest_st = st.skip(d as int + 1);
        proof {
            assert(sels@.skip(d as int).drop_first() =~= rest_sels);
            assert(st.skip(d as int).drop_first() =~= rest_st);
            assert(sels@.skip(d as int)[0] == sels@[d as int]);
            lemma_sel_offset_nonneg(rest_sels, rest_st);
            assert(sels@[d as int] == sels@[d as int]);
            assert(sel_start(sels@[d as int]) * st[d as int] >= 0) by (nonlinear_arith)
                requires
                    sel_start(sels@[d as int]) >= 0,
                    st[d as int] >= 0,
            ;
        }
        match sels[d] {
            AxisSel::Index(i) => {
                offset = offset + i * strides[d];
            },
            AxisSel::Range(a, b) => {
                offset = offset + a * strides[d];
                let ghost prev = new_shape@;
                new_shape.push(b - a);
                new_strides.push(strides[d]);
                proof {
                    assert(ints(new_shape@) =~= ints(prev).push(b - a));
                }
            },
        }
        proof {
            assert(ints(new_shape@) + kept_shape(rest_sels) =~= kept_shape(sels@));
            assert(ints(new_strides@) + kept_strides(rest_sels, rest_st) =~= kept_strides(sels@, st));
        }
        d = d + 1;
    }
    assert(sels@.skip(sels@.len() as int) =~= Seq::<AxisSel>::empty());
    assert(ints(new_shape@) =~= kept_shape(sels@));
    assert(ints(new_strides@) =~= kept_strides(sels@, st));
    if new_shape.len() == 0 {
        new_shape.push(1);
        new_strides.push(1);
        assert(ints(new_shape@) =~= seq![1int]);
        assert(ints(new_strides@) =~= seq![1int]);
    }
    (offset, new_shape, new_strides)
}

proof fn lemma_sel_offset_nonneg(sels: Seq<AxisSel>, strides: Seq<int>)
    requires
        nonneg(strides),
        strides.len() >= sels.len(),
    ensures
        sel_offset(sels, strides) >= 0,
    decreases sels.len(),
{
    if sels.len() > 0 {
        assert(nonneg(strides.drop_first())) by {
            assert forall|i: int| 0 <= i < strides.drop_first().len() implies #[trigger] strides.drop_first()[i] >= 0 by {
                assert(strides.drop_first()[i] == strides[i + 1]);
            }
        }
        lemma_sel_offset_nonneg(sels.drop_first(), strides.drop_first());
        assert(sels[0] == sels[0]);
        assert(sel_start(sels[0]) * strides[0] >= 0) by (nonlinear_arith)
            requires
                sel_start(sels[0]) >= 0,
                strides[0] >= 0,
        ;
    }
}

/// Offsets of a selection over a non-negative stride pattern are
/// non-negative.
pub proof fn lemma_selection_offset_nonneg(sels: Seq<AxisSel>, strides: Seq<int>)
    requires
        nonneg(strides),
        strides.len() >= sels.len(),
    ensures
        sel_offset(sels, strides) >= 0,
{
    lemma_sel_offset_nonneg(sels, strides);
}


/// A valid selection starts no further than the sum of each axis extent
/// times its stride.
pub proof fn lemma_sel_offset_le(sels: Seq<AxisSel>, shape: Seq<int>, strides: Seq<int>)
    requires
        sel_valid(sels, shape),
        strides.len() == shape.len(),
        nonneg(strides),
    ensures
        0 <= sel_offset(sels, strides) <= dot(shape, strides),
    decreases sels.len(),
{
    if sels.len() > 0 {
        lemma_sel_rest(sels, shape);
        lemma_sel_offset_le(sels.drop_first(), shape.drop_first(), strides.drop_first());
        let a = sel_start(sels[0]);
        let n = shape[0];
        let st = strides[0];
        assert(0 <= a <= n) by {
            assert(match sels[0] {
                AxisSel::Index(i) => i < shape[0],
                AxisSel::Range(x, y) => x <= y && y <= shape[0],
            });
        }
        assert(st >= 0);
        assert(0 <= a * st <= n * st) by (nonlinear_arith)
            requires
                0 <= a <= n,
                st >= 0,
        ;
    }
}

/// Full ranges on every axis select the whole layout.
pub proof fn lemma_full_ranges(sels: Seq<AxisSel>, s: Seq<int>, st: Seq<int>)
    requires
        sels.len() == s.len(),
        st.len() == s.len(),
        nonneg(s),
        forall|e: int| 0 <= e < s.len() ==> s[e] <= usize::MAX,
        forall|e: int| 0 <= e < sels.len() ==> #[trigger] sels[e] == AxisSel::Range(0, s[e] as usize),
    ensures
        kept_shape(sels) == s,
        kept_strides(sels, st) == st,
        sel_offset(sels, st) == 0,
    decreases sels.len(),
{
    if sels.len() > 0 {
        let rest = sels.drop_first();
        assert forall|e: int| 0 <= e < rest.len() implies #[trigger] rest[e] == AxisSel::Range(0, s.drop_first()[e] as usize) by {
            assert(rest[e] == sels[e + 1]);
        }
        assert(nonneg(s.drop_first())) by {
            assert forall|i: int| 0 <= i < s.drop_first().len() implies #[trigger] s.drop_first()[i] >= 0 by {
                assert(s.drop_first()[i] == s[i + 1]);
            }
        }
        lemma_full_ranges(rest, s.drop_first(), st.drop_first());
        assert(sels[0] == AxisSel::Range(0, s[0] as usize));
        assert(sel_start(sels[0]) == 0);
        assert(sel_offset(sels, st) == sel_start(sels[0]) * st[0] + sel_offset(rest, st.drop_first()));
        assert(kept_shape(sels) =~= s);
        assert(kept_strides(sels, st) =~= st);
    } else {
        assert(kept_shape(sels) =~= s);
        assert(kept_strides(sels, st) =~= st);
    }
}

/// Full ranges map every index to itself.
pub proof fn lemma_full_ranges_expand(sels: Seq<AxisSel>, s: Seq<int>, j: Seq<int>)
    requires
        sels.len() == s.len(),
        nonneg(s),
        forall|e: int| 0 <= e < s.len() ==> s[e] <= usize::MAX,
        forall|e: int| 0 <= e < sels.len() ==> #[trigger] sels[e] == AxisSel::Range(0, s[e] as usize),
        j.len() == s.len(),
    ensures
        expand(sels, j) == j,
    decreases sels.len(),
{
    if sels.len() > 0 {
        let rest = sels.drop_first();
        assert forall|e: int| 0 <= e < rest.len() implies #[trigger] rest[e] == AxisSel::Range(0, s.drop_first()[e] as usize) by {
            assert(rest[e] == sels[e + 1]);
        }
        assert(nonneg(s.drop_first())) by {
            assert forall|i: int| 0 <= i < s.drop_first().len() implies #[trigger] s.drop_first()[i] >= 0 by {
                assert(s.drop_first()[i] == s[i + 1]);
            }
        }
        lemma_full_ranges_expand(rest, s.drop_first(), j.drop_first());
        assert(sels[0] == AxisSel::Range(0, s[0] as usize));
        assert(expand(sels, j) =~= j);
    } else {
        assert(expand(sels, j) =~= j);
    }
}

} // verus!
