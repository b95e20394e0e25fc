//! # Consolidation
//!
//! Materialising chunked data into one contiguous container, and the
//! null-mask bookkeeping that goes with concatenating validity masks.

use vstd::prelude::*;

use crate::error::MinarrowError;
use crate::ndarray::NdArray;
use crate::super_ndarray::SuperNdArray;
use crate::super_ndarray_view::SuperNdArrayV;

verus! {

/// Materialises chunked data into contiguous storage.
pub trait Consolidate: Sized {
    /// The consolidated container.
    type Output;

    /// `self` can be consolidated.
    spec fn can_consolidate(&self) -> bool;

    /// `out` holds exactly the contents of `self`.
    spec fn consolidates_to(&self, out: &Self::Output) -> bool;

    /// Consolidates into contiguous storage, consuming `self`.
    fn consolidate(self) -> (out: Self::Output)
        requires
            self.can_consolidate(),
        ensures
            self.consolidates_to(&out),
    ;
}

impl<T: Copy> Consolidate for SuperNdArray<T> {
    type Output = NdArray<T>;

    open spec fn can_consolidate(&self) -> bool {
        self.wf()
    }

    open spec fn consolidates_to(&self, out: &NdArray<T>) -> bool {
        &&& out.wf()
        &&& out.compact()
        &&& out.shape_s() == self.full_shape()
        &&& out.values() == self.values()
        &&& out.name matches Some(nm) && nm@ == self.name@
    }

    fn consolidate(self) -> (out: NdArray<T>) {
        SuperNdArray::consolidate(self)
    }
}

impl<T: Copy> Consolidate for SuperNdArrayV<T> {
    type Output = NdArray<T>;

    open spec fn can_consolidate(&self) -> bool {
        self.wf()
    }

    open spec fn consolidates_to(&self, out: &NdArray<T>) -> bool {
        &&& out.wf()
        &&& out.compact()
        &&& self.slices@.len() == 0 ==> out.shape_s() == seq![0int]
        &&& self.slices@.len() > 0 ==> out.shape_s() == self.full_shape()
        &&& out.values() == self.values()
        &&& out.name is None
    }

    fn consolidate(self) -> (out: NdArray<T>) {
        SuperNdArrayV::consolidate(self)
    }
}

/// `n` copies of `true`.
pub open spec fn all_valid(n: int) -> Seq<bool> {
    Seq::new(n as nat, |i: int| true)
}

/// The validity bits `offset .. offset + len` of a source mask.
pub open spec fn mask_range(src: Seq<bool>, offset: int, len: int) -> Seq<bool> {
    src.subrange(offset, offset + len)
}

/// Extends a result validity mask (`true` marks a valid value) by `len`
/// values taken from a source at `offset`. A missing mask means every
/// value is valid, so:
/// - both masks present: the source's bits for the range are appended;
/// - only the result's: `len` valid bits are appended;
/// - only the source's: a mask is created with the result's `result_len`
///   values valid, followed by the source's bits for the range;
/// - neither: nothing changes.
pub fn extend_null_mask(
    result_mask: &mut Option<Vec<bool>>,
    result_len: usize,
    source_mask: Option<&Vec<bool>>,
    offset: usize,
    len: usize,
)
    requires
        source_mask matches Some(src) ==> offset + len <= src@.len(),
    ensures
        match (*old(result_mask), source_mask) {
            (Some(m), Some(src)) => (*final(result_mask)) is Some && (*final(result_mask))->Some_0@ == m@ + mask_range(
                src@,
                offset as int,
                len as int,
            ),
            (Some(m), None) => (*final(result_mask)) is Some && (*final(result_mask))->Some_0@ == m@ + all_valid(
                len as int,
            ),
            (None, Some(src)) => (*final(result_mask)) is Some && (*final(result_mask))->Some_0@ == all_valid(
                result_len as int,
            ) + mask_range(src@, offset as int, len as int),
            (None, None) => (*final(result_mask)) is None,
        },
{
    match source_mask {
        Some(src) => {
            let mut mask: Vec<bool> = match result_mask.take() {
                Some(m) => m,
                None => {
                    let mut fresh: Vec<bool> = Vec::new();
                    let mut i: usize = 0;
                    while i < result_len
                        invariant
                            i <= result_len,
                            fresh@ == all_valid(i as int),
                        decreases result_len - i,
                    {
                        fresh.push(true);
                        i = i + 1;
                        assert(fresh@ =~= all_valid(i as int));
                    }
                    fresh
                },
            };
            let ghost start = mask@;
            let _n = src.len();
            let mut i: usize = 0;
            while i < len
                invariant
                    offset + len <= src@.len(),
                    src@.len() <= usize::MAX,
                    i <= len,
                    mask@ == start + mask_range(src@, offset as int, i as int),
                decreases len - i,
            {
                mask.push(src[offset + i]);
                i = i + 1;
                assert(mask@ =~= start + mask_range(src@, offset as int, i as int));
            }
            *result_mask = Some(mask);
        },
        None => {
            match result_mask {
                Some(mask) => {
                    let ghost start = mask@;
                    let mut i: usize = 0;
                    while i < len
                        invariant
                            i <= len,
                            mask@ == start + all_valid(i as int),
                        decreases len - i,
                    {
                        mask.push(true);
                        i = i + 1;
                        assert(mask@ =~= start + all_valid(i as int));
                    }
                },
                None => {},
            }
        },
    }
}


/// Builds a new container from `elements`, taking the name, metadata and
/// grouping of `self`.
pub trait Combine {
    /// What the container is made of.
    type Element;

    /// The container that is built.
    type Output;

    /// The container made of `elements`, with `self`'s name, metadata and
    /// grouping.
    fn combine(&self, elements: Vec<Self::Element>) -> Result<Self::Output, MinarrowError>;
}

} // verus!
