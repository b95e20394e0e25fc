//! # CategoricalArray - dictionary-encoded strings
//!
//! Each value is a code into a dictionary of unique strings; only the codes
//! are stored per row. A validity mask (`true` marks a valid row) is
//! optional; decoding never reads the code at a null row, and the
//! operations that remap codes say in their contracts what they do with it.
//!
//! Interning a string looks it up in the dictionary and uses the position
//! of its first occurrence, appending it when absent. The contracts speak
//! of the decoded values: row `i` is `Some(dictionary[code])` or `None`
//! when null.

use vstd::prelude::*;

use crate::consolidate::{all_valid, extend_null_mask, mask_range, Consolidate};
use crate::error::{append_usize, decimal, MinarrowError};
use crate::ndarray::{Shape, ShapeDim};
use crate::text::str_eq;

verus! {

/// An unsigned integer type that codes dictionary positions.
pub trait CategoryCode: Copy + Sized {
    /// The position the code stands for.
    spec fn code(&self) -> nat;

    /// How many positions the type can code.
    spec fn n_codes() -> nat;

    /// The code of position 0.
    fn zero() -> (c: Self)
        ensures
            c.code() == 0,
    ;

    /// The position as a `usize`.
    fn to_index(&self) -> (i: usize)
        requires
            self.code() <= usize::MAX,
        ensures
            i == self.code(),
    ;

    /// Whether the position is below `n`.
    fn below(&self, n: usize) -> (b: bool)
        ensures
            b == (self.code() < n),
    ;

    /// The code of position `i`, when the type can hold it.
    fn from_index(i: usize) -> (r: Option<Self>)
        ensures
            r is Some <==> i < Self::n_codes(),
            r matches Some(c) ==> c.code() == i,
    ;

    /// How many positions the type can code, or `limit` when that is
    /// fewer.
    fn codes_up_to(limit: usize) -> (n: usize)
        ensures
            n == if Self::n_codes() < limit {
                Self::n_codes()
            } else {
                limit as nat
            },
    ;
}

impl CategoryCode for u8 {
    open spec fn code(&self) -> nat {
        *self as nat
    }

    open spec fn n_codes() -> nat {
        0x100
    }

    fn zero() -> (c: Self) {
        0
    }

    fn to_index(&self) -> (i: usize) {
        *self as usize
    }

    fn below(&self, n: usize) -> (b: bool) {
        (*self as u64) < (n as u64)
    }

    fn from_index(i: usize) -> (r: Option<Self>) {
        if i < 0x100 {
            Some(i as u8)
        } else {
            None
        }
    }

    fn codes_up_to(limit: usize) -> (n: usize) {
        if limit > 0x100 {
            0x100
        } else {
            limit
        }
    }
}

impl CategoryCode for u16 {
    open spec fn code(&self) -> nat {
        *self as nat
    }

    open spec fn n_codes() -> nat {
        0x1_0000
    }

    fn zero() -> (c: Self) {
        0
    }

    fn to_index(&self) -> (i: usize) {
        *self as usize
    }

    fn below(&self, n: usize) -> (b: bool) {
        (*self as u64) < (n as u64)
    }

    fn from_index(i: usize) -> (r: Option<Self>) {
        if i < 0x1_0000 {
            Some(i as u16)
        } else {
            None
        }
    }

    fn codes_up_to(limit: usize) -> (n: usize) {
        if limit > 0x1_0000 {
            0x1_0000
        } else {
            limit
        }
    }
}

impl CategoryCode for u32 {
    open spec fn code(&self) -> nat {
        *self as nat
    }

    open spec fn n_codes() -> nat {
        0x1_0000_0000
    }

    fn zero() -> (c: Self) {
        0
    }

    fn to_index(&self) -> (i: usize) {
        *self as usize
    }

    fn below(&self, n: usize) -> (b: bool) {
        (*self as u64) < (n as u64)
    }

    fn from_index(i: usize) -> (r: Option<Self>) {
        if i as u64 <= 0xffff_ffff {
            Some(i as u32)
        } else {
            None
        }
    }

    fn codes_up_to(limit: usize) -> (n: usize) {
        if limit as u64 > 0xffff_ffff {
            let top: usize = 0xffff_ffff;
            top + 1
        } else {
            limit
        }
    }
}

impl CategoryCode for u64 {
    open spec fn code(&self) -> nat {
        *self as nat
    }

    open spec fn n_codes() -> nat {
        0x1_0000_0000_0000_0000
    }

    fn zero() -> (c: Self) {
        0
    }

    fn to_index(&self) -> (i: usize) {
        *self as usize
    }

    fn below(&self, n: usize) -> (b: bool) {
        *self < (n as u64)
    }

    fn from_index(i: usize) -> (r: Option<Self>) {
        Some(i as u64)
    }

    fn codes_up_to(limit: usize) -> (n: usize) {
        limit
    }
}

/// The largest dictionary a shared dictionary takes for wide code types.
pub const DEFAULT_WIDE_CAP: usize = 0x10_0000;

/// The capacity of a dictionary coded by `T`: every position the type can
/// code, at most `DEFAULT_WIDE_CAP`.
pub fn max_cap<T: CategoryCode>() -> (n: usize)
    ensures
        n == if T::n_codes() < DEFAULT_WIDE_CAP {
            T::n_codes()
        } else {
            DEFAULT_WIDE_CAP as nat
        },
{
    T::codes_up_to(DEFAULT_WIDE_CAP)
}

/// The strings a dictionary holds.
pub open spec fn texts(d: Seq<String>) -> Seq<Seq<char>> {
    d.map_values(|s: String| s@)
}

/// Position of the first occurrence of `v` in `d`, or `d.len()` when it
/// does not occur: the code that interning `v` gives.
pub open spec fn pos_in(d: Seq<Seq<char>>, v: Seq<char>) -> nat
    decreases d.len(),
{
    if d.len() == 0 {
        0
    } else if d[0] == v {
        0
    } else {
        1 + pos_in(d.drop_first(), v)
    }
}

/// The dictionary after interning `v`: unchanged when `v` occurs, else
/// with `v` appended.
pub open spec fn interned(d: Seq<Seq<char>>, v: Seq<char>) -> Seq<Seq<char>> {
    if pos_in(d, v) < d.len() {
        d
    } else {
        d.push(v)
    }
}

/// The position of the first occurrence is one where `v` stands and before
/// which it does not.
pub proof fn lemma_pos_in(d: Seq<Seq<char>>, v: Seq<char>)
    ensures
        pos_in(d, v) <= d.len(),
        pos_in(d, v) < d.len() ==> d[pos_in(d, v) as int] == v,
        forall|q: int| 0 <= q < pos_in(d, v) ==> d[q] != v,
    decreases d.len(),
{
    if d.len() > 0 && d[0] != v {
        lemma_pos_in(d.drop_first(), v);
        assert forall|q: int| 0 <= q < pos_in(d, v) implies d[q] != v by {
            if q > 0 {
                assert(d[q] == d.drop_first()[q - 1]);
            }
        }
    }
}

/// A position before which `v` does not stand, and at which it stands or
/// the dictionary ends, is the first occurrence.
pub proof fn lemma_pos_in_at(d: Seq<Seq<char>>, v: Seq<char>, p: int)
    requires
        0 <= p <= d.len(),
        forall|q: int| 0 <= q < p ==> d[q] != v,
        p < d.len() ==> d[p] == v,
    ensures
        pos_in(d, v) == p,
    decreases d.len(),
{
    if d.len() > 0 && p > 0 {
        assert(d[0] != v);
        assert forall|q: int| 0 <= q < p - 1 implies d.drop_first()[q] != v by {
            assert(d.drop_first()[q] == d[q + 1]);
        }
        if p - 1 < d.drop_first().len() {
            assert(d.drop_first()[p - 1] == d[p]);
        }
        lemma_pos_in_at(d.drop_first(), v, p - 1);
    }
}

/// Interning keeps every existing entry and places `v` at its code.
pub proof fn lemma_interned(d: Seq<Seq<char>>, v: Seq<char>)
    ensures
        interned(d, v).len() == d.len() || interned(d, v).len() == d.len() + 1,
        d.is_prefix_of(interned(d, v)),
        pos_in(d, v) < interned(d, v).len(),
        interned(d, v)[pos_in(d, v) as int] == v,
{
    lemma_pos_in(d, v);
    assert(d.is_prefix_of(interned(d, v))) by {
        assert forall|i: int| 0 <= i < d.len() implies interned(d, v)[i] == d[i] by {}
    }
}

/// Interns `value` in `dict` and returns its code: the position of its
/// first occurrence, or the new last position when it was absent.
fn add_category<T: CategoryCode>(dict: &mut Vec<String>, value: &str) -> (c: T)
    requires
        pos_in(texts(old(dict)@), value@) < T::n_codes(),
    ensures
        c.code() == pos_in(texts(old(dict)@), value@),
        texts(final(dict)@) == interned(texts(old(dict)@), value@),
{
    let ghost d = texts(dict@);
    proof {
        lemma_pos_in(d, value@);
    }
    let n = dict.len();
    let mut i: usize = 0;
    while i < n
        invariant
            n == dict@.len(),
            d == texts(dict@),
            i <= n,
            forall|q: int| 0 <= q < i ==> d[q] != value@,
            pos_in(d, value@) < T::n_codes(),
        decreases n - i,
    {
        if str_eq(dict[i].as_str(), value) {
            proof {
                lemma_pos_in_at(d, value@, i as int);
            }
            let code = T::from_index(i);
            return code.unwrap();
        }
        i = i + 1;
    }
    proof {
        lemma_pos_in_at(d, value@, n as int);
    }
    let code = T::from_index(n);
    dict.push(value.to_owned());
    proof {
        assert(texts(dict@) =~= d.push(value@));
    }
    code.unwrap()
}

/// Validity bits of `n` rows: the mask, or all valid without one.
pub open spec fn mask_bits(mask: Option<Vec<bool>>, n: nat) -> Seq<bool> {
    match mask {
        Some(m) => m@,
        None => Seq::new(n, |i: int| true),
    }
}

/// Number of `false` bits.
pub open spec fn count_false(bits: Seq<bool>) -> nat
    decreases bits.len(),
{
    if bits.len() == 0 {
        0
    } else {
        count_false(bits.drop_last()) + if bits.last() {
            0nat
        } else {
            1nat
        }
    }
}

/// The dictionary that interning the valid strings of `vals`, in order,
/// builds from `start`.
pub open spec fn dict_after(start: Seq<Seq<char>>, vals: Seq<Seq<char>>, valid: Seq<bool>) -> Seq<Seq<char>>
    decreases vals.len(),
{
    if vals.len() == 0 {
        start
    } else {
        let d = dict_after(start, vals.drop_last(), valid);
        if valid[vals.len() - 1] {
            interned(d, vals.last())
        } else {
            d
        }
    }
}

/// The decoded rows of strings with validity bits.
pub open spec fn decoded(vals: Seq<Seq<char>>, valid: Seq<bool>) -> Seq<Option<Seq<char>>> {
    Seq::new(vals.len(), |i: int| if valid[i] { Some(vals[i]) } else { None })
}

/// Interning again finds the same code and leaves the dictionary as it is.
pub proof fn law_intern_idempotent(d: Seq<Seq<char>>, v: Seq<char>)
    ensures
        pos_in(interned(d, v), v) == pos_in(d, v),
        interned(interned(d, v), v) == interned(d, v),
{
    lemma_pos_in(d, v);
    let e = interned(d, v);
    lemma_interned(d, v);
    assert forall|q: int| 0 <= q < pos_in(d, v) implies e[q] != v by {
        assert(e[q] == d[q]);
    }
    lemma_pos_in_at(e, v, pos_in(d, v) as int);
}

/// Interned dictionaries only grow, each by at most one entry per value.
pub proof fn lemma_dict_after_grows(start: Seq<Seq<char>>, vals: Seq<Seq<char>>, valid: Seq<bool>, k: int)
    requires
        0 <= k <= vals.len(),
    ensures
        dict_after(start, vals.take(k), valid).len() <= dict_after(start, vals, valid).len(),
        start.is_prefix_of(dict_after(start, vals, valid)),
        dict_after(start, vals.take(k), valid).is_prefix_of(dict_after(start, vals, valid)),
    decreases vals.len(),
{
    if vals.len() > 0 {
        let prev = vals.drop_last();
        let d = dict_after(start, prev, valid);
        lemma_interned(d, vals.last());
        if k == vals.len() {
            assert(vals.take(k) =~= vals);
            lemma_dict_after_grows(start, prev, valid, prev.len() as int);
        } else {
            assert(vals.take(k) =~= prev.take(k));
            lemma_dict_after_grows(start, prev, valid, k);
        }
        let full = dict_after(start, vals, valid);
        assert(d.is_prefix_of(full));
        let dk = dict_after(start, vals.take(k), valid);
        assert(dk.is_prefix_of(full)) by {
            if k < vals.len() {
                assert(dk.is_prefix_of(d));
            }
        }
        assert(start.is_prefix_of(full)) by {
            assert(start.is_prefix_of(d));
        }
    } else {
        assert(vals.take(k) =~= vals);
    }
}

/// The strings of a slice of string slices.
pub open spec fn strs(v: Seq<&str>) -> Seq<Seq<char>> {
    v.map_values(|s: &str| s@)
}

/// A copy of a dictionary.
fn copy_dict(d: &Vec<String>) -> (out: Vec<String>)
    ensures
        out@ == d@,
{
    let mut out: Vec<String> = Vec::new();
    let mut i: usize = 0;
    while i < d.len()
        invariant
            i <= d@.len(),
            out@ == d@.take(i as int),
        decreases d@.len() - i,
    {
        out.push(d[i].clone());
        i = i + 1;
        assert(out@ =~= d@.take(i as int));
    }
    assert(d@.take(d@.len() as int) =~= d@);
    out
}

/// `n` valid bits.
fn valid_bits(n: usize) -> (out: Vec<bool>)
    ensures
        out@ == all_valid(n as int),
{
    let mut out: Vec<bool> = Vec::new();
    let mut i: usize = 0;
    while i < n
        invariant
            i <= n,
            out@ == all_valid(i as int),
        decreases n - i,
    {
        out.push(true);
        i = i + 1;
        assert(out@ =~= all_valid(i as int));
    }
    out
}

/// Interning the next value of a run whose whole dictionary fits the code
/// type finds a code the type can hold.
pub proof fn lemma_next_code_fits<T: CategoryCode>(
    start: Seq<Seq<char>>,
    vals: Seq<Seq<char>>,
    valid: Seq<bool>,
    k: int,
)
    requires
        0 <= k < vals.len(),
        valid[k],
        dict_after(start, vals, valid).len() <= T::n_codes(),
    ensures
        pos_in(dict_after(start, vals.take(k), valid), vals[k]) < T::n_codes(),
        dict_after(start, vals.take(k + 1), valid) == interned(dict_after(start, vals.take(k), valid), vals[k]),
{
    let d = dict_after(start, vals.take(k), valid);
    assert(vals.take(k + 1).drop_last() =~= vals.take(k));
    lemma_dict_after_grows(start, vals, valid, k + 1);
    lemma_interned(d, vals[k]);
    lemma_pos_in(d, vals[k]);
}

/// A null value leaves the dictionary of a run as it is.
pub proof fn lemma_next_null(start: Seq<Seq<char>>, vals: Seq<Seq<char>>, valid: Seq<bool>, k: int)
    requires
        0 <= k < vals.len(),
        !valid[k],
    ensures
        dict_after(start, vals.take(k + 1), valid) == dict_after(start, vals.take(k), valid),
{
    assert(vals.take(k + 1).drop_last() =~= vals.take(k));
}

/// Dictionary-encoded strings: per-row codes, the dictionary of unique
/// strings, and an optional validity mask.
#[derive(Clone, Debug, Default, PartialEq)]
pub struct CategoricalArray<T> {
    /// Codes into `unique_values`, one per row.
    pub data: Vec<T>,
    /// The dictionary.
    pub unique_values: Vec<String>,
    /// Validity per row (`true` = valid); `None` when every row is valid.
    pub null_mask: Option<Vec<bool>>,
}

impl<T: CategoryCode> CategoricalArray<T> {
    /// Number of rows.
    pub open spec fn len_s(&self) -> nat {
        self.data@.len()
    }

    /// The dictionary's strings.
    pub open spec fn dict(&self) -> Seq<Seq<char>> {
        texts(self.unique_values@)
    }

    /// Row `i` is valid.
    pub open spec fn valid_at(&self, i: int) -> bool {
        match self.null_mask {
            Some(m) => m@[i],
            None => true,
        }
    }

    /// Well-formed: the mask covers every row, and every valid row's code
    /// lies inside the dictionary.
    pub open spec fn wf(&self) -> bool {
        &&& self.null_mask matches Some(m) ==> m@.len() == self.data@.len()
        &&& forall|i: int|
            0 <= i < self.data@.len() && self.valid_at(i) ==> (#[trigger] self.data@[i]).code()
                < self.unique_values@.len()
    }

    /// Decoded row `i`: its string, or `None` when null.
    pub open spec fn value_at(&self, i: int) -> Option<Seq<char>> {
        if self.valid_at(i) {
            Some(self.dict()[self.data@[i].code() as int])
        } else {
            None
        }
    }

    /// Every row decoded.
    pub open spec fn values(&self) -> Seq<Option<Seq<char>>> {
        Seq::new(self.data@.len(), |i: int| self.value_at(i))
    }

    /// Number of rows.
    pub fn len(&self) -> (n: usize)
        ensures
            n == self.len_s(),
    {
        self.data.len()
    }

    /// `true` when there are no rows.
    pub fn is_empty(&self) -> (b: bool)
        ensures
            b == (self.len_s() == 0),
    {
        self.data.len() == 0
    }

    /// The dictionary.
    pub fn unique_values(&self) -> (s: &[String])
        ensures
            s@ == self.unique_values@,
    {
        self.unique_values.as_slice()
    }

    /// The codes, one per row.
    pub fn indices(&self) -> (s: &[T])
        ensures
            s@ == self.data@,
    {
        self.data.as_slice()
    }

    /// `true` when row `idx` is null.
    pub fn is_null(&self, idx: usize) -> (b: bool)
        requires
            self.wf(),
            idx < self.len_s(),
        ensures
            b == !self.valid_at(idx as int),
    {
        match &self.null_mask {
            Some(m) => !m[idx],
            None => false,
        }
    }

    /// The string at row `idx`, or `None` when the row is null.
    pub fn get_str(&self, idx: usize) -> (r: Option<&str>)
        requires
            self.wf(),
            idx < self.len_s(),
        ensures
            r is None <==> self.value_at(idx as int) is None,
            r matches Some(s) ==> self.value_at(idx as int) == Some(s@),
    {
        if self.is_null(idx) {
            return None;
        }
        let _n = self.unique_values.len();
        assert(self.data@[idx as int].code() < self.unique_values@.len());
        let k = self.data[idx].to_index();
        proof {
            assert(self.dict()[k as int] == self.unique_values@[k as int]@);
        }
        Some(self.unique_values[k].as_str())
    }

    /// As `get_str`.
    pub fn get(&self, idx: usize) -> (r: Option<&str>)
        requires
            self.wf(),
            idx < self.len_s(),
        ensures
            r is None <==> self.value_at(idx as int) is None,
            r matches Some(s) ==> self.value_at(idx as int) == Some(s@),
    {
        self.get_str(idx)
    }
}


impl<T: CategoryCode> CategoricalArray<T> {
    /// From codes, a dictionary and an optional validity mask. Every valid
    /// row's code lies inside the dictionary; null rows may hold any code.
    pub fn new(data: Vec<T>, unique_values: Vec<String>, null_mask: Option<Vec<bool>>) -> (out: Self)
        requires
            null_mask matches Some(m) ==> m@.len() == data@.len(),
            forall|i: int|
                0 <= i < data@.len() && mask_bits(null_mask, data@.len())[i] ==> (#[trigger] data@[i]).code()
                    < unique_values@.len(),
        ensures
            out.wf(),
            out.data == data,
            out.unique_values == unique_values,
            out.null_mask == null_mask,
    {
        let out = CategoricalArray { data, unique_values, null_mask };
        proof {
            assert forall|i: int| 0 <= i < out.data@.len() && out.valid_at(i) implies (#[trigger] out.data@[i]).code()
                < out.unique_values@.len() by {
                assert(mask_bits(null_mask, data@.len())[i]);
            }
        }
        out
    }

    /// From raw parts, as given.
    pub fn new_unchecked(data: Vec<T>, unique_values: Vec<String>, null_mask: Option<Vec<bool>>) -> (out: Self)
        ensures
            out.data == data,
            out.unique_values == unique_values,
            out.null_mask == null_mask,
    {
        CategoricalArray { data, unique_values, null_mask }
    }

    /// From raw parts, as given.
    pub fn from_parts(indices: Vec<T>, unique_values: Vec<String>, null_mask: Option<Vec<bool>>) -> (out: Self)
        ensures
            out.data == indices,
            out.unique_values == unique_values,
            out.null_mask == null_mask,
    {
        CategoricalArray { data: indices, unique_values, null_mask }
    }

    /// No rows, room for `cap`, the given dictionary (or an empty one), and
    /// an empty validity mask when `null_mask` is set.
    pub fn with_capacity(cap: usize, unique_values: Option<Vec<String>>, null_mask: bool) -> (out: Self)
        ensures
            out.wf(),
            out.len_s() == 0,
            unique_values matches Some(u) ==> out.unique_values == u,
            unique_values is None ==> out.unique_values@ == Seq::<String>::empty(),
            out.null_mask is Some <==> null_mask,
    {
        let uv = match unique_values {
            Some(u) => u,
            None => Vec::new(),
        };
        let mask = if null_mask {
            Some(Vec::new())
        } else {
            None
        };
        CategoricalArray { data: Vec::with_capacity(cap), unique_values: uv, null_mask: mask }
    }

    /// From codes and a dictionary, every code inside it; no nulls.
    pub fn from_slices(indices: &[T], unique_values: &[String]) -> (out: Self)
        requires
            forall|i: int| 0 <= i < indices@.len() ==> (#[trigger] indices@[i]).code() < unique_values@.len(),
        ensures
            out.wf(),
            out.data@ == indices@,
            out.unique_values@ == unique_values@,
            out.null_mask is None,
    {
        let mut uv: Vec<String> = Vec::new();
        let mut i: usize = 0;
        while i < unique_values.len()
            invariant
                i <= unique_values@.len(),
                uv@ == unique_values@.take(i as int),
            decreases unique_values@.len() - i,
        {
            uv.push(unique_values[i].clone());
            i = i + 1;
            assert(uv@ =~= unique_values@.take(i as int));
        }
        assert(unique_values@.take(unique_values@.len() as int) =~= unique_values@);
        CategoricalArray { data: vstd::slice::slice_to_vec(indices), unique_values: uv, null_mask: None }
    }

    /// Appends `value`, interning it. Returns the code used.
    pub fn push_str(&mut self, value: &str) -> (c: T)
        requires
            old(self).wf(),
            pos_in(old(self).dict(), value@) < T::n_codes(),
        ensures
            final(self).wf(),
            c.code() == pos_in(old(self).dict(), value@),
            final(self).dict() == interned(old(self).dict(), value@),
            final(self).values() == old(self).values().push(Some(value@)),
            final(self).null_mask is Some <==> old(self).null_mask is Some,
    {
        let ghost old_self = *self;
        let c: T = add_category(&mut self.unique_values, value);
        self.data.push(c);
        match self.null_mask.take() {
            Some(mut m) => {
                m.push(true);
                self.null_mask = Some(m);
            },
            None => {},
        }
        proof {
            lemma_interned(old_self.dict(), value@);
            self.lemma_grown_rows(&old_self);
            assert(self.values() =~= old_self.values().push(Some(value@)));
        }
        c
    }

    /// Appends `value`, interning it.
    pub fn push(&mut self, value: String)
        requires
            old(self).wf(),
            pos_in(old(self).dict(), value@) < T::n_codes(),
        ensures
            final(self).wf(),
            final(self).dict() == interned(old(self).dict(), value@),
            final(self).values() == old(self).values().push(Some(value@)),
    {
        self.push_str(value.as_str());
    }

    /// Appends a null row.
    pub fn push_null(&mut self)
        requires
            old(self).wf(),
        ensures
            final(self).wf(),
            final(self).unique_values == old(self).unique_values,
            final(self).values() == old(self).values().push(None),
            final(self).null_mask is Some,
    {
        let ghost old_self = *self;
        let n = self.data.len();
        let mut m = match self.null_mask.take() {
            Some(m) => m,
            None => valid_bits(n),
        };
        m.push(false);
        self.data.push(T::zero());
        self.null_mask = Some(m);
        proof {
            assert forall|i: int| 0 <= i < n implies self.valid_at(i) == old_self.valid_at(i) by {}
            self.lemma_grown_rows(&old_self);
            assert(self.values() =~= old_self.values().push(None));
        }
    }

    /// Sets row `idx` to `value`, interning it, and marks the row valid.
    pub fn set_str(&mut self, idx: usize, value: &str)
        requires
            old(self).wf(),
            idx < old(self).len_s(),
            pos_in(old(self).dict(), value@) < T::n_codes(),
        ensures
            final(self).wf(),
            final(self).dict() == interned(old(self).dict(), value@),
            final(self).values() == old(self).values().update(idx as int, Some(value@)),
            final(self).null_mask is Some <==> old(self).null_mask is Some,
    {
        let ghost old_self = *self;
        let c: T = add_category(&mut self.unique_values, value);
        self.data.set(idx, c);
        match self.null_mask.take() {
            Some(mut m) => {
                m.set(idx, true);
                self.null_mask = Some(m);
            },
            None => {},
        }
        proof {
            lemma_interned(old_self.dict(), value@);
            assert forall|i: int| 0 <= i < self.data@.len() && self.valid_at(i) implies (#[trigger] self.data@[i]).code()
                < self.unique_values@.len() by {
                if i != idx {
                    assert(old_self.valid_at(i));
                    assert(old_self.data@[i].code() < old_self.unique_values@.len());
                }
            }
            assert forall|i: int| 0 <= i < self.data@.len() implies #[trigger] self.value_at(i) == old_self.values().update(
                idx as int,
                Some(value@),
            )[i] by {
                if i != idx {
                    assert(self.valid_at(i) == old_self.valid_at(i));
                    if old_self.valid_at(i) {
                        assert(old_self.data@[i].code() < old_self.unique_values@.len());
                        assert(self.dict()[self.data@[i].code() as int] == old_self.dict()[old_self.data@[i].code() as int]);
                    }
                }
            }
            assert(self.values() =~= old_self.values().update(idx as int, Some(value@)));
        }
    }

    /// Sets row `idx` to `value`, interning it, and marks the row valid.
    pub fn set(&mut self, idx: usize, value: String)
        requires
            old(self).wf(),
            idx < old(self).len_s(),
            pos_in(old(self).dict(), value@) < T::n_codes(),
        ensures
            final(self).wf(),
            final(self).dict() == interned(old(self).dict(), value@),
            final(self).values() == old(self).values().update(idx as int, Some(value@)),
    {
        self.set_str(idx, value.as_str());
    }

    /// Marks row `idx` null.
    pub fn set_null(&mut self, idx: usize)
        requires
            old(self).wf(),
            idx < old(self).len_s(),
        ensures
            final(self).wf(),
            final(self).unique_values == old(self).unique_values,
            final(self).values() == old(self).values().update(idx as int, None),
            final(self).null_mask is Some,
    {
        let ghost old_self = *self;
        let n = self.data.len();
        let mut m = match self.null_mask.take() {
            Some(m) => m,
            None => valid_bits(n),
        };
        m.set(idx, false);
        self.null_mask = Some(m);
        proof {
            assert forall|i: int| 0 <= i < n && i != idx implies self.valid_at(i) == old_self.valid_at(i) by {}
            assert(self.values() =~= old_self.values().update(idx as int, None));
        }
    }

    /// Number of null rows.
    pub fn null_count(&self) -> (n: usize)
        requires
            self.wf(),
        ensures
            n == count_false(mask_bits(self.null_mask, self.len_s())),
    {
        match &self.null_mask {
            Some(m) => {
                let mut count: usize = 0;
                let mut i: usize = 0;
                while i < m.len()
                    invariant
                        i <= m@.len(),
                        count == count_false(m@.take(i as int)),
                        count <= i,
                    decreases m@.len() - i,
                {
                    assert(m@.take(i as int + 1).drop_last() =~= m@.take(i as int));
                    if !m[i] {
                        count = count + 1;
                    }
                    i = i + 1;
                }
                assert(m@.take(m@.len() as int) =~= m@);
                count
            },
            None => {
                proof {
                    lemma_count_all_valid(self.len_s() as int);
                }
                0
            },
        }
    }

    /// Rows that `self` shares with an earlier state `old_self` of which
    /// it is a growth decode the same, and `self` is well formed, when the
    /// dictionary only grew and the earlier rows, codes and bits stayed.
    proof fn lemma_grown_rows(&self, old_self: &Self)
        requires
            old_self.wf(),
            old_self.dict().is_prefix_of(self.dict()),
            old_self.data@.is_prefix_of(self.data@),
            self.null_mask matches Some(m) ==> m@.len() == self.data@.len(),
            forall|i: int| 0 <= i < old_self.data@.len() ==> self.valid_at(i) == old_self.valid_at(i),
            forall|i: int|
                old_self.data@.len() <= i < self.data@.len() && self.valid_at(i) ==> (#[trigger] self.data@[i]).code()
                    < self.unique_values@.len(),
        ensures
            self.wf(),
            forall|i: int| 0 <= i < old_self.data@.len() ==> #[trigger] self.value_at(i) == old_self.value_at(i),
    {
        assert forall|i: int| 0 <= i < old_self.data@.len() implies #[trigger] self.value_at(i) == old_self.value_at(i) by {
            assert(self.data@[i] == old_self.data@[i]);
            if old_self.valid_at(i) {
                assert(old_self.data@[i].code() < old_self.unique_values@.len());
            }
        }
        assert forall|i: int| 0 <= i < self.data@.len() && self.valid_at(i) implies (#[trigger] self.data@[i]).code()
            < self.unique_values@.len() by {
            if i < old_self.data@.len() {
                assert(self.data@[i] == old_self.data@[i]);
                assert(old_self.data@[i].code() < old_self.unique_values@.len());
            }
        }
    }
}

/// All-valid bits hold no `false`.
pub proof fn lemma_count_all_valid(n: int)
    requires
        n >= 0,
    ensures
        count_false(Seq::new(n as nat, |i: int| true)) == 0,
    decreases n,
{
    if n > 0 {
        assert(Seq::new(n as nat, |i: int| true).drop_last() =~= Seq::new((n - 1) as nat, |i: int| true));
        lemma_count_all_valid(n - 1);
    }
}


impl<T: CategoryCode> CategoricalArray<T> {
    /// Appends each of `values`, in order, interning each.
    pub fn extend(&mut self, values: &[&str])
        requires
            old(self).wf(),
            dict_after(old(self).dict(), strs(values@), all_valid(values@.len() as int)).len() <= T::n_codes(),
        ensures
            final(self).wf(),
            final(self).dict() == dict_after(old(self).dict(), strs(values@), all_valid(values@.len() as int)),
            final(self).values() == old(self).values() + decoded(strs(values@), all_valid(values@.len() as int)),
            final(self).null_mask is Some <==> old(self).null_mask is Some,
    {
        let ghost d0 = self.dict();
        let ghost v0 = self.values();
        let ghost sv = strs(values@);
        let ghost av = all_valid(values@.len() as int);
        let ghost has_mask = self.null_mask is Some;
        assert(sv.take(0) =~= Seq::<Seq<char>>::empty());
        assert(decoded(sv, av).take(0) =~= Seq::<Option<Seq<char>>>::empty());
        assert(v0 + decoded(sv, av).take(0) =~= v0);
        let mut i: usize = 0;
        while i < values.len()
            invariant
                i <= values@.len(),
                sv == strs(values@),
                av == all_valid(values@.len() as int),
                self.wf(),
                dict_after(d0, sv, av).len() <= T::n_codes(),
                self.dict() == dict_after(d0, sv.take(i as int), av),
                self.values() == v0 + decoded(sv, av).take(i as int),
                (self.null_mask is Some) == has_mask,
            decreases values@.len() - i,
        {
            proof {
                lemma_next_code_fits::<T>(d0, sv, av, i as int);
            }
            self.push_str(values[i]);
            proof {
                assert(decoded(sv, av).take(i as int + 1) =~= decoded(sv, av).take(i as int).push(Some(sv[i as int])));
                assert(self.values() =~= v0 + decoded(sv, av).take(i as int + 1));
            }
            i = i + 1;
        }
        proof {
            assert(sv.take(values@.len() as int) =~= sv);
            assert(decoded(sv, av).take(values@.len() as int) =~= decoded(sv, av));
        }
    }

    /// Appends each of `slice`, in order, interning each.
    pub fn extend_from_slice(&mut self, slice: &[String])
        requires
            old(self).wf(),
            dict_after(old(self).dict(), texts(slice@), all_valid(slice@.len() as int)).len() <= T::n_codes(),
        ensures
            final(self).wf(),
            final(self).dict() == dict_after(old(self).dict(), texts(slice@), all_valid(slice@.len() as int)),
            final(self).values() == old(self).values() + decoded(texts(slice@), all_valid(slice@.len() as int)),
            final(self).null_mask is Some <==> old(self).null_mask is Some,
    {
        let ghost d0 = self.dict();
        let ghost v0 = self.values();
        let ghost sv = texts(slice@);
        let ghost av = all_valid(slice@.len() as int);
        let ghost has_mask = self.null_mask is Some;
        assert(sv.take(0) =~= Seq::<Seq<char>>::empty());
        assert(v0 + decoded(sv, av).take(0) =~= v0);
        let mut i: usize = 0;
        while i < slice.len()
            invariant
                i <= slice@.len(),
                sv == texts(slice@),
                av == all_valid(slice@.len() as int),
                self.wf(),
                dict_after(d0, sv, av).len() <= T::n_codes(),
                self.dict() == dict_after(d0, sv.take(i as int), av),
                self.values() == v0 + decoded(sv, av).take(i as int),
                (self.null_mask is Some) == has_mask,
            decreases slice@.len() - i,
        {
            proof {
                lemma_next_code_fits::<T>(d0, sv, av, i as int);
            }
            self.push_str(slice[i].as_str());
            proof {
                assert(decoded(sv, av).take(i as int + 1) =~= decoded(sv, av).take(i as int).push(Some(sv[i as int])));
                assert(self.values() =~= v0 + decoded(sv, av).take(i as int + 1));
            }
            i = i + 1;
        }
        proof {
            assert(sv.take(slice@.len() as int) =~= sv);
            assert(decoded(sv, av).take(slice@.len() as int) =~= decoded(sv, av));
        }
    }

    /// Appends each of `values`, in order, interning each; room for
    /// `additional_capacity` more codes is reserved first.
    pub fn extend_from_iter_with_capacity(&mut self, values: Vec<String>, additional_capacity: usize)
        requires
            old(self).wf(),
            dict_after(old(self).dict(), texts(values@), all_valid(values@.len() as int)).len() <= T::n_codes(),
        ensures
            final(self).wf(),
            final(self).dict() == dict_after(old(self).dict(), texts(values@), all_valid(values@.len() as int)),
            final(self).values() == old(self).values() + decoded(texts(values@), all_valid(values@.len() as int)),
            final(self).null_mask is Some <==> old(self).null_mask is Some,
    {
        self.data.reserve(additional_capacity);
        self.extend_from_slice(values.as_slice());
    }

    /// `count` rows of `value`: a one-entry dictionary and no nulls.
    pub fn fill(value: String, count: usize) -> (out: Self)
        ensures
            out.wf(),
            out.dict() == seq![value@],
            out.values() == Seq::new(count as nat, |i: int| Some(value@)),
            out.null_mask is None,
    {
        let ghost v = value@;
        let mut uv: Vec<String> = Vec::new();
        uv.push(value);
        let mut data: Vec<T> = Vec::with_capacity(count);
        let mut i: usize = 0;
        while i < count
            invariant
                i <= count,
                data@.len() == i,
                forall|k: int| 0 <= k < i ==> (#[trigger] data@[k]).code() == 0,
            decreases count - i,
        {
            data.push(T::zero());
            i = i + 1;
        }
        let out = CategoricalArray { data, unique_values: uv, null_mask: None };
        proof {
            assert(out.dict() =~= seq![v]);
            assert(out.values() =~= Seq::new(count as nat, |i: int| Some(v)));
        }
        out
    }

    /// From strings and an optional validity mask. The dictionary holds the
    /// valid strings in order of first appearance; null rows take code 0
    /// and add nothing to it.
    pub fn from_vec(values: Vec<&str>, null_mask: Option<Vec<bool>>) -> (out: Self)
        requires
            null_mask matches Some(m) ==> m@.len() == values@.len(),
            dict_after(Seq::empty(), strs(values@), mask_bits(null_mask, values@.len())).len() <= T::n_codes(),
        ensures
            out.wf(),
            out.dict() == dict_after(Seq::empty(), strs(values@), mask_bits(null_mask, values@.len())),
            out.values() == decoded(strs(values@), mask_bits(null_mask, values@.len())),
            out.null_mask == null_mask,
    {
        let ghost sv = strs(values@);
        let ghost bits = mask_bits(null_mask, values@.len());
        let n = values.len();
        let mut uv: Vec<String> = Vec::new();
        let mut codes: Vec<T> = Vec::with_capacity(n);
        assert(sv.take(0) =~= Seq::<Seq<char>>::empty());
        assert(texts(uv@) =~= Seq::<Seq<char>>::empty());
        let mut i: usize = 0;
        while i < n
            invariant
                n == values@.len(),
                i <= n,
                sv == strs(values@),
                bits == mask_bits(null_mask, values@.len()),
                null_mask matches Some(m) ==> m@.len() == values@.len(),
                dict_after(Seq::empty(), sv, bits).len() <= T::n_codes(),
                texts(uv@) == dict_after(Seq::empty(), sv.take(i as int), bits),
                codes@.len() == i,
                forall|k: int|
                    0 <= k < i && bits[k] ==> (#[trigger] codes@[k]).code() < uv@.len() && texts(uv@)[codes@[k].code() as int]
                        == sv[k],
            decreases n - i,
        {
            let valid = match &null_mask {
                Some(m) => m[i],
                None => true,
            };
            let ghost before = texts(uv@);
            if valid {
                proof {
                    lemma_next_code_fits::<T>(Seq::empty(), sv, bits, i as int);
                }
                let c: T = add_category(&mut uv, values[i]);
                codes.push(c);
                proof {
                    lemma_interned(before, sv[i as int]);
                    assert forall|k: int| 0 <= k < i + 1 && bits[k] implies (#[trigger] codes@[k]).code() < uv@.len()
                        && texts(uv@)[codes@[k].code() as int] == sv[k] by {
                        if k < i {
                            assert(texts(uv@)[codes@[k].code() as int] == before[codes@[k].code() as int]);
                        }
                    }
                }
            } else {
                proof {
                    lemma_next_null(Seq::empty(), sv, bits, i as int);
                }
                codes.push(T::zero());
            }
            i = i + 1;
        }
        assert(sv.take(n as int) =~= sv);
        let out = CategoricalArray { data: codes, unique_values: uv, null_mask };
        proof {
            assert forall|k: int| 0 <= k < n implies out.valid_at(k) == bits[k] by {}
            assert(out.values() =~= decoded(sv, bits));
        }
        out
    }

    /// As `from_vec`.
    pub fn from_vec64(values: Vec<&str>, null_mask: Option<Vec<bool>>) -> (out: Self)
        requires
            null_mask matches Some(m) ==> m@.len() == values@.len(),
            dict_after(Seq::empty(), strs(values@), mask_bits(null_mask, values@.len())).len() <= T::n_codes(),
        ensures
            out.wf(),
            out.dict() == dict_after(Seq::empty(), strs(values@), mask_bits(null_mask, values@.len())),
            out.values() == decoded(strs(values@), mask_bits(null_mask, values@.len())),
            out.null_mask == null_mask,
    {
        Self::from_vec(values, null_mask)
    }

    /// From strings, all valid, the dictionary in order of first appearance.
    pub fn from_values(values: &[&str]) -> (out: Self)
        requires
            dict_after(Seq::empty(), strs(values@), all_valid(values@.len() as int)).len() <= T::n_codes(),
        ensures
            out.wf(),
            out.dict() == dict_after(Seq::empty(), strs(values@), all_valid(values@.len() as int)),
            out.values() == decoded(strs(values@), all_valid(values@.len() as int)),
            out.null_mask is None,
    {
        let v = vstd::slice::slice_to_vec(values);
        assert(mask_bits(None, v@.len()) =~= all_valid(values@.len() as int));
        Self::from_vec(v, None)
    }
}


impl<T: CategoryCode> CategoricalArray<T> {
    /// A copy of rows `offset .. offset + len`, with the whole dictionary.
    pub fn slice_clone(&self, offset: usize, len: usize) -> (out: Self)
        requires
            self.wf(),
            offset + len <= self.len_s(),
        ensures
            out.wf(),
            out.unique_values@ == self.unique_values@,
            out.data@ == self.data@.subrange(offset as int, offset + len),
            out.values() == self.values().subrange(offset as int, offset + len),
            mask_bits(out.null_mask, out.len_s()) == mask_bits(self.null_mask, self.len_s()).subrange(
                offset as int,
                offset + len,
            ),
            out.null_mask is Some <==> self.null_mask is Some,
    {
        let _n = self.data.len();
        let data = vstd::slice::slice_to_vec(vstd::slice::slice_subrange(self.data.as_slice(), offset, offset + len));
        let null_mask = match &self.null_mask {
            Some(m) => Some(vstd::slice::slice_to_vec(vstd::slice::slice_subrange(m.as_slice(), offset, offset + len))),
            None => None,
        };
        let out = CategoricalArray { data, unique_values: copy_dict(&self.unique_values), null_mask };
        proof {
            assert forall|i: int| 0 <= i < len implies out.valid_at(i) == self.valid_at(offset + i) by {}
            assert forall|i: int| 0 <= i < out.data@.len() && out.valid_at(i) implies (#[trigger] out.data@[i]).code()
                < out.unique_values@.len() by {
                assert(out.data@[i] == self.data@[offset + i]);
            }
            assert(out.values() =~= self.values().subrange(offset as int, offset + len));
            assert(mask_bits(out.null_mask, out.len_s()) =~= mask_bits(self.null_mask, self.len_s()).subrange(
                offset as int,
                offset + len,
            ));
        }
        out
    }

    /// Removes rows `start .. end`, shifting later rows down. The dictionary
    /// is unchanged.
    pub fn delete_range(&mut self, start: usize, end: usize)
        requires
            old(self).wf(),
            start <= end <= old(self).len_s(),
        ensures
            final(self).wf(),
            final(self).unique_values == old(self).unique_values,
            final(self).values() == old(self).values().take(start as int) + old(self).values().skip(end as int),
            final(self).data@ == old(self).data@.take(start as int) + old(self).data@.skip(end as int),
            final(self).null_mask is Some <==> old(self).null_mask is Some,
    {
        let ghost old_self = *self;
        let mut tail = self.data.split_off(end);
        self.data.truncate(start);
        self.data.append(&mut tail);
        match self.null_mask.take() {
            Some(mut m) => {
                let mut mtail = m.split_off(end);
                m.truncate(start);
                m.append(&mut mtail);
                self.null_mask = Some(m);
            },
            None => {},
        }
        proof {
            let n = old_self.data@.len();
            assert forall|i: int| 0 <= i < self.data@.len() implies self.data@[i] == (if i < start {
                old_self.data@[i]
            } else {
                old_self.data@[i + (end - start)]
            }) && self.valid_at(i) == (if i < start {
                old_self.valid_at(i)
            } else {
                old_self.valid_at(i + (end - start))
            }) by {}
            assert forall|i: int| 0 <= i < self.data@.len() && self.valid_at(i) implies (#[trigger] self.data@[i]).code()
                < self.unique_values@.len() by {
                if i < start {
                    assert(old_self.data@[i].code() < old_self.unique_values@.len());
                } else {
                    assert(old_self.data@[i + (end - start)].code() < old_self.unique_values@.len());
                }
            }
            assert(self.values() =~= old_self.values().take(start as int) + old_self.values().skip(end as int));
            assert(self.data@ =~= old_self.data@.take(start as int) + old_self.data@.skip(end as int));
        }
    }

    /// Grows to `n` rows with copies of `value`, or truncates to `n` rows.
    /// `value` is interned either way.
    pub fn resize(&mut self, n: usize, value: String)
        requires
            old(self).wf(),
            pos_in(old(self).dict(), value@) < T::n_codes(),
        ensures
            final(self).wf(),
            final(self).dict() == interned(old(self).dict(), value@),
            n > old(self).len_s() ==> final(self).values() == old(self).values() + Seq::new(
                (n - old(self).len_s()) as nat,
                |i: int| Some(value@),
            ),
            n <= old(self).len_s() ==> final(self).values() == old(self).values().take(n as int),
            final(self).null_mask is Some <==> old(self).null_mask is Some,
    {
        let ghost old_self = *self;
        let ghost v = value@;
        let c: T = add_category(&mut self.unique_values, value.as_str());
        proof {
            lemma_interned(old_self.dict(), v);
        }
        let len = self.data.len();
        let ghost uv1 = self.unique_values;
        if n > len {
            let mut mask = self.null_mask.take();
            let mut i: usize = len;
            while i < n
                invariant
                    len == old_self.data@.len(),
                    len <= i <= n,
                    self.data@.len() == i,
                    self.data@.subrange(0, len as int) == old_self.data@,
                    forall|k: int| len <= k < i ==> #[trigger] self.data@[k] == c,
                    c.code() == pos_in(old_self.dict(), v),
                    self.unique_values == uv1,
                    texts(uv1@) == interned(old_self.dict(), v),
                    mask is Some <==> old_self.null_mask is Some,
                    mask matches Some(m) ==> m@.len() == i && m@.subrange(0, len as int) == old_self.null_mask->0@
                        && forall|k: int| len <= k < i ==> #[trigger] m@[k],
                decreases n - i,
            {
                self.data.push(c);
                mask = match mask {
                    Some(mut m) => {
                        m.push(true);
                        Some(m)
                    },
                    None => None,
                };
                i = i + 1;
                proof {
                    assert(self.data@.subrange(0, len as int) =~= old_self.data@);
                    if mask is Some {
                        assert(mask->0@.subrange(0, len as int) =~= old_self.null_mask->0@);
                    }
                }
            }
            self.null_mask = mask;
            proof {
                assert forall|k: int| 0 <= k < len implies self.data@[k] == old_self.data@[k] && self.valid_at(k)
                    == old_self.valid_at(k) by {
                    assert(self.data@[k] == self.data@.subrange(0, len as int)[k]);
                    if self.null_mask is Some {
                        assert(self.null_mask->0@[k] == self.null_mask->0@.subrange(0, len as int)[k]);
                    }
                }
                assert forall|k: int| len <= k < n implies self.valid_at(k) by {}
                assert(old_self.data@ =~= self.data@.subrange(0, len as int));
                self.lemma_grown_rows(&old_self);
                assert(self.values() =~= old_self.values() + Seq::new((n - len) as nat, |i: int| Some(v)));
            }
        } else {
            self.data.truncate(n);
            match self.null_mask.take() {
                Some(mut m) => {
                    m.truncate(n);
                    self.null_mask = Some(m);
                },
                None => {},
            }
            proof {
                assert forall|k: int| 0 <= k < n implies self.data@[k] == old_self.data@[k] && self.valid_at(k)
                    == old_self.valid_at(k) by {}
                assert forall|i: int| 0 <= i < self.data@.len() && self.valid_at(i) implies (#[trigger] self.data@[i]).code()
                    < self.unique_values@.len() by {
                    assert(old_self.data@[i].code() < old_self.unique_values@.len());
                }
                assert forall|k: int| 0 <= k < n implies #[trigger] self.value_at(k) == old_self.value_at(k) by {
                    if old_self.valid_at(k) {
                        assert(old_self.data@[k].code() < old_self.unique_values@.len());
                    }
                }
                assert(self.values() =~= old_self.values().take(n as int));
            }
        }
    }

    /// Splits at row `index` into rows `.. index` and `index ..`, both with
    /// the whole dictionary. Refused unless `0 < index < len`.
    pub fn split(self, index: usize) -> (r: Result<(Self, Self), MinarrowError>)
        requires
            self.wf(),
        ensures
            r is Err <==> (index == 0 || index >= self.len_s()),
            r matches Err(e) ==> e is IndexError && e->IndexError_0@ == "Split index "@ + decimal(index as nat)
                + " out of valid range (0, "@ + decimal(self.len_s()) + ")"@,
            r matches Ok((a, b)) ==> a.wf() && b.wf() && a.unique_values@ == self.unique_values@
                && b.unique_values@ == self.unique_values@ && a.values() == self.values().take(index as int)
                && b.values() == self.values().skip(index as int) && a.data@ == self.data@.take(index as int)
                && b.data@ == self.data@.skip(index as int) && a.null_mask is Some == self.null_mask is Some
                && b.null_mask is Some == self.null_mask is Some,
    {
        let n = self.data.len();
        if index == 0 || index >= n {
            let mut msg = String::from_str("Split index ");
            append_usize(&mut msg, index);
            msg.append(" out of valid range (0, ");
            append_usize(&mut msg, n);
            msg.append(")");
            return Err(MinarrowError::IndexError(msg));
        }
        let ghost whole = self;
        let mut me = self;
        let after_data = me.data.split_off(index);
        let after_mask = match me.null_mask.take() {
            Some(mut m) => {
                let t = m.split_off(index);
                me.null_mask = Some(m);
                Some(t)
            },
            None => None,
        };
        let after = CategoricalArray { data: after_data, unique_values: copy_dict(&me.unique_values), null_mask: after_mask };
        proof {
            assert forall|i: int| 0 <= i < me.data@.len() implies me.data@[i] == whole.data@[i] && me.valid_at(i)
                == whole.valid_at(i) by {}
            assert forall|i: int| 0 <= i < after.data@.len() implies after.data@[i] == whole.data@[index + i]
                && after.valid_at(i) == whole.valid_at(index + i) by {}
            assert forall|i: int| 0 <= i < me.data@.len() && me.valid_at(i) implies (#[trigger] me.data@[i]).code()
                < me.unique_values@.len() by {
                assert(whole.data@[i].code() < whole.unique_values@.len());
            }
            assert forall|i: int| 0 <= i < after.data@.len() && after.valid_at(i) implies (#[trigger] after.data@[i]).code()
                < after.unique_values@.len() by {
                assert(whole.data@[index + i].code() < whole.unique_values@.len());
            }
            assert(me.values() =~= whole.values().take(index as int));
            assert(after.values() =~= whole.values().skip(index as int));
            assert(me.data@ =~= whole.data@.take(index as int));
            assert(after.data@ =~= whole.data@.skip(index as int));
        }
        Ok((me, after))
    }
}


/// Validity bit `i` of a mask, `true` without one.
fn bit_at(mask: &Option<Vec<bool>>, i: usize) -> (b: bool)
    requires
        mask matches Some(m) ==> i < m@.len(),
    ensures
        b == match *mask {
            Some(m) => m@[i as int],
            None => true,
        },
{
    match mask {
        Some(m) => m[i],
        None => true,
    }
}

/// Appending a mask's bits: the bits of the result are the bits of both.
proof fn lemma_mask_append(a: Option<Vec<bool>>, na: nat, b: Option<Vec<bool>>, nb: nat, out: Option<Vec<bool>>)
    requires
        a matches Some(m) ==> m@.len() == na,
        b matches Some(m) ==> m@.len() == nb,
        match (a, b) {
            (Some(m), Some(src)) => out is Some && out->0@ == m@ + mask_range(src@, 0, nb as int),
            (Some(m), None) => out is Some && out->0@ == m@ + all_valid(nb as int),
            (None, Some(src)) => out is Some && out->0@ == all_valid(na as int) + mask_range(src@, 0, nb as int),
            (None, None) => out is None,
        },
    ensures
        mask_bits(out, na + nb) == mask_bits(a, na) + mask_bits(b, nb),
        out is Some <==> (a is Some || b is Some),
        out matches Some(m) ==> m@.len() == na + nb,
{
    match (a, b) {
        (Some(m), Some(src)) => {
            assert(mask_range(src@, 0, nb as int) =~= src@);
        },
        (Some(m), None) => {
            assert(all_valid(nb as int) =~= mask_bits(b, nb));
        },
        (None, Some(src)) => {
            assert(mask_range(src@, 0, nb as int) =~= src@);
            assert(all_valid(na as int) =~= mask_bits(a, na));
        },
        (None, None) => {},
    }
    assert(mask_bits(out, na + nb) =~= mask_bits(a, na) + mask_bits(b, nb));
}

impl<T: CategoryCode> CategoricalArray<T> {
    /// Interns every string of `words` in order; returns the code of each.
    fn intern_all(&mut self, words: &Vec<String>) -> (remap: Vec<T>)
        requires
            old(self).wf(),
            dict_after(old(self).dict(), texts(words@), all_valid(words@.len() as int)).len() <= T::n_codes(),
        ensures
            final(self).wf(),
            final(self).dict() == dict_after(old(self).dict(), texts(words@), all_valid(words@.len() as int)),
            final(self).data == old(self).data,
            final(self).null_mask == old(self).null_mask,
            old(self).dict().is_prefix_of(final(self).dict()),
            remap@.len() == words@.len(),
            forall|j: int|
                0 <= j < words@.len() ==> (#[trigger] remap@[j]).code() < final(self).unique_values@.len()
                    && final(self).dict()[remap@[j].code() as int] == words@[j]@,
    {
        let ghost old_self = *self;
        let ghost sv = texts(words@);
        let ghost av = all_valid(words@.len() as int);
        let mut remap: Vec<T> = Vec::new();
        let mut j: usize = 0;
        assert(sv.take(0) =~= Seq::<Seq<char>>::empty());
        while j < words.len()
            invariant
                j <= words@.len(),
                sv == texts(words@),
                av == all_valid(words@.len() as int),
                old_self.wf(),
                dict_after(old_self.dict(), sv, av).len() <= T::n_codes(),
                self.dict() == dict_after(old_self.dict(), sv.take(j as int), av),
                self.data == old_self.data,
                self.null_mask == old_self.null_mask,
                old_self.dict().is_prefix_of(self.dict()),
                remap@.len() == j,
                forall|k: int|
                    0 <= k < j ==> (#[trigger] remap@[k]).code() < self.unique_values@.len() && self.dict()[remap@[k].code() as int]
                        == sv[k],
            decreases words@.len() - j,
        {
            proof {
                lemma_next_code_fits::<T>(old_self.dict(), sv, av, j as int);
            }
            let ghost before = self.dict();
            let c: T = add_category(&mut self.unique_values, words[j].as_str());
            remap.push(c);
            proof {
                lemma_interned(before, sv[j as int]);
                assert forall|k: int| 0 <= k < j + 1 implies (#[trigger] remap@[k]).code() < self.unique_values@.len()
                    && self.dict()[remap@[k].code() as int] == sv[k] by {
                    if k < j {
                        assert(self.dict()[remap@[k].code() as int] == before[remap@[k].code() as int]);
                    }
                }
            }
            j = j + 1;
        }
        proof {
            assert(sv.take(words@.len() as int) =~= sv);
            self.lemma_grown_rows(&old_self);
        }
        remap
    }

    /// Appends `other`'s rows with their codes as they are (read against
    /// this array's dictionary) and their validity.
    pub fn append_array(&mut self, other: &Self)
        requires
            old(self).wf(),
            other.wf(),
        ensures
            final(self).unique_values == old(self).unique_values,
            final(self).data@ == old(self).data@ + other.data@,
            mask_bits(final(self).null_mask, final(self).len_s()) == mask_bits(old(self).null_mask, old(self).len_s())
                + mask_bits(other.null_mask, other.len_s()),
            other.len_s() == 0 ==> *final(self) == *old(self),
            other.len_s() > 0 ==> (final(self).null_mask is Some <==> (old(self).null_mask is Some
                || other.null_mask is Some)),
            final(self).null_mask matches Some(m) ==> m@.len() == final(self).len_s(),
            other.dict().is_prefix_of(old(self).dict()) ==> final(self).wf() && final(self).values()
                == old(self).values() + other.values(),
    {
        let ghost old_self = *self;
        let other_len = other.data.len();
        if other_len == 0 {
            proof {
                assert(old_self.data@ + other.data@ =~= old_self.data@);
                assert(mask_bits(other.null_mask, 0) =~= Seq::<bool>::empty());
                assert(mask_bits(old_self.null_mask, old_self.len_s()) + mask_bits(other.null_mask, 0) =~= mask_bits(
                    old_self.null_mask,
                    old_self.len_s(),
                ));
                if other.dict().is_prefix_of(old_self.dict()) {
                    assert(old_self.values() + other.values() =~= old_self.values());
                }
            }
            return;
        }
        let orig = self.data.len();
        let mut tail = vstd::slice::slice_to_vec(other.data.as_slice());
        self.data.append(&mut tail);
        extend_null_mask(&mut self.null_mask, orig, other.null_mask.as_ref(), 0, other_len);
        proof {
            lemma_mask_append(old_self.null_mask, orig as nat, other.null_mask, other_len as nat, self.null_mask);
            if other.dict().is_prefix_of(old_self.dict()) {
                self.lemma_appended_rows(&old_self, other);
            }
        }
    }

    /// After appending `other`'s codes and bits to `old_self` with a
    /// dictionary that extends `other`'s, the rows decode to both arrays'
    /// rows.
    proof fn lemma_appended_rows(&self, old_self: &Self, other: &Self)
        requires
            old_self.wf(),
            other.wf(),
            self.unique_values == old_self.unique_values,
            other.dict().is_prefix_of(old_self.dict()),
            self.data@ == old_self.data@ + other.data@,
            mask_bits(self.null_mask, self.len_s()) == mask_bits(old_self.null_mask, old_self.len_s()) + mask_bits(
                other.null_mask,
                other.len_s(),
            ),
            self.null_mask matches Some(m) ==> m@.len() == self.len_s(),
        ensures
            self.wf(),
            self.values() == old_self.values() + other.values(),
    {
        let n = old_self.len_s() as int;
        assert forall|i: int| 0 <= i < self.len_s() implies #[trigger] self.valid_at(i) == (if i < n {
            old_self.valid_at(i)
        } else {
            other.valid_at(i - n)
        }) by {
            assert(self.valid_at(i) == mask_bits(self.null_mask, self.len_s())[i]);
        }
        assert forall|i: int| 0 <= i < self.data@.len() && self.valid_at(i) implies (#[trigger] self.data@[i]).code()
            < self.unique_values@.len() by {
            if i < n {
                assert(self.data@[i] == old_self.data@[i]);
                assert(old_self.data@[i].code() < old_self.unique_values@.len());
            } else {
                assert(self.data@[i] == other.data@[i - n]);
                assert(other.data@[i - n].code() < other.unique_values@.len());
            }
        }
        assert forall|i: int| 0 <= i < self.len_s() implies #[trigger] self.value_at(i) == (old_self.values()
            + other.values())[i] by {
            if i < n {
                assert(self.data@[i] == old_self.data@[i]);
            } else {
                assert(self.data@[i] == other.data@[i - n]);
                if other.valid_at(i - n) {
                    assert(other.data@[i - n].code() < other.unique_values@.len());
                }
            }
        }
        assert(self.values() =~= old_self.values() + other.values());
    }

    /// Appends `other`'s rows `offset .. offset + len` with their codes as
    /// they are and their validity. Refused when the range passes the end
    /// of `other`; nothing happens for an empty range.
    pub fn append_range(&mut self, other: &Self, offset: usize, len: usize) -> (r: Result<(), MinarrowError>)
        requires
            old(self).wf(),
            other.wf(),
        ensures
            r is Err <==> (len > 0 && offset + len > other.len_s()),
            r matches Err(e) ==> e is IndexError && e->IndexError_0@ == "append_range: offset "@ + decimal(
                offset as nat,
            ) + " + len "@ + decimal(len as nat) + " exceeds source length "@ + decimal(other.len_s()),
            (r is Err || len == 0) ==> *final(self) == *old(self),
            (r is Ok && len > 0) ==> {
                &&& final(self).unique_values == old(self).unique_values
                &&& final(self).data@ == old(self).data@ + other.data@.subrange(offset as int, offset + len)
                &&& mask_bits(final(self).null_mask, final(self).len_s()) == mask_bits(
                    old(self).null_mask,
                    old(self).len_s(),
                ) + mask_bits(other.null_mask, other.len_s()).subrange(offset as int, offset + len)
                &&& (final(self).null_mask is Some <==> (old(self).null_mask is Some || other.null_mask is Some))
                &&& (other.dict().is_prefix_of(old(self).dict()) ==> final(self).wf() && final(self).values()
                    == old(self).values() + other.values().subrange(offset as int, offset + len))
            },
    {
        if len == 0 {
            return Ok(());
        }
        let other_len = other.data.len();
        if offset > other_len || len > other_len - offset {
            let mut msg = String::from_str("append_range: offset ");
            append_usize(&mut msg, offset);
            msg.append(" + len ");
            append_usize(&mut msg, len);
            msg.append(" exceeds source length ");
            append_usize(&mut msg, other_len);
            return Err(MinarrowError::IndexError(msg));
        }
        let ghost old_self = *self;
        let part = other.slice_clone(offset, len);
        proof {
            assert(part.dict() == other.dict());
        }
        self.append_array(&part);
        Ok(())
    }
}


impl<T: CategoryCode> CategoricalArray<T> {
    /// Rows laid out as `old_self`'s first `index` rows, then `other`'s
    /// rows (coded against this dictionary), then `old_self`'s remaining
    /// rows decode to exactly those rows.
    proof fn lemma_spliced_rows(&self, old_self: &Self, other: &Self, index: int)
        requires
            old_self.wf(),
            other.wf(),
            0 <= index <= old_self.len_s(),
            old_self.dict().is_prefix_of(self.dict()),
            self.data@.len() == old_self.len_s() + other.len_s(),
            self.null_mask matches Some(m) ==> m@.len() == self.len_s(),
            mask_bits(self.null_mask, self.len_s()) == mask_bits(old_self.null_mask, old_self.len_s()).take(index)
                + mask_bits(other.null_mask, other.len_s()) + mask_bits(old_self.null_mask, old_self.len_s()).skip(index),
            forall|i: int| 0 <= i < index ==> self.data@[i] == old_self.data@[i],
            forall|i: int| index <= i < old_self.len_s() ==> self.data@[i + other.len_s()] == old_self.data@[i],
            forall|j: int|
                0 <= j < other.len_s() && other.valid_at(j) ==> (#[trigger] self.data@[index + j]).code()
                    < self.unique_values@.len() && self.dict()[self.data@[index + j].code() as int] == other.dict()[other.data@[j].code() as int],
        ensures
            self.wf(),
            self.values() == old_self.values().take(index) + other.values() + old_self.values().skip(index),
    {
        let m = other.len_s() as int;
        let bo = mask_bits(old_self.null_mask, old_self.len_s());
        let bt = mask_bits(other.null_mask, other.len_s());
        assert forall|i: int| 0 <= i < self.len_s() implies #[trigger] self.valid_at(i) == (if i < index {
            old_self.valid_at(i)
        } else if i < index + m {
            other.valid_at(i - index)
        } else {
            old_self.valid_at(i - m)
        }) by {
            assert(self.valid_at(i) == mask_bits(self.null_mask, self.len_s())[i]);
            if i < index {
                assert(old_self.valid_at(i) == bo[i]);
            } else if i < index + m {
                assert(other.valid_at(i - index) == bt[i - index]);
            } else {
                assert(old_self.valid_at(i - m) == bo[i - m]);
            }
        }
        assert forall|i: int| 0 <= i < self.data@.len() && self.valid_at(i) implies (#[trigger] self.data@[i]).code()
            < self.unique_values@.len() by {
            if i < index {
                assert(old_self.data@[i].code() < old_self.unique_values@.len());
            } else if i < index + m {
                assert(self.data@[index + (i - index)] == self.data@[i]);
            } else {
                assert(self.data@[(i - m) + m] == old_self.data@[i - m]);
                assert(old_self.data@[i - m].code() < old_self.unique_values@.len());
            }
        }
        let target = old_self.values().take(index) + other.values() + old_self.values().skip(index);
        assert forall|i: int| 0 <= i < self.len_s() implies #[trigger] self.value_at(i) == target[i] by {
            if i < index {
                if old_self.valid_at(i) {
                    assert(old_self.data@[i].code() < old_self.unique_values@.len());
                }
            } else if i < index + m {
                assert(self.data@[index + (i - index)] == self.data@[i]);
            } else {
                assert(self.data@[(i - m) + m] == old_self.data@[i - m]);
                if old_self.valid_at(i - m) {
                    assert(old_self.data@[i - m].code() < old_self.unique_values@.len());
                }
            }
        }
        assert(self.values() =~= target);
    }

    /// Appends `other`'s rows after this array's. `other`'s dictionary is
    /// interned entry by entry into this one and its codes, at null rows
    /// too, are mapped through it; validity masks are joined.
    pub fn concat(self, other: Self) -> (r: Result<Self, MinarrowError>)
        requires
            self.wf(),
            other.wf(),
            other.len_s() > 0 ==> forall|j: int| 0 <= j < other.len_s() ==> (#[trigger] other.data@[j]).code()
                < other.unique_values@.len(),
            other.len_s() > 0 ==> dict_after(self.dict(), other.dict(), all_valid(other.unique_values@.len() as int)).len()
                <= T::n_codes(),
        ensures
            r matches Ok(out) && {
                &&& out.wf()
                &&& out.values() == self.values() + other.values()
                &&& other.len_s() == 0 ==> out == self
                &&& other.len_s() > 0 ==> out.dict() == dict_after(
                    self.dict(),
                    other.dict(),
                    all_valid(other.unique_values@.len() as int),
                )
                &&& other.len_s() > 0 ==> (out.null_mask is Some <==> (self.null_mask is Some
                    || other.null_mask is Some))
                &&& out.data@.subrange(0, self.len_s() as int) == self.data@
                &&& forall|q: int|
                    0 <= q < other.len_s() ==> out.data@[self.len_s() + q].code() < out.unique_values@.len()
                        && out.dict()[out.data@[self.len_s() + q].code() as int] == other.dict()[(
                    #[trigger] other.data@[q]).code() as int]
            },
    {
        let other_len = other.data.len();
        if other_len == 0 {
            proof {
                assert(self.values() + other.values() =~= self.values());
            }
            return Ok(self);
        }
        let ghost old_self = self;
        let mut me = self;
        let remap = me.intern_all(&other.unique_values);
        let ghost uv1 = me.unique_values;
        let orig = me.data.len();
        let mut j: usize = 0;
        while j < other_len
            invariant
                me.unique_values == uv1,
                other.wf(),
                other_len == other.data@.len(),
                forall|q: int| 0 <= q < other.len_s() ==> (#[trigger] other.data@[q]).code() < other.unique_values@.len(),
                remap@.len() == other.unique_values@.len(),
                forall|q: int|
                    0 <= q < other.unique_values@.len() ==> (#[trigger] remap@[q]).code() < me.unique_values@.len()
                        && me.dict()[remap@[q].code() as int] == other.unique_values@[q]@,
                j <= other_len,
                orig == old_self.data@.len(),
                me.data@.len() == orig + j,
                me.data@.subrange(0, orig as int) == old_self.data@,
                me.null_mask == old_self.null_mask,
                forall|q: int|
                    0 <= q < j ==> (#[trigger] me.data@[orig + q]).code() < me.unique_values@.len() && me.dict()[me.data@[orig
                        + q].code() as int] == other.dict()[other.data@[q].code() as int],
            decreases other_len - j,
        {
            let _nu = other.unique_values.len();
            let k = other.data[j].to_index();
            let c = remap[k];
            let ghost before = me.data@;
            me.data.push(c);
            proof {
                assert(me.data@.subrange(0, orig as int) =~= before.subrange(0, orig as int));
                assert forall|q: int| 0 <= q < j + 1 implies (#[trigger] me.data@[orig + q]).code() < me.unique_values@.len()
                    && me.dict()[me.data@[orig + q].code() as int] == other.dict()[other.data@[q].code() as int] by {
                    if q < j {
                        assert(me.data@[orig + q] == before[orig + q]);
                    }
                }
            }
            j = j + 1;
        }
        extend_null_mask(&mut me.null_mask, orig, other.null_mask.as_ref(), 0, other_len);
        proof {
            lemma_mask_append(old_self.null_mask, orig as nat, other.null_mask, other_len as nat, me.null_mask);
            assert(mask_bits(old_self.null_mask, old_self.len_s()).take(orig as int) =~= mask_bits(
                old_self.null_mask,
                old_self.len_s(),
            ));
            assert(mask_bits(old_self.null_mask, old_self.len_s()).skip(orig as int) =~= Seq::<bool>::empty());
            assert(mask_bits(me.null_mask, me.len_s()) =~= mask_bits(old_self.null_mask, old_self.len_s()).take(
                orig as int,
            ) + mask_bits(other.null_mask, other.len_s()) + mask_bits(old_self.null_mask, old_self.len_s()).skip(
                orig as int,
            ));
            assert forall|i: int| 0 <= i < orig implies me.data@[i] == old_self.data@[i] by {
                assert(me.data@[i] == me.data@.subrange(0, orig as int)[i]);
            }
            me.lemma_spliced_rows(&old_self, &other, orig as int);
            assert(old_self.values().take(orig as int) =~= old_self.values());
            assert(old_self.values().skip(orig as int) =~= Seq::<Option<Seq<char>>>::empty());
            assert(old_self.values().take(orig as int) + other.values() + old_self.values().skip(orig as int)
                =~= old_self.values() + other.values());
            assert forall|q: int| 0 <= q < other.len_s() implies me.data@[orig + q].code() < me.unique_values@.len()
                && me.dict()[me.data@[orig + q].code() as int] == other.dict()[(#[trigger] other.data@[q]).code() as int] by {
                assert(me.data@[orig + q] == me.data@[orig + q]);
            }
        }
        Ok(me)
    }

    /// Inserts `other`'s rows before row `index` (`index == len` appends).
    /// `other`'s dictionary is interned entry by entry into this one and
    /// its codes are mapped through it, at null rows too where the code
    /// lies in `other`'s dictionary (any other code at a null row becomes
    /// code 0); validity masks are spliced. Refused when `index` is past
    /// the end.
    pub fn insert_rows(&mut self, index: usize, other: &Self) -> (r: Result<(), MinarrowError>)
        requires
            old(self).wf(),
            other.wf(),
            (index <= old(self).len_s() && other.len_s() > 0) ==> dict_after(
                old(self).dict(),
                other.dict(),
                all_valid(other.unique_values@.len() as int),
            ).len() <= T::n_codes(),
        ensures
            r is Err <==> index > old(self).len_s(),
            r matches Err(e) ==> e is IndexError && e->IndexError_0@ == "Index "@ + decimal(index as nat)
                + " out of bounds for array of length "@ + decimal(old(self).len_s()),
            (r is Err || other.len_s() == 0) ==> *final(self) == *old(self),
            r is Ok ==> final(self).wf() && final(self).values() == old(self).values().take(index as int)
                + other.values() + old(self).values().skip(index as int),
            (r is Ok && other.len_s() > 0) ==> final(self).dict() == dict_after(
                old(self).dict(),
                other.dict(),
                all_valid(other.unique_values@.len() as int),
            ) && (final(self).null_mask is Some <==> (old(self).null_mask is Some || other.null_mask is Some)),
            r is Ok ==> forall|q: int|
                0 <= q < other.len_s() && (#[trigger] other.data@[q]).code() < other.unique_values@.len()
                    ==> final(self).data@[index + q].code() < final(self).unique_values@.len()
                    && final(self).dict()[final(self).data@[index + q].code() as int]
                    == other.dict()[other.data@[q].code() as int],
            r is Ok ==> forall|q: int|
                0 <= q < other.len_s() && !((#[trigger] other.data@[q]).code() < other.unique_values@.len())
                    ==> final(self).data@[index + q].code() == 0,
    {
        let orig = self.data.len();
        if index > orig {
            let mut msg = String::from_str("Index ");
            append_usize(&mut msg, index);
            msg.append(" out of bounds for array of length ");
            append_usize(&mut msg, orig);
            return Err(MinarrowError::IndexError(msg));
        }
        let other_len = other.data.len();
        if other_len == 0 {
            proof {
                assert(self.values().take(index as int) + other.values() + self.values().skip(index as int)
                    =~= self.values());
            }
            return Ok(());
        }
        let ghost old_self = *self;
        let remap = self.intern_all(&other.unique_values);
        let mut data: Vec<T> = Vec::new();
        let mut i: usize = 0;
        while i < index
            invariant
                i <= index <= orig,
                orig == self.data@.len(),
                data@ == self.data@.take(i as int),
            decreases index - i,
        {
            data.push(self.data[i]);
            i = i + 1;
            assert(data@ =~= self.data@.take(i as int));
        }
        let mut j: usize = 0;
        while j < other_len
            invariant
                other.wf(),
                other_len == other.data@.len(),
                remap@.len() == other.unique_values@.len(),
                forall|q: int|
                    0 <= q < other.unique_values@.len() ==> (#[trigger] remap@[q]).code() < self.unique_values@.len()
                        && self.dict()[remap@[q].code() as int] == other.unique_values@[q]@,
                j <= other_len,
                index <= orig,
                orig == self.data@.len(),
                data@.len() == index + j,
                data@.take(index as int) == self.data@.take(index as int),
                forall|q: int|
                    0 <= q < j && other.data@[q].code() < other.unique_values@.len() ==> (#[trigger] data@[index
                        + q]).code() < self.unique_values@.len() && self.dict()[data@[index + q].code() as int]
                        == other.dict()[other.data@[q].code() as int],
                forall|q: int|
                    0 <= q < j && !(other.data@[q].code() < other.unique_values@.len()) ==> (#[trigger] data@[index
                        + q]).code() == 0,
            decreases other_len - j,
        {
            let ghost before = data@;
            if other.data[j].below(other.unique_values.len()) {
                let k = other.data[j].to_index();
                data.push(remap[k]);
            } else {
                data.push(T::zero());
            }
            proof {
                assert(data@.take(index as int) =~= before.take(index as int));
                assert forall|q: int| 0 <= q < j + 1 && other.data@[q].code() < other.unique_values@.len() implies (#[trigger] data@[index + q]).code()
                    < self.unique_values@.len() && self.dict()[data@[index + q].code() as int] == other.dict()[other.data@[q].code() as int] by {
                    if q < j {
                        assert(data@[index + q] == before[index + q]);
                    }
                }
                assert forall|q: int| 0 <= q < j + 1 && !(other.data@[q].code() < other.unique_values@.len()) implies (#[trigger] data@[index + q]).code() == 0 by {
                    if q < j {
                        assert(data@[index + q] == before[index + q]);
                    }
                }
            }
            j = j + 1;
        }
        let mut i: usize = index;
        while i < orig
            invariant
                index <= i <= orig,
                orig == self.data@.len(),
                data@.len() == i + other_len,
                data@.take(index as int) == self.data@.take(index as int),
                forall|p: int| index <= p < i ==> #[trigger] data@[p + other_len] == self.data@[p],
                forall|q: int|
                    0 <= q < other_len && other.data@[q].code() < other.unique_values@.len() ==> (#[trigger] data@[index
                        + q]).code() < self.unique_values@.len() && self.dict()[data@[index + q].code() as int]
                        == other.dict()[other.data@[q].code() as int],
                forall|q: int|
                    0 <= q < other_len && !(other.data@[q].code() < other.unique_values@.len()) ==> (#[trigger] data@[index
                        + q]).code() == 0,
            decreases orig - i,
        {
            let ghost before = data@;
            data.push(self.data[i]);
            proof {
                assert(data@.take(index as int) =~= before.take(index as int));
                assert forall|p: int| index <= p < i + 1 implies #[trigger] data@[p + other_len] == self.data@[p] by {
                    if p < i {
                        assert(data@[p + other_len] == before[p + other_len]);
                    }
                }
                assert forall|q: int| 0 <= q < other_len && other.data@[q].code() < other.unique_values@.len() implies (#[trigger] data@[index + q]).code()
                    < self.unique_values@.len() && self.dict()[data@[index + q].code() as int] == other.dict()[other.data@[q].code() as int] by {
                    assert(data@[index + q] == before[index + q]);
                }
                assert forall|q: int| 0 <= q < other_len && !(other.data@[q].code() < other.unique_values@.len()) implies (#[trigger] data@[index + q]).code() == 0 by {
                    assert(data@[index + q] == before[index + q]);
                }
            }
            i = i + 1;
        }
        let ghost bo = mask_bits(old_self.null_mask, old_self.len_s());
        let ghost bt = mask_bits(other.null_mask, other.len_s());
        let new_mask = if self.null_mask.is_some() || other.null_mask.is_some() {
            let mut bits: Vec<bool> = Vec::new();
            let mut i: usize = 0;
            while i < index
                invariant
                    i <= index <= orig,
                    orig == self.data@.len(),
                    self.null_mask == old_self.null_mask,
                    old_self.wf(),
                    orig == old_self.len_s(),
                    bo == mask_bits(old_self.null_mask, old_self.len_s()),
                    bits@ == bo.take(i as int),
                decreases index - i,
            {
                bits.push(bit_at(&self.null_mask, i));
                i = i + 1;
                assert(bits@ =~= bo.take(i as int));
            }
            let mut j: usize = 0;
            while j < other_len
                invariant
                    j <= other_len,
                    other.wf(),
                    other_len == other.len_s(),
                    bt == mask_bits(other.null_mask, other.len_s()),
                    bits@ == bo.take(index as int) + bt.take(j as int),
                decreases other_len - j,
            {
                bits.push(bit_at(&other.null_mask, j));
                j = j + 1;
                assert(bits@ =~= bo.take(index as int) + bt.take(j as int));
            }
            let mut i: usize = index;
            while i < orig
                invariant
                    index <= i <= orig,
                    self.null_mask == old_self.null_mask,
                    old_self.wf(),
                    orig == old_self.len_s(),
                    bo == mask_bits(old_self.null_mask, old_self.len_s()),
                    bits@ == bo.take(index as int) + bt + bo.subrange(index as int, i as int),
                decreases orig - i,
            {
                bits.push(bit_at(&self.null_mask, i));
                i = i + 1;
                assert(bits@ =~= bo.take(index as int) + bt + bo.subrange(index as int, i as int));
            }
            proof {
                assert(bt.take(other_len as int) =~= bt);
                assert(bo.subrange(index as int, orig as int) =~= bo.skip(index as int));
            }
            Some(bits)
        } else {
            None
        };
        self.data = data;
        self.null_mask = new_mask;
        proof {
            assert(mask_bits(self.null_mask, self.len_s()) =~= bo.take(index as int) + bt + bo.skip(index as int));
            assert forall|p: int| 0 <= p < index implies self.data@[p] == old_self.data@[p] by {
                assert(self.data@[p] == self.data@.take(index as int)[p]);
            }
            self.lemma_spliced_rows(&old_self, other, index as int);
        }
        Ok(())
    }

}


impl<T: CategoryCode> CategoricalArray<T> {
    /// The validity mask, when there is one.
    pub fn null_mask(&self) -> (m: Option<&Vec<bool>>)
        ensures
            m matches Some(v) ==> self.null_mask == Some(*v),
            m is None <==> self.null_mask is None,
    {
        self.null_mask.as_ref()
    }

    /// Replaces the validity mask.
    pub fn set_null_mask(&mut self, mask: Option<Vec<bool>>)
        ensures
            final(self).null_mask == mask,
            final(self).data == old(self).data,
            final(self).unique_values == old(self).unique_values,
    {
        self.null_mask = mask;
    }

    /// Every row's string, with `""` for null rows.
    pub fn iter_str(&self) -> (out: Vec<&str>)
        requires
            self.wf(),
        ensures
            out@.len() == self.len_s(),
            forall|i: int|
                0 <= i < self.len_s() ==> (#[trigger] out@[i])@ == match self.value_at(i) {
                    Some(v) => v,
                    None => ""@,
                },
    {
        let mut out: Vec<&str> = Vec::new();
        let mut i: usize = 0;
        while i < self.data.len()
            invariant
                self.wf(),
                i <= self.len_s(),
                out@.len() == i,
                forall|k: int|
                    0 <= k < i ==> (#[trigger] out@[k])@ == match self.value_at(k) {
                        Some(v) => v,
                        None => ""@,
                    },
            decreases self.len_s() - i,
        {
            match self.get_str(i) {
                Some(v) => out.push(v),
                None => out.push(""),
            }
            i = i + 1;
        }
        out
    }

    /// Every row's string, `None` for null rows.
    pub fn iter_str_opt(&self) -> (out: Vec<Option<&str>>)
        requires
            self.wf(),
        ensures
            out@.len() == self.len_s(),
            forall|i: int|
                0 <= i < self.len_s() ==> ((#[trigger] out@[i]) is None <==> self.value_at(i) is None),
            forall|i: int|
                0 <= i < self.len_s() ==> ((#[trigger] out@[i]) matches Some(v) ==> self.value_at(i) == Some(v@)),
    {
        let mut out: Vec<Option<&str>> = Vec::new();
        let mut i: usize = 0;
        while i < self.data.len()
            invariant
                self.wf(),
                i <= self.len_s(),
                out@.len() == i,
                forall|k: int| 0 <= k < i ==> ((#[trigger] out@[k]) is None <==> self.value_at(k) is None),
                forall|k: int| 0 <= k < i ==> ((#[trigger] out@[k]) matches Some(v) ==> self.value_at(k) == Some(v@)),
            decreases self.len_s() - i,
        {
            out.push(self.get_str(i));
            i = i + 1;
        }
        out
    }
}


/// Splitting at a row and concatenating the two parts gives back every
/// row, in order.
pub proof fn law_split_then_concat_rows<T: CategoryCode>(
    whole: CategoricalArray<T>,
    index: int,
    a: CategoricalArray<T>,
    b: CategoricalArray<T>,
    joined: CategoricalArray<T>,
)
    requires
        0 <= index <= whole.len_s(),
        a.values() == whole.values().take(index),
        b.values() == whole.values().skip(index),
        joined.values() == a.values() + b.values(),
    ensures
        joined.values() == whole.values(),
{
    assert(whole.values().take(index) + whole.values().skip(index) =~= whole.values());
}

/// Inserting rows and then deleting the rows just inserted gives back the
/// rows there were before.
pub proof fn law_insert_then_delete<T: CategoryCode>(
    before: CategoricalArray<T>,
    index: int,
    other: CategoricalArray<T>,
    inserted: CategoricalArray<T>,
    after: CategoricalArray<T>,
)
    requires
        0 <= index <= before.len_s(),
        inserted.values() == before.values().take(index) + other.values() + before.values().skip(index),
        after.values() == inserted.values().take(index) + inserted.values().skip(index + other.len_s()),
    ensures
        after.values() == before.values(),
{
    let v = before.values();
    let w = inserted.values();
    assert(w.take(index) =~= v.take(index));
    assert(w.skip(index + other.len_s()) =~= v.skip(index));
    assert(v.take(index) + v.skip(index) =~= v);
}


/// How one row reads in a description: the string in quotes, or `null`.
pub open spec fn item_text(v: Option<Seq<char>>) -> Seq<char> {
    match v {
        Some(s) => "\""@ + s + "\""@,
        None => "null"@,
    }
}

/// Rows as they read in a description, separated by `", "`.
pub open spec fn items_text(vals: Seq<Option<Seq<char>>>) -> Seq<char>
    decreases vals.len(),
{
    if vals.len() == 0 {
        Seq::empty()
    } else if vals.len() == 1 {
        item_text(vals[0])
    } else {
        items_text(vals.drop_last()) + ", "@ + item_text(vals.last())
    }
}

/// At most this many rows are listed in a description.
pub const MAX_PREVIEW: usize = 25;

impl<T: CategoryCode> CategoricalArray<T> {
    /// The description: a header with the row count, null count and
    /// dictionary size, then the first rows (at most `MAX_PREVIEW`).
    pub open spec fn describe_text(&self) -> Seq<char> {
        let n = self.len_s();
        let shown = if n < MAX_PREVIEW {
            n
        } else {
            MAX_PREVIEW as nat
        };
        "CategoricalArray ["@ + decimal(n) + " values]s] (dtype: categorical[str], nulls: "@ + decimal(
            count_false(mask_bits(self.null_mask, n)),
        ) + ", dictionary size: "@ + decimal(self.unique_values@.len()) + ")\n["@ + items_text(
            self.values().take(shown as int),
        ) + (if n > MAX_PREVIEW {
            ", \u{2026} ("@ + decimal(n) + " total)"@
        } else {
            Seq::empty()
        }) + "]"@
    }

    /// A description: header line, then the first rows.
    pub fn describe(&self) -> (s: String)
        requires
            self.wf(),
        ensures
            s@ == self.describe_text(),
    {
        let n = self.data.len();
        let mut s = String::from_str("CategoricalArray [");
        append_usize(&mut s, n);
        s.append(" values]s] (dtype: categorical[str], nulls: ");
        append_usize(&mut s, self.null_count());
        s.append(", dictionary size: ");
        append_usize(&mut s, self.unique_values.len());
        s.append(")\n[");
        let ghost head = s@;
        let shown = if n < MAX_PREVIEW {
            n
        } else {
            MAX_PREVIEW
        };
        let mut i: usize = 0;
        assert(self.values().take(0) =~= Seq::<Option<Seq<char>>>::empty());
        while i < shown
            invariant
                self.wf(),
                shown <= n,
                n == self.len_s(),
                i <= shown,
                s@ == head + items_text(self.values().take(i as int)),
            decreases shown - i,
        {
            if i > 0 {
                s.append(", ");
            }
            match self.get_str(i) {
                Some(v) => {
                    s.append("\"");
                    s.append(v);
                    s.append("\"");
                },
                None => {
                    s.append("null");
                },
            }
            proof {
                let t = self.values().take(i as int + 1);
                assert(t.drop_last() =~= self.values().take(i as int));
                assert(t.last() == self.value_at(i as int));
                if i == 0 {
                    assert(self.values().take(0) =~= Seq::<Option<Seq<char>>>::empty());
                }
            }
            i = i + 1;
        }
        if n > MAX_PREVIEW {
            s.append(", \u{2026} (");
            append_usize(&mut s, n);
            s.append(" total)");
        }
        s.append("]");
        s
    }
}


/// A window `(array, offset, len)` that lies inside a well-formed array.
pub open spec fn view_ok<T: CategoryCode>(v: (&CategoricalArray<T>, usize, usize)) -> bool {
    &&& v.0.wf()
    &&& v.1 + v.2 <= v.0.len_s()
}

/// Every row of the window's array inside the window holds a code inside
/// that array's dictionary, null rows included.
pub open spec fn view_codes_in_range<T: CategoryCode>(v: (&CategoricalArray<T>, usize, usize)) -> bool {
    forall|i: int| v.1 <= i < v.1 + v.2 ==> (#[trigger] v.0.data@[i]).code() < v.0.unique_values@.len()
}

/// The rows a window shows.
pub open spec fn view_values<T: CategoryCode>(v: (&CategoricalArray<T>, usize, usize)) -> Seq<Option<Seq<char>>> {
    v.0.values().subrange(v.1 as int, v.1 + v.2)
}

/// The rows of windows laid end to end.
pub open spec fn views_values<T: CategoryCode>(vs: Seq<(&CategoricalArray<T>, usize, usize)>) -> Seq<Option<Seq<char>>>
    decreases vs.len(),
{
    if vs.len() == 0 {
        Seq::empty()
    } else {
        views_values(vs.drop_last()) + view_values(vs.last())
    }
}

/// How many rows the windows show together.
pub open spec fn views_len<T: CategoryCode>(vs: Seq<(&CategoricalArray<T>, usize, usize)>) -> int
    decreases vs.len(),
{
    if vs.len() == 0 {
        0
    } else {
        views_len(vs.drop_last()) + vs.last().2
    }
}

/// Windows inside their arrays show as many rows together as their
/// lengths add up to.
proof fn lemma_views_values_len<T: CategoryCode>(vs: Seq<(&CategoricalArray<T>, usize, usize)>)
    requires
        forall|j: int| 0 <= j < vs.len() ==> #[trigger] view_ok(vs[j]),
    ensures
        views_values(vs).len() == views_len(vs),
        views_len(vs) >= 0,
    decreases vs.len(),
{
    if vs.len() > 0 {
        let prev = vs.drop_last();
        assert forall|j: int| 0 <= j < prev.len() implies #[trigger] view_ok(prev[j]) by {
            assert(prev[j] == vs[j]);
        }
        lemma_views_values_len(prev);
        assert(view_ok(vs[vs.len() - 1]));
    }
}

/// Consolidation lays the windows end to end: row `i` of window `k` is row
/// `i` after all the rows of the windows before it.
pub proof fn law_window_rows_in_consolidation<T: CategoryCode>(
    vs: Seq<(&CategoricalArray<T>, usize, usize)>,
    k: int,
    i: int,
)
    requires
        forall|j: int| 0 <= j < vs.len() ==> #[trigger] view_ok(vs[j]),
        0 <= k < vs.len(),
        0 <= i < vs[k].2,
    ensures
        0 <= views_len(vs.take(k)) + i < views_values(vs).len(),
        views_values(vs)[views_len(vs.take(k)) + i] == vs[k].0.values()[vs[k].1 + i],
    decreases vs.len(),
{
    let prev = vs.drop_last();
    assert forall|j: int| 0 <= j < prev.len() implies #[trigger] view_ok(prev[j]) by {
        assert(prev[j] == vs[j]);
    }
    lemma_views_values_len(prev);
    lemma_views_values_len(vs);
    assert(view_ok(vs[k]));
    if k == vs.len() - 1 {
        assert(vs.take(k) =~= prev);
        let l = vs.last();
        assert(view_values(l).len() == l.2);
        assert(views_values(vs) == views_values(prev) + view_values(l));
        assert(views_values(vs)[views_len(prev) + i] == view_values(l)[i]);
    } else {
        assert(prev.take(k) =~= vs.take(k));
        assert(prev[k] == vs[k]);
        law_window_rows_in_consolidation(prev, k, i);
        assert(views_values(vs) == views_values(prev) + view_values(vs.last()));
    }
}

/// The dictionary that consolidating windows builds: the first window's
/// dictionary, with the dictionary of every later non-empty window
/// interned into it in turn.
pub open spec fn views_dict<T: CategoryCode>(vs: Seq<(&CategoricalArray<T>, usize, usize)>) -> Seq<Seq<char>>
    decreases vs.len(),
{
    if vs.len() == 0 {
        Seq::empty()
    } else if vs.len() == 1 {
        vs[0].0.dict()
    } else {
        let d = views_dict(vs.drop_last());
        if vs.last().2 > 0 {
            dict_after(d, vs.last().0.dict(), all_valid(vs.last().0.unique_values@.len() as int))
        } else {
            d
        }
    }
}

/// The dictionary built from the first `k` windows is a prefix of the one
/// built from all of them.
pub proof fn lemma_views_dict_grows<T: CategoryCode>(vs: Seq<(&CategoricalArray<T>, usize, usize)>, k: int)
    requires
        1 <= k <= vs.len(),
    ensures
        views_dict(vs.take(k)).is_prefix_of(views_dict(vs)),
    decreases vs.len(),
{
    if k == vs.len() {
        assert(vs.take(k) =~= vs);
    } else {
        let prev = vs.drop_last();
        assert(vs.take(k) =~= prev.take(k));
        lemma_views_dict_grows(prev, k);
        let d = views_dict(prev);
        if vs.last().2 > 0 {
            let l = vs.last().0;
            lemma_dict_after_grows(d, l.dict(), all_valid(l.unique_values@.len() as int), 0);
        }
    }
}

impl<'a, T: CategoryCode> Consolidate for Vec<(&'a CategoricalArray<T>, usize, usize)> {
    type Output = CategoricalArray<T>;

    open spec fn can_consolidate(&self) -> bool {
        &&& self@.len() > 0
        &&& forall|k: int| 0 <= k < self@.len() ==> #[trigger] view_ok(self@[k])
        &&& forall|k: int| 1 <= k < self@.len() && self@[k].2 > 0 ==> #[trigger] view_codes_in_range(self@[k])
        &&& views_dict(self@).len() <= T::n_codes()
    }

    open spec fn consolidates_to(&self, out: &CategoricalArray<T>) -> bool {
        &&& out.wf()
        &&& out.values() == views_values(self@)
        &&& out.dict() == views_dict(self@)
    }

    /// Copies the windows, in order, into one array: the first window's
    /// dictionary, each later window's dictionary interned into it and
    /// its codes mapped through.
    fn consolidate(self) -> (out: CategoricalArray<T>) {
        let (a0, o0, l0) = self[0];
        proof {
            assert(view_ok(self@[0]));
        }
        let mut result = a0.slice_clone(o0, l0);
        proof {
            assert(self@.len() > 0);
            assert(self@.take(1).drop_last() =~= Seq::<(&CategoricalArray<T>, usize, usize)>::empty());
            assert(self@.take(1).last() == self@[0]);
            assert(views_values(Seq::<(&CategoricalArray<T>, usize, usize)>::empty()) =~= Seq::<
                Option<Seq<char>>,
            >::empty());
            assert(views_values(self@.take(1)) =~= view_values(self@[0]));
            assert(views_dict(self@.take(1)) == self@[0].0.dict());
        }
        let mut k: usize = 1;
        while k < self.len()
            invariant
                1 <= k <= self@.len(),
                self@.len() > 0,
                forall|q: int| 0 <= q < self@.len() ==> #[trigger] view_ok(self@[q]),
                forall|q: int| 1 <= q < self@.len() && self@[q].2 > 0 ==> #[trigger] view_codes_in_range(self@[q]),
                views_dict(self@).len() <= T::n_codes(),
                result.wf(),
                result.values() == views_values(self@.take(k as int)),
                result.dict() == views_dict(self@.take(k as int)),
            decreases self@.len() - k,
        {
            let (a, o, l) = self[k];
            proof {
                assert(view_ok(self@[k as int]));
            }
            let chunk = a.slice_clone(o, l);
            let ghost t = self@.take(k as int + 1);
            proof {
                assert(t.drop_last() =~= self@.take(k as int));
                assert(t.last() == self@[k as int]);
                lemma_views_dict_grows(self@, k as int + 1);
                if l > 0 {
                    assert(view_codes_in_range(self@[k as int]));
                    assert forall|j: int| 0 <= j < chunk.len_s() implies (#[trigger] chunk.data@[j]).code()
                        < chunk.unique_values@.len() by {
                        assert(chunk.data@[j] == a.data@[o + j]);
                    }
                }
            }
            result = result.concat(chunk).unwrap();
            k = k + 1;
        }
        proof {
            assert(self@.take(self@.len() as int) =~= self@);
        }
        result
    }
}


impl<T: CategoryCode> CategoricalArray<T> {
    /// The strings of rows `offset .. offset + len`, with `""` for null rows.
    pub fn iter_str_range(&self, offset: usize, len: usize) -> (out: Vec<&str>)
        requires
            self.wf(),
            offset + len <= self.len_s(),
        ensures
            out@.len() == len,
            forall|i: int|
                0 <= i < len ==> (#[trigger] out@[i])@ == match self.value_at(offset + i) {
                    Some(v) => v,
                    None => ""@,
                },
    {
        let _n = self.data.len();
        let mut out: Vec<&str> = Vec::new();
        let mut i: usize = 0;
        while i < len
            invariant
                self.wf(),
                self.len_s() <= usize::MAX,
                offset + len <= self.len_s(),
                i <= len,
                out@.len() == i,
                forall|k: int|
                    0 <= k < i ==> (#[trigger] out@[k])@ == match self.value_at(offset + k) {
                        Some(v) => v,
                        None => ""@,
                    },
            decreases len - i,
        {
            match self.get_str(offset + i) {
                Some(v) => out.push(v),
                None => out.push(""),
            }
            i = i + 1;
        }
        out
    }

    /// The strings of rows `offset .. offset + len`, `None` for null rows.
    pub fn iter_str_opt_range(&self, offset: usize, len: usize) -> (out: Vec<Option<&str>>)
        requires
            self.wf(),
            offset + len <= self.len_s(),
        ensures
            out@.len() == len,
            forall|i: int| 0 <= i < len ==> ((#[trigger] out@[i]) is None <==> self.value_at(offset + i) is None),
            forall|i: int|
                0 <= i < len ==> ((#[trigger] out@[i]) matches Some(v) ==> self.value_at(offset + i) == Some(v@)),
    {
        let _n = self.data.len();
        let mut out: Vec<Option<&str>> = Vec::new();
        let mut i: usize = 0;
        while i < len
            invariant
                self.wf(),
                self.len_s() <= usize::MAX,
                offset + len <= self.len_s(),
                i <= len,
                out@.len() == i,
                forall|k: int| 0 <= k < i ==> ((#[trigger] out@[k]) is None <==> self.value_at(offset + k) is None),
                forall|k: int|
                    0 <= k < i ==> ((#[trigger] out@[k]) matches Some(v) ==> self.value_at(offset + k) == Some(v@)),
            decreases len - i,
        {
            out.push(self.get_str(offset + i));
            i = i + 1;
        }
        out
    }
}


impl<T: CategoryCode> Shape for CategoricalArray<T> {
    open spec fn classifies(&self, d: ShapeDim) -> bool {
        d == ShapeDim::Rank1(self.len_s() as usize)
    }

    /// One dimension of `len` rows.
    fn shape(&self) -> (d: ShapeDim) {
        ShapeDim::Rank1(self.data.len())
    }
}


impl<T: CategoryCode> CategoricalArray<T> {
    /// The codes, mutably. A code written at a valid row must stay inside
    /// the dictionary for the array to stay well formed.
    pub fn indices_mut(&mut self) -> (s: &mut [T])
        ensures
            s@ == old(self).data@,
            final(self).data@ == final(s)@,
            final(self).unique_values == old(self).unique_values,
            final(self).null_mask == old(self).null_mask,
    {
        self.data.as_mut_slice()
    }

    /// The dictionary, mutably. Replacing an entry changes what every row
    /// holding its code decodes to.
    pub fn values_mut(&mut self) -> (s: &mut [String])
        ensures
            s@ == old(self).unique_values@,
            final(self).unique_values@ == final(s)@,
            final(self).data == old(self).data,
            final(self).null_mask == old(self).null_mask,
    {
        self.unique_values.as_mut_slice()
    }
}

} // verus!
