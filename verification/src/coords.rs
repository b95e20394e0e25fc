//! Coordinate labels for a labelled axis, and the scalar values used to
//! look positions up by label.
//!
//! Integer and datetime coordinates compare in their own integer domain
//! (signed or unsigned), text coordinates by string equality and by the
//! byte-wise lexicographic order of `str`.

use vstd::prelude::*;

use crate::error::MinarrowError;
use crate::text::{str_eq, str_le, text_le};

verus! {

/// Coordinate labels along one axis.
#[derive(Debug, PartialEq)]
pub enum Coords {
    Int32(Vec<i32>),
    Int64(Vec<i64>),
    UInt32(Vec<u32>),
    UInt64(Vec<u64>),
    Text(Vec<String>),
    /// Datetime ticks in the axis's time unit.
    Datetime64(Vec<i64>),
}

/// A coordinate value to look up.
#[derive(Debug, Clone, PartialEq, Eq)]
pub enum Scalar {
    Int64(i64),
    UInt64(u64),
    Str(String),
}

/// The integer a scalar stands for, when it is a number.
pub open spec fn scalar_int(v: &Scalar) -> Option<int> {
    match v {
        Scalar::Int64(x) => Some(*x as int),
        Scalar::UInt64(x) => Some(*x as int),
        Scalar::Str(_) => None,
    }
}

/// A scalar converts to an integer type exactly when its value lies in
/// that type's range, and then keeps its value: a non-negative `Int64`
/// becomes the same unsigned value, an `UInt64` up to `i64::MAX` the same
/// signed value.
pub proof fn law_scalar_conversions_keep_value(v: &Scalar)
    ensures
        v.as_u64() is Some <==> (scalar_int(v) matches Some(x) && 0 <= x <= u64::MAX),
        v.as_u64() matches Some(y) ==> scalar_int(v) == Some(y as int),
        v.as_i64() is Some <==> (scalar_int(v) matches Some(x) && i64::MIN <= x <= i64::MAX),
        v.as_i64() matches Some(y) ==> scalar_int(v) == Some(y as int),
{
}

impl Scalar {
    pub open spec fn as_i64(&self) -> Option<i64> {
        match self {
            Scalar::Int64(v) => Some(*v),
            Scalar::UInt64(v) => if *v <= i64::MAX as u64 {
                Some(*v as i64)
            } else {
                None
            },
            Scalar::Str(_) => None,
        }
    }

    pub open spec fn as_u64(&self) -> Option<u64> {
        match self {
            Scalar::UInt64(v) => Some(*v),
            Scalar::Int64(v) => if *v >= 0 {
                Some(*v as u64)
            } else {
                None
            },
            Scalar::Str(_) => None,
        }
    }

    /// The value as a signed integer, if it has one.
    pub fn try_i64(&self) -> (r: Option<i64>)
        ensures
            r == self.as_i64(),
            r is Some <==> (scalar_int(self) matches Some(x) && i64::MIN <= x <= i64::MAX),
            r matches Some(y) ==> scalar_int(self) == Some(y as int),
    {
        match self {
            Scalar::Int64(v) => Some(*v),
            Scalar::UInt64(v) => if *v <= i64::MAX as u64 {
                Some(*v as i64)
            } else {
                None
            },
            Scalar::Str(_) => None,
        }
    }

    /// The value as an unsigned integer, if it has one.
    pub fn try_u64(&self) -> (r: Option<u64>)
        ensures
            r == self.as_u64(),
            r is Some <==> (scalar_int(self) matches Some(x) && 0 <= x <= u64::MAX),
            r matches Some(y) ==> scalar_int(self) == Some(y as int),
    {
        match self {
            Scalar::UInt64(v) => Some(*v),
            Scalar::Int64(v) => if *v >= 0 {
                Some(*v as u64)
            } else {
                None
            },
            Scalar::Str(_) => None,
        }
    }

    /// The value as text, if it is text.
    pub fn try_str(&self) -> (r: Option<&str>)
        ensures
            self is Str ==> (r matches Some(s) && s@ == self->Str_0@),
            !(self is Str) ==> r is None,
    {
        match self {
            Scalar::Str(s) => Some(s.as_str()),
            _ => None,
        }
    }
}

/// Kind, integer labels and text labels of a coordinate axis.
pub type CoordsView = (int, Seq<int>, Seq<Seq<char>>);

impl View for Coords {
    type V = CoordsView;

    open spec fn view(&self) -> CoordsView {
        (
            self.kind(),
            Seq::new(self.len_s(), |i: int| self.int_at(i)),
            Seq::new(self.len_s(), |i: int| self.text_at(i)),
        )
    }
}

impl Clone for Coords {
    fn clone(&self) -> (out: Self)
        ensures
            out@ == self@,
    {
        let out = self.duplicate();
        proof {
            lemma_same_view(&out, self);
        }
        out
    }
}

/// Two coordinate axes are the same exactly when their views are equal.
pub proof fn lemma_same_view(a: &Coords, b: &Coords)
    ensures
        a.same(b) <==> a@ == b@,
{
    if a.same(b) {
        assert(a@.1 =~= b@.1);
        assert(a@.2 =~= b@.2);
    }
    if a@ == b@ {
        assert(a@.1.len() == b@.1.len());
        assert forall|i: int| 0 <= i < a.len_s() implies #[trigger] a.int_at(i) == b.int_at(i) by {
            assert(a@.1[i] == a.int_at(i));
            assert(b@.1[i] == b.int_at(i));
        }
        assert forall|i: int| 0 <= i < a.len_s() implies #[trigger] a.text_at(i) == b.text_at(i) by {
            assert(a@.2[i] == a.text_at(i));
            assert(b@.2[i] == b.text_at(i));
        }
    }
}

impl Coords {
    /// Number of coordinates.
    pub open spec fn len_s(&self) -> nat {
        match self {
            Coords::Int32(v) => v@.len(),
            Coords::Int64(v) => v@.len(),
            Coords::UInt32(v) => v@.len(),
            Coords::UInt64(v) => v@.len(),
            Coords::Text(v) => v@.len(),
            Coords::Datetime64(v) => v@.len(),
        }
    }

    /// Signed integer coordinates (datetime ticks included).
    pub open spec fn is_signed(&self) -> bool {
        self is Int32 || self is Int64 || self is Datetime64
    }

    /// Unsigned integer coordinates.
    pub open spec fn is_unsigned(&self) -> bool {
        self is UInt32 || self is UInt64
    }

    /// Coordinate `i` of an integer kind, as a mathematical integer.
    pub open spec fn int_at(&self, i: int) -> int {
        match self {
            Coords::Int32(v) => v@[i] as int,
            Coords::Int64(v) => v@[i] as int,
            Coords::UInt32(v) => v@[i] as int,
            Coords::UInt64(v) => v@[i] as int,
            Coords::Text(_) => 0,
            Coords::Datetime64(v) => v@[i] as int,
        }
    }

    /// Coordinate `i` of text coordinates.
    pub open spec fn text_at(&self, i: int) -> Seq<char> {
        match self {
            Coords::Text(v) => v@[i]@,
            _ => Seq::empty(),
        }
    }

    /// The lookup target of `v` in this coordinate kind's integer domain.
    pub open spec fn int_target(&self, v: &Scalar) -> Option<int> {
        if self.is_signed() {
            match v.as_i64() {
                Some(x) => Some(x as int),
                None => None,
            }
        } else if self.is_unsigned() {
            match v.as_u64() {
                Some(x) => Some(x as int),
                None => None,
            }
        } else {
            None
        }
    }

    /// A scalar is looked up by its own value: in a signed kind the
    /// target is the scalar's value when it fits an `i64`, in an unsigned
    /// kind when it fits a `u64`; otherwise, and for text, there is none.
    pub proof fn law_int_target_is_value(&self, v: &Scalar)
        ensures
            self.is_signed() ==> self.int_target(v) == (if scalar_int(v) matches Some(x) && i64::MIN <= x
                <= i64::MAX {
                scalar_int(v)
            } else {
                None
            }),
            self.is_unsigned() ==> self.int_target(v) == (if scalar_int(v) matches Some(x) && 0 <= x
                <= u64::MAX {
                scalar_int(v)
            } else {
                None
            }),
            !self.is_signed() && !self.is_unsigned() ==> self.int_target(v) is None,
    {
    }

    /// Coordinate `i` equals the looked-up value.
    pub open spec fn matches_at(&self, i: int, v: &Scalar) -> bool {
        if self is Text {
            v is Str && self.text_at(i) == v->Str_0@
        } else {
            self.int_target(v) matches Some(t) && self.int_at(i) == t
        }
    }

    /// Coordinate `i` lies inside the inclusive bounds `[lo, hi]`: text
    /// lexicographically, integers in the coordinate kind's domain.
    pub open spec fn in_window(&self, i: int, lo: &Scalar, hi: &Scalar) -> bool {
        if self is Text {
            &&& lo is Str
            &&& hi is Str
            &&& text_le(lo->Str_0@, self.text_at(i))
            &&& text_le(self.text_at(i), hi->Str_0@)
        } else {
            &&& self.int_target(lo) matches Some(l)
            &&& self.int_target(hi) matches Some(h)
            &&& l <= self.int_at(i) <= h
        }
    }

    /// Coordinate `p` is closest to `t`, and strictly closer than every
    /// earlier coordinate.
    pub open spec fn nearest_at(&self, p: int, t: int) -> bool {
        &&& 0 <= p < self.len_s()
        &&& forall|q: int| 0 <= q < self.len_s() ==> int_dist(self.int_at(p), t) <= int_dist(#[trigger] self.int_at(q), t)
        &&& forall|q: int| 0 <= q < p ==> int_dist(self.int_at(p), t) < int_dist(#[trigger] self.int_at(q), t)
    }

    /// Which of the six kinds.
    pub open spec fn kind(&self) -> int {
        match self {
            Coords::Int32(_) => 0,
            Coords::Int64(_) => 1,
            Coords::UInt32(_) => 2,
            Coords::UInt64(_) => 3,
            Coords::Text(_) => 4,
            Coords::Datetime64(_) => 5,
        }
    }

    /// Same kind and same labels.
    pub open spec fn same(&self, other: &Coords) -> bool {
        &&& self.kind() == other.kind()
        &&& self.len_s() == other.len_s()
        &&& forall|i: int| 0 <= i < self.len_s() ==> #[trigger] self.int_at(i) == other.int_at(i)
        &&& forall|i: int| 0 <= i < self.len_s() ==> #[trigger] self.text_at(i) == other.text_at(i)
    }

    /// Number of coordinates.
    pub fn len(&self) -> (n: usize)
        ensures
            n == self.len_s(),
    {
        match self {
            Coords::Int32(v) => v.len(),
            Coords::Int64(v) => v.len(),
            Coords::UInt32(v) => v.len(),
            Coords::UInt64(v) => v.len(),
            Coords::Text(v) => v.len(),
            Coords::Datetime64(v) => v.len(),
        }
    }

    /// Which of the six kinds, as a number.
    pub fn kind_tag(&self) -> (k: u8)
        ensures
            k == self.kind(),
    {
        match self {
            Coords::Int32(_) => 0,
            Coords::Int64(_) => 1,
            Coords::UInt32(_) => 2,
            Coords::UInt64(_) => 3,
            Coords::Text(_) => 4,
            Coords::Datetime64(_) => 5,
        }
    }

    /// The labels of text coordinates.
    pub fn texts(&self) -> (r: Option<&Vec<String>>)
        ensures
            self is Text <==> r is Some,
            r matches Some(v) ==> v@.len() == self.len_s() && forall|i: int|
                0 <= i < v@.len() ==> #[trigger] v@[i]@ == self.text_at(i),
    {
        match self {
            Coords::Text(v) => Some(v),
            _ => None,
        }
    }

    /// An equal copy.
    pub fn duplicate(&self) -> (out: Coords)
        ensures
            out.same(self),
    {
        self.slice_clone(0, self.len())
    }

    /// Copy of the coordinates `offset .. offset + len`.
    pub fn slice_clone(&self, offset: usize, len: usize) -> (out: Coords)
        requires
            offset + len <= self.len_s(),
        ensures
            out.len_s() == len,
            out.kind() == self.kind(),
            forall|i: int| 0 <= i < len ==> #[trigger] out.int_at(i) == self.int_at(offset + i),
            forall|i: int| 0 <= i < len ==> #[trigger] out.text_at(i) == self.text_at(offset + i),
    {
        let n = self.len();
        let end = offset + len;
        match self {
            Coords::Int32(v) => Coords::Int32(
                vstd::slice::slice_to_vec(vstd::slice::slice_subrange(v.as_slice(), offset, end)),
            ),
            Coords::Int64(v) => Coords::Int64(
                vstd::slice::slice_to_vec(vstd::slice::slice_subrange(v.as_slice(), offset, end)),
            ),
            Coords::UInt32(v) => Coords::UInt32(
                vstd::slice::slice_to_vec(vstd::slice::slice_subrange(v.as_slice(), offset, end)),
            ),
            Coords::UInt64(v) => Coords::UInt64(
                vstd::slice::slice_to_vec(vstd::slice::slice_subrange(v.as_slice(), offset, end)),
            ),
            Coords::Datetime64(v) => Coords::Datetime64(
                vstd::slice::slice_to_vec(vstd::slice::slice_subrange(v.as_slice(), offset, end)),
            ),
            Coords::Text(v) => {
                let mut out: Vec<String> = Vec::new();
                let mut i: usize = 0;
                while i < len
                    invariant
                        n == v@.len(),
                        end == offset + len,
                        end <= n,
                        i <= len,
                        out@.len() == i,
                        forall|k: int| 0 <= k < i ==> #[trigger] out@[k]@ == v@[offset + k]@,
                    decreases len - i,
                {
                    out.push(v[offset + i].clone());
                    i = i + 1;
                }
                Coords::Text(out)
            },
        }
    }

    /// Same kind and same labels, compared element by element.
    pub fn equals(&self, other: &Coords) -> (r: bool)
        ensures
            r == self.same(other),
    {
        if self.kind_tag() != other.kind_tag() {
            return false;
        }
        let n = self.len();
        if n != other.len() {
            return false;
        }
        match (self.widened(), other.widened()) {
            (Some(a), Some(b)) => {
                let mut i: usize = 0;
                while i < n
                    invariant
                        n == a@.len(),
                        n == b@.len(),
                        n == self.len_s(),
                        forall|k: int| 0 <= k < n ==> #[trigger] a@[k] as int == self.int_at(k),
                        forall|k: int| 0 <= k < n ==> #[trigger] b@[k] as int == other.int_at(k),
                        i <= n,
                        forall|k: int| 0 <= k < i ==> a@[k] == b@[k],
                    decreases n - i,
                {
                    if a[i] != b[i] {
                        assert(self.int_at(i as int) != other.int_at(i as int));
                        return false;
                    }
                    i = i + 1;
                }
                assert forall|k: int| 0 <= k < n implies #[trigger] self.int_at(k) == other.int_at(k) by {
                    assert(a@[k] == b@[k]);
                }
                true
            },
            _ => {
                let a = self.texts().unwrap();
                let b = other.texts().unwrap();
                let mut i: usize = 0;
                while i < n
                    invariant
                        n == a@.len(),
                        n == b@.len(),
                        n == self.len_s(),
                        forall|k: int| 0 <= k < n ==> #[trigger] a@[k]@ == self.text_at(k),
                        forall|k: int| 0 <= k < n ==> #[trigger] b@[k]@ == other.text_at(k),
                        i <= n,
                        forall|k: int| 0 <= k < i ==> a@[k]@ == b@[k]@,
                    decreases n - i,
                {
                    if !str_eq(a[i].as_str(), b[i].as_str()) {
                        assert(self.text_at(i as int) != other.text_at(i as int));
                        return false;
                    }
                    i = i + 1;
                }
                assert forall|k: int| 0 <= k < n implies #[trigger] self.text_at(k) == other.text_at(k) by {
                    assert(a@[k]@ == b@[k]@);
                }
                true
            },
        }
    }

    /// Coordinates of `self` followed by those of `other`; both must be of
    /// the same kind.
    pub fn concat(&self, other: &Coords) -> (out: Result<Coords, MinarrowError>)
        ensures
            out is Ok <==> self.kind() == other.kind(),
            out matches Ok(c) ==> {
                &&& c.len_s() == self.len_s() + other.len_s()
                &&& c.kind() == self.kind()
                &&& forall|i: int|
                    0 <= i < self.len_s() ==> #[trigger] c.int_at(i) == self.int_at(i) && c.text_at(i) == self.text_at(i)
                &&& forall|i: int|
                    0 <= i < other.len_s() ==> #[trigger] c.int_at(self.len_s() + i) == other.int_at(i)
                        && c.text_at(self.len_s() + i) == other.text_at(i)
            },
            out matches Err(e) ==> (e matches MinarrowError::IncompatibleTypeError { from, to, message: Some(m) } && from@
                == "coords"@ && to@ == "coords"@ && m@ == "coordinate kinds differ"@),
    {
        match (self, other) {
            (Coords::Int32(a), Coords::Int32(b)) => {
                let mut v = vstd::slice::slice_to_vec(a.as_slice());
                let mut w = vstd::slice::slice_to_vec(b.as_slice());
                v.append(&mut w);
                Ok(Coords::Int32(v))
            },
            (Coords::Int64(a), Coords::Int64(b)) => {
                let mut v = vstd::slice::slice_to_vec(a.as_slice());
                let mut w = vstd::slice::slice_to_vec(b.as_slice());
                v.append(&mut w);
                Ok(Coords::Int64(v))
            },
            (Coords::UInt32(a), Coords::UInt32(b)) => {
                let mut v = vstd::slice::slice_to_vec(a.as_slice());
                let mut w = vstd::slice::slice_to_vec(b.as_slice());
                v.append(&mut w);
                Ok(Coords::UInt32(v))
            },
            (Coords::UInt64(a), Coords::UInt64(b)) => {
                let mut v = vstd::slice::slice_to_vec(a.as_slice());
                let mut w = vstd::slice::slice_to_vec(b.as_slice());
                v.append(&mut w);
                Ok(Coords::UInt64(v))
            },
            (Coords::Datetime64(a), Coords::Datetime64(b)) => {
                let mut v = vstd::slice::slice_to_vec(a.as_slice());
                let mut w = vstd::slice::slice_to_vec(b.as_slice());
                v.append(&mut w);
                Ok(Coords::Datetime64(v))
            },
            (Coords::Text(a), Coords::Text(b)) => Ok(Coords::Text(concat_texts(a, b))),
            _ => Err(
                MinarrowError::IncompatibleTypeError {
                    from: String::from_str("coords"),
                    to: String::from_str("coords"),
                    message: Some(String::from_str("coordinate kinds differ")),
                },
            ),
        }
    }

    /// Integer coordinates widened to `i128`; `None` for text.
    pub fn widened(&self) -> (out: Option<Vec<i128>>)
        ensures
            self is Text <==> out is None,
            out matches Some(v) ==> v@.len() == self.len_s() && forall|i: int|
                0 <= i < v@.len() ==> #[trigger] v@[i] as int == self.int_at(i) && -0x8000_0000_0000_0000 <= v@[i]
                    <= 0xffff_ffff_ffff_ffff,
    {
        let n = self.len();
        let mut out: Vec<i128> = Vec::new();
        let mut i: usize = 0;
        if let Coords::Text(_) = self {
            return None;
        }
        while i < n
            invariant
                !(self is Text),
                n == self.len_s(),
                i <= n,
                out@.len() == i,
                forall|k: int|
                    0 <= k < i ==> #[trigger] out@[k] as int == self.int_at(k) && -0x8000_0000_0000_0000 <= out@[k]
                        <= 0xffff_ffff_ffff_ffff,
            decreases n - i,
        {
            let x: i128 = match self {
                Coords::Int32(v) => v[i] as i128,
                Coords::Int64(v) => v[i] as i128,
                Coords::UInt32(v) => v[i] as i128,
                Coords::UInt64(v) => v[i] as i128,
                Coords::Datetime64(v) => v[i] as i128,
                Coords::Text(_) => 0,
            };
            out.push(x);
            i = i + 1;
        }
        Some(out)
    }

    /// The lookup target of `v` in this coordinate kind's integer domain.
    pub fn target_of(&self, v: &Scalar) -> (r: Option<i128>)
        ensures
            r matches Some(t) ==> self.int_target(v) == Some(t as int),
            r is None ==> self.int_target(v) is None,
    {
        if self.is_signed_kind() {
            match v.try_i64() {
                Some(x) => Some(x as i128),
                None => None,
            }
        } else if self.is_unsigned_kind() {
            match v.try_u64() {
                Some(x) => Some(x as i128),
                None => None,
            }
        } else {
            None
        }
    }

    fn is_signed_kind(&self) -> (b: bool)
        ensures
            b == self.is_signed(),
    {
        match self {
            Coords::Int32(_) | Coords::Int64(_) | Coords::Datetime64(_) => true,
            _ => false,
        }
    }

    fn is_unsigned_kind(&self) -> (b: bool)
        ensures
            b == self.is_unsigned(),
    {
        match self {
            Coords::UInt32(_) | Coords::UInt64(_) => true,
            _ => false,
        }
    }

    /// Position of the first coordinate equal to `value`.
    pub fn find_pos(&self, value: &Scalar) -> (r: Option<usize>)
        ensures
            r matches Some(p) ==> p < self.len_s() && self.matches_at(p as int, value) && forall|q: int|
                0 <= q < p ==> !#[trigger] self.matches_at(q, value),
            r is None ==> forall|q: int| 0 <= q < self.len_s() ==> !#[trigger] self.matches_at(q, value),
    {
        match self.widened() {
            Some(w) => {
                match self.target_of(value) {
                    Some(t) => {
                        let r = first_equal(&w, t);
                        proof {
                            assert forall|q: int| 0 <= q < self.len_s() implies (#[trigger] self.matches_at(q, value)
                                <==> w@[q] == t) by {
                                assert(w@[q] as int == self.int_at(q));
                            }
                        }
                        r
                    },
                    None => None,
                }
            },
            None => {
                let v = self.texts().unwrap();
                match value.try_str() {
                    Some(s) => {
                        let r = first_text(v, s);
                        proof {
                            assert forall|q: int| 0 <= q < self.len_s() implies (#[trigger] self.matches_at(q, value)
                                <==> v@[q]@ == s@) by {
                                assert(v@[q]@ == self.text_at(q));
                            }
                        }
                        r
                    },
                    None => None,
                }
            },
        }
    }

    /// Membership of each coordinate in the inclusive bounds `[lo, hi]`.
    pub fn window_hits(&self, lo: &Scalar, hi: &Scalar) -> (h: Vec<bool>)
        ensures
            h@.len() == self.len_s(),
            forall|i: int| 0 <= i < h@.len() ==> #[trigger] h@[i] == self.in_window(i, lo, hi),
    {
        let n = self.len();
        let mut h: Vec<bool> = Vec::new();
        match self.widened() {
            Some(w) => {
                let lt = self.target_of(lo);
                let ht = self.target_of(hi);
                let mut i: usize = 0;
                while i < n
                    invariant
                        !(self is Text),
                        n == self.len_s(),
                        n == w@.len(),
                        forall|k: int| 0 <= k < n ==> #[trigger] w@[k] as int == self.int_at(k),
                        lt matches Some(t) ==> self.int_target(lo) == Some(t as int),
                        lt is None ==> self.int_target(lo) is None,
                        ht matches Some(t) ==> self.int_target(hi) == Some(t as int),
                        ht is None ==> self.int_target(hi) is None,
                        i <= n,
                        h@.len() == i,
                        forall|k: int| 0 <= k < i ==> #[trigger] h@[k] == self.in_window(k, lo, hi),
                    decreases n - i,
                {
                    let x = w[i];
                    let b = match (lt, ht) {
                        (Some(l), Some(u)) => l <= x && x <= u,
                        _ => false,
                    };
                    assert(w@[i as int] as int == self.int_at(i as int));
                    h.push(b);
                    i = i + 1;
                }
            },
            None => {
                let v = self.texts().unwrap();
                match (lo.try_str(), hi.try_str()) {
                    (Some(l), Some(u)) => {
                        let mut i: usize = 0;
                        while i < n
                            invariant
                                self is Text,
                                lo is Str && l@ == lo->Str_0@,
                                hi is Str && u@ == hi->Str_0@,
                                n == self.len_s(),
                                n == v@.len(),
                                forall|k: int| 0 <= k < n ==> #[trigger] v@[k]@ == self.text_at(k),
                                i <= n,
                                h@.len() == i,
                                forall|k: int| 0 <= k < i ==> #[trigger] h@[k] == self.in_window(k, lo, hi),
                            decreases n - i,
                        {
                            let s = v[i].as_str();
                            assert(v@[i as int]@ == self.text_at(i as int));
                            let b = str_le(l, s) && str_le(s, u);
                            h.push(b);
                            i = i + 1;
                        }
                    },
                    _ => {
                        let mut i: usize = 0;
                        while i < n
                            invariant
                                self is Text,
                                !(lo is Str && hi is Str),
                                n == self.len_s(),
                                i <= n,
                                h@.len() == i,
                                forall|k: int| 0 <= k < i ==> #[trigger] h@[k] == self.in_window(k, lo, hi),
                            decreases n - i,
                        {
                            h.push(false);
                            i = i + 1;
                        }
                    },
                }
            },
        }
        h
    }

    /// The contiguous run of coordinates inside `[lo, hi]`, as a half-open
    /// position range; `None` when no coordinate is inside, or when the
    /// coordinates inside do not form one run.
    pub fn range_window(&self, lo: &Scalar, hi: &Scalar) -> (r: Option<(usize, usize)>)
        ensures
            r matches Some((s, e)) ==> self.is_window(s as int, e as int, lo, hi),
            r is None ==> forall|s: int, e: int| !#[trigger] self.is_window(s, e, lo, hi),
    {
        let h = self.window_hits(lo, hi);
        let r = find_run(&h);
        proof {
            assert forall|s: int, e: int| #[trigger] self.is_window(s, e, lo, hi) <==> is_run(h@, s, e) by {
                if self.is_window(s, e, lo, hi) {
                    assert forall|q: int| 0 <= q < h@.len() implies (#[trigger] h@[q] <==> s <= q < e) by {
                        assert(self.in_window(q, lo, hi) <==> s <= q < e);
                    }
                }
                if is_run(h@, s, e) {
                    assert forall|q: int| 0 <= q < self.len_s() implies (#[trigger] self.in_window(q, lo, hi) <==> s <= q
                        < e) by {
                        assert(h@[q] <==> s <= q < e);
                    }
                }
            }
        }
        r
    }

    /// Some coordinate lies inside `[lo, hi]`.
    pub fn any_in_window(&self, lo: &Scalar, hi: &Scalar) -> (b: bool)
        ensures
            b <==> exists|q: int| 0 <= q < self.len_s() && #[trigger] self.in_window(q, lo, hi),
    {
        let h = self.window_hits(lo, hi);
        let mut i: usize = 0;
        while i < h.len()
            invariant
                h@.len() == self.len_s(),
                forall|k: int| 0 <= k < h@.len() ==> #[trigger] h@[k] == self.in_window(k, lo, hi),
                i <= h@.len(),
                forall|k: int| 0 <= k < i ==> !#[trigger] self.in_window(k, lo, hi),
            decreases h@.len() - i,
        {
            if h[i] {
                assert(self.in_window(i as int, lo, hi));
                return true;
            }
            i = i + 1;
        }
        false
    }

    /// Positions `s .. e` are exactly the coordinates inside `[lo, hi]`,
    /// and there is at least one.
    pub open spec fn is_window(&self, s: int, e: int, lo: &Scalar, hi: &Scalar) -> bool {
        &&& 0 <= s < e <= self.len_s()
        &&& forall|q: int| 0 <= q < self.len_s() ==> (#[trigger] self.in_window(q, lo, hi) <==> s <= q < e)
    }

    /// Position of the integer coordinate closest to `value`; ties go to
    /// the earliest. `None` for text, for an empty axis, or when the value
    /// has no counterpart in the coordinates' integer domain.
    pub fn nearest_pos(&self, value: &Scalar) -> (r: Option<usize>)
        ensures
            r matches Some(p) ==> (!(self is Text) && (self.int_target(value) matches Some(t) && self.nearest_at(
                p as int,
                t,
            ))),
            r is None ==> self is Text || self.int_target(value) is None || self.len_s() == 0,
    {
        match self.widened() {
            Some(w) => match self.target_of(value) {
                Some(t) => {
                    let r = first_nearest(&w, t);
                    proof {
                        assert forall|q: int| 0 <= q < w@.len() implies #[trigger] dist(w@[q], t) == int_dist(
                            self.int_at(q),
                            t as int,
                        ) by {
                            assert(w@[q] as int == self.int_at(q));
                        }
                        if let Some(p) = r {
                            assert(dist(w@[p as int], t) == int_dist(self.int_at(p as int), t as int));
                            assert forall|q: int| 0 <= q < self.len_s() implies int_dist(self.int_at(p as int), t as int)
                                <= int_dist(#[trigger] self.int_at(q), t as int) by {
                                assert(dist(w@[q], t) == int_dist(self.int_at(q), t as int));
                            }
                            assert forall|q: int| 0 <= q < p implies int_dist(self.int_at(p as int), t as int)
                                < int_dist(#[trigger] self.int_at(q), t as int) by {
                                assert(dist(w@[q], t) == int_dist(self.int_at(q), t as int));
                            }
                        }
                    }
                    r
                },
                None => None,
            },
            None => None,
        }
    }
}

/// Distance between two integers.
pub open spec fn int_dist(a: int, b: int) -> int {
    if a >= b {
        a - b
    } else {
        b - a
    }
}

/// Copies of the strings of `a` followed by those of `b`.
fn concat_texts(a: &Vec<String>, b: &Vec<String>) -> (out: Vec<String>)
    ensures
        out@.len() == a@.len() + b@.len(),
        forall|i: int| 0 <= i < a@.len() ==> #[trigger] out@[i]@ == a@[i]@,
        forall|i: int| 0 <= i < b@.len() ==> #[trigger] out@[a@.len() + i]@ == b@[i]@,
{
    let mut out: Vec<String> = Vec::new();
    let mut i: usize = 0;
    while i < a.len()
        invariant
            i <= a@.len(),
            out@.len() == i,
            forall|k: int| 0 <= k < i ==> #[trigger] out@[k]@ == a@[k]@,
        decreases a@.len() - i,
    {
        out.push(a[i].clone());
        i = i + 1;
    }
    let mut j: usize = 0;
    while j < b.len()
        invariant
            j <= b@.len(),
            out@.len() == a@.len() + j,
            forall|k: int| 0 <= k < a@.len() ==> #[trigger] out@[k]@ == a@[k]@,
            forall|k: int| 0 <= k < j ==> #[trigger] out@[a@.len() + k]@ == b@[k]@,
        decreases b@.len() - j,
    {
        out.push(b[j].clone());
        j = j + 1;
    }
    out
}

/// `s .. e` is the one run of `true` in `hits`, and it is not empty.
pub open spec fn is_run(hits: Seq<bool>, s: int, e: int) -> bool {
    &&& 0 <= s < e <= hits.len()
    &&& forall|q: int| 0 <= q < hits.len() ==> (#[trigger] hits[q] <==> s <= q < e)
}

/// The run of `true` in `hits`: from the first `true` to one past the
/// last. `None` when there is no `true`, or when a `false` lies between
/// the first and the last.
pub fn find_run(hits: &Vec<bool>) -> (r: Option<(usize, usize)>)
    ensures
        r matches Some((s, e)) ==> is_run(hits@, s as int, e as int),
        r is None ==> forall|s: int, e: int| !#[trigger] is_run(hits@, s, e),
{
    let n = hits.len();
    let mut start: usize = n;
    let mut end: usize = 0;
    let mut i: usize = 0;
    while i < n
        invariant
            n == hits@.len(),
            i <= n,
            start == n ==> end == 0 && forall|q: int| 0 <= q < i ==> !#[trigger] hits@[q],
            start < n ==> start < end <= i && hits@[start as int] && hits@[end - 1] && (forall|q: int|
                0 <= q < start ==> !#[trigger] hits@[q]) && (forall|q: int| end <= q < i ==> !#[trigger] hits@[q]),
            start <= n,
        decreases n - i,
    {
        if hits[i] {
            if start == n {
                start = i;
            }
            end = i + 1;
        }
        i = i + 1;
    }
    if start >= end {
        assert forall|s: int, e: int| !#[trigger] is_run(hits@, s, e) by {
            if is_run(hits@, s, e) {
                assert(hits@[s]);
            }
        }
        return None;
    }
    let mut j: usize = start;
    while j < end
        invariant
            start < end <= n,
            n == hits@.len(),
            start <= j <= end,
            hits@[start as int],
            hits@[end - 1],
            forall|q: int| 0 <= q < start ==> !#[trigger] hits@[q],
            forall|q: int| end <= q < n ==> !#[trigger] hits@[q],
            forall|q: int| start <= q < j ==> #[trigger] hits@[q],
        decreases end - j,
    {
        if !hits[j] {
            assert forall|s: int, e: int| !#[trigger] is_run(hits@, s, e) by {
                if is_run(hits@, s, e) {
                    assert(hits@[start as int]);
                    assert(hits@[end - 1]);
                    assert(hits@[j as int]);
                }
            }
            return None;
        }
        j = j + 1;
    }
    assert forall|q: int| 0 <= q < hits@.len() implies (#[trigger] hits@[q] <==> start <= q < end) by {
        if start <= q < end {
            assert(hits@[q]);
        }
    }
    Some((start, end))
}

/// Position of the first element equal to `t`.
pub fn first_equal(v: &Vec<i128>, t: i128) -> (r: Option<usize>)
    ensures
        r matches Some(p) ==> p < v@.len() && v@[p as int] == t && forall|q: int| 0 <= q < p ==> v@[q] != t,
        r is None ==> forall|q: int| 0 <= q < v@.len() ==> v@[q] != t,
{
    let mut i: usize = 0;
    while i < v.len()
        invariant
            i <= v@.len(),
            forall|q: int| 0 <= q < i ==> v@[q] != t,
        decreases v@.len() - i,
    {
        if v[i] == t {
            return Some(i);
        }
        i = i + 1;
    }
    None
}

/// Position of the first element whose distance to `t` is smallest.
pub fn first_nearest(v: &Vec<i128>, t: i128) -> (r: Option<usize>)
    requires
        forall|q: int| 0 <= q < v@.len() ==> -0x1_0000_0000_0000_0000 <= #[trigger] v@[q] <= 0x1_0000_0000_0000_0000,
        -0x1_0000_0000_0000_0000 <= t <= 0x1_0000_0000_0000_0000,
    ensures
        v@.len() == 0 <==> r is None,
        r matches Some(p) ==> p < v@.len() && (forall|q: int| 0 <= q < v@.len() ==> dist(v@[p as int], t) <= dist(#[trigger] v@[q], t))
            && (forall|q: int| 0 <= q < p ==> dist(v@[p as int], t) < dist(#[trigger] v@[q], t)),
{
    if v.len() == 0 {
        return None;
    }
    let mut best: usize = 0;
    let mut best_d: i128 = abs_diff(v[0], t);
    let mut i: usize = 1;
    while i < v.len()
        invariant
            forall|q: int| 0 <= q < v@.len() ==> -0x1_0000_0000_0000_0000 <= #[trigger] v@[q] <= 0x1_0000_0000_0000_0000,
            -0x1_0000_0000_0000_0000 <= t <= 0x1_0000_0000_0000_0000,
            1 <= i <= v@.len(),
            best < i,
            best_d == dist(v@[best as int], t),
            forall|q: int| 0 <= q < i ==> best_d <= dist(#[trigger] v@[q], t),
            forall|q: int| 0 <= q < best ==> best_d < dist(#[trigger] v@[q], t),
        decreases v@.len() - i,
    {
        let d = abs_diff(v[i], t);
        if d < best_d {
            best = i;
            best_d = d;
        }
        i = i + 1;
    }
    Some(best)
}

/// Distance between two integers.
pub open spec fn dist(a: i128, b: i128) -> int {
    if a >= b {
        a - b
    } else {
        b - a
    }
}

fn abs_diff(a: i128, b: i128) -> (d: i128)
    requires
        -0x1_0000_0000_0000_0000 <= a <= 0x1_0000_0000_0000_0000,
        -0x1_0000_0000_0000_0000 <= b <= 0x1_0000_0000_0000_0000,
    ensures
        d == dist(a, b),
{
    if a >= b {
        a - b
    } else {
        b - a
    }
}

/// Position of the first string equal to `t`.
pub fn first_text(v: &Vec<String>, t: &str) -> (r: Option<usize>)
    ensures
        r matches Some(p) ==> p < v@.len() && v@[p as int]@ == t@ && forall|q: int| 0 <= q < p ==> v@[q]@ != t@,
        r is None ==> forall|q: int| 0 <= q < v@.len() ==> v@[q]@ != t@,
{
    let mut i: usize = 0;
    while i < v.len()
        invariant
            i <= v@.len(),
            forall|q: int| 0 <= q < i ==> v@[q]@ != t@,
        decreases v@.len() - i,
    {
        if str_eq(v[i].as_str(), t) {
            return Some(i);
        }
        i = i + 1;
    }
    None
}

/// An error message naming an axis: `prefix 'name' suffix`.
pub open spec fn axis_text(prefix: Seq<char>, name: Seq<char>, suffix: Seq<char>) -> Seq<char> {
    prefix + seq!['\''] + name + seq!['\''] + suffix
}

/// Error message naming an axis: `prefix 'name' suffix`.
pub fn axis_message(prefix: &str, name: &str, suffix: &str) -> (s: String)
    ensures
        s@ == axis_text(prefix@, name@, suffix@),
{
    let mut s = String::from_str(prefix);
    proof {
        reveal_strlit("'");
    }
    s.append("'");
    s.append(name);
    s.append("'");
    s.append(suffix);
    s
}

} // verus!
