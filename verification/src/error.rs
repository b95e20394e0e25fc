//! Errors reported by shape-checked operations.

use vstd::prelude::*;

verus! {

/// Why an operation on an n-dimensional container was refused.
#[allow(inconsistent_fields)]
#[derive(Debug, Clone, PartialEq, Eq)]
pub enum MinarrowError {
    /// Shapes, ranks or dimension names that do not fit the operation.
    ShapeError { message: String },
    /// Two containers that cannot be combined.
    IncompatibleTypeError { from: String, to: String, message: Option<String> },
    /// A value or position that is not present.
    IndexError(String),
    /// A value of the wrong kind for the container it meets.
    TypeError { from: String, to: String, message: Option<String> },
}

/// The detail that follows a colon when a message is present.
pub open spec fn detail_text(message: Option<String>) -> Seq<char> {
    match message {
        Some(m) => ": "@ + m@,
        None => Seq::empty(),
    }
}

impl MinarrowError {
    /// The text that describes the error.
    pub open spec fn message_text(&self) -> Seq<char> {
        match self {
            MinarrowError::ShapeError { message } => message@,
            MinarrowError::IndexError(m) => m@,
            MinarrowError::IncompatibleTypeError { from, to, message } => "incompatible "@ + from@ + " and "@
                + to@ + detail_text(*message),
            MinarrowError::TypeError { from, to, message } => "cannot convert "@ + from@ + " to "@ + to@
                + detail_text(*message),
        }
    }

    /// Human-readable description of the error.
    pub fn to_message(&self) -> (s: String)
        ensures
            s@ == self.message_text(),
    {
        match self {
            MinarrowError::ShapeError { message } => message.clone(),
            MinarrowError::IndexError(m) => m.clone(),
            MinarrowError::IncompatibleTypeError { from, to, message } => {
                let mut s = String::from_str("incompatible ");
                s.append(from.as_str());
                s.append(" and ");
                s.append(to.as_str());
                match message {
                    Some(m) => {
                        s.append(": ");
                        s.append(m.as_str());
                    },
                    None => {},
                }
                s
            },
            MinarrowError::TypeError { from, to, message } => {
                let mut s = String::from_str("cannot convert ");
                s.append(from.as_str());
                s.append(" to ");
                s.append(to.as_str());
                match message {
                    Some(m) => {
                        s.append(": ");
                        s.append(m.as_str());
                    },
                    None => {},
                }
                s
            },
        }
    }
}

/// Builds an owned string from two pieces.
pub fn join2(a: &str, b: &str) -> (s: String)
    ensures
        s@ == a@ + b@,
{
    let mut s = String::from_str(a);
    s.append(b);
    s
}

/// Builds an owned string from three pieces.
pub fn join3(a: &str, b: &str, c: &str) -> (s: String)
    ensures
        s@ == a@ + b@ + c@,
{
    let mut s = String::from_str(a);
    s.append(b);
    s.append(c);
    s
}


/// The decimal digit character for `d < 10`.
pub open spec fn digit_char(d: int) -> char {
    if d == 0 { '0' } else if d == 1 { '1' } else if d == 2 { '2' } else if d == 3 { '3' } else if d == 4 {
        '4'
    } else if d == 5 { '5' } else if d == 6 { '6' } else if d == 7 { '7' } else if d == 8 { '8' } else { '9' }
}

/// Decimal representation of a natural number, most significant digit
/// first.
pub open spec fn decimal(n: nat) -> Seq<char>
    decreases n,
{
    if n < 10 {
        seq![digit_char(n as int)]
    } else {
        decimal(n / 10) + seq![digit_char((n % 10) as int)]
    }
}

fn digit_str(d: usize) -> (s: &'static str)
    requires
        d < 10,
    ensures
        s@ == seq![digit_char(d as int)],
{
    proof {
        reveal_strlit("0");
        reveal_strlit("1");
        reveal_strlit("2");
        reveal_strlit("3");
        reveal_strlit("4");
        reveal_strlit("5");
        reveal_strlit("6");
        reveal_strlit("7");
        reveal_strlit("8");
        reveal_strlit("9");
    }
    if d == 0 {
        "0"
    } else if d == 1 {
        "1"
    } else if d == 2 {
        "2"
    } else if d == 3 {
        "3"
    } else if d == 4 {
        "4"
    } else if d == 5 {
        "5"
    } else if d == 6 {
        "6"
    } else if d == 7 {
        "7"
    } else if d == 8 {
        "8"
    } else {
        "9"
    }
}

/// Appends the decimal representation of `n`.
pub fn append_usize(s: &mut String, n: usize)
    ensures
        final(s)@ == old(s)@ + decimal(n as nat),
    decreases n,
{
    if n >= 10 {
        append_usize(s, n / 10);
    }
    let d = digit_str(n % 10);
    s.append(d);
    proof {
        if n < 10 {
            assert(n % 10 == n);
        }
    }
}

/// Decimal text of a `usize`.
pub fn usize_text(n: usize) -> (s: String)
    ensures
        s@ == decimal(n as nat),
{
    let mut s = String::new();
    append_usize(&mut s, n);
    assert(s@ =~= decimal(n as nat));
    s
}


/// Decimal texts of `d`, separated by `", "`.
pub open spec fn joined(d: Seq<int>) -> Seq<char>
    decreases d.len(),
{
    if d.len() == 0 {
        Seq::empty()
    } else if d.len() == 1 {
        decimal(d[0] as nat)
    } else {
        joined(d.drop_last()) + ", "@ + decimal(d.last() as nat)
    }
}

/// A list of dimensions as text: `[2, 3]`.
pub open spec fn dims_text(d: Seq<int>) -> Seq<char> {
    "["@ + joined(d) + "]"@
}

/// ` 'name'` for a name, nothing otherwise.
pub open spec fn name_label(name: Option<String>) -> Seq<char> {
    match name {
        Some(n) => " '"@ + n@ + "'"@,
        None => Seq::empty(),
    }
}

/// Appends a list of dimensions as text: `[2, 3]`.
pub fn append_dims(s: &mut String, dims: &[usize])
    ensures
        final(s)@ == old(s)@ + dims_text(crate::layout::ints(dims@)),
{
    let ghost start = s@;
    s.append("[");
    let mut i: usize = 0;
    while i < dims.len()
        invariant
            i <= dims@.len(),
            s@ == start + "["@ + joined(crate::layout::ints(dims@.take(i as int))),
        decreases dims@.len() - i,
    {
        let ghost before = s@;
        let ghost d = crate::layout::ints(dims@.take(i as int + 1));
        proof {
            assert(d.drop_last() =~= crate::layout::ints(dims@.take(i as int)));
            assert(d.last() == dims@[i as int]);
        }
        if i > 0 {
            s.append(", ");
        }
        append_usize(s, dims[i]);
        proof {
            if i == 0 {
                assert(crate::layout::ints(dims@.take(0)) =~= Seq::<int>::empty());
                assert(d.len() == 1);
                assert(s@ =~= start + "["@ + joined(d));
            } else {
                assert(s@ =~= start + "["@ + joined(d));
            }
        }
        i = i + 1;
    }
    s.append("]");
    assert(dims@.take(dims@.len() as int) =~= dims@);
    assert(s@ =~= start + dims_text(crate::layout::ints(dims@)));
}

} // verus!
