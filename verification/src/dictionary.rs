//! The error of adding a string to a shared string dictionary: the new
//! entry would need a code that the index type cannot hold.
//!
//! The shared, concurrently appended dictionary that raises it is not part
//! of this library. [`crate::categorical::CategoricalArray`] keeps its own
//! dictionary and states the same capacity bound in the `requires` of the
//! operations that intern strings.

use vstd::prelude::*;

verus! {

/// Errors arising from adding to a dictionary.
#[derive(Clone, Copy, Debug, PartialEq, Eq)]
pub enum DictionaryError {
    /// The new cardinality would exceed the capacity of the index type
    /// (for example 256 entries for `u8`). The dictionary is left unchanged.
    Overflow,
}

impl DictionaryError {
    /// Human-readable description of the error.
    pub fn to_message(&self) -> (s: &'static str)
        ensures
            s@ == "dictionary cardinality would exceed the capacity of the index type"@,
    {
        match self {
            DictionaryError::Overflow => "dictionary cardinality would exceed the capacity of the index type",
        }
    }
}

} // verus!
