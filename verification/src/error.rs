use vstd::prelude::*;

verus! {

/// Why an enumerator could not be built.
#[derive(Debug, Clone, Copy, PartialEq, Eq, Structural)]
pub enum BruteError {
    /// The minimum length is zero.
    InvalidMin,
    /// The maximum length is below the minimum length.
    InvalidMax,
    /// The alphabet holds no symbol.
    InvalidCharset,
}

} // verus!
