use vstd::prelude::*;

verus! {

/// Why an input was turned away.
#[derive(Clone, Copy, Debug, PartialEq, Eq, Structural)]
pub enum SolverError {
    /// A word or a grade text does not have exactly the configured number of letters.
    LengthMismatch,
    /// A grade text holds a character other than `'0'`, `'1'` or `'2'`.
    InvalidDigit,
    /// A grouping or a selection was asked of a pool without words.
    EmptyPool,
}

} // verus!
