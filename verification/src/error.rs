//! The conditions under which an operation is refused.

use vstd::prelude::*;

verus! {

/// Why an operation was refused.
#[derive(Debug, Clone, Copy, PartialEq, Eq)]
pub enum Error {
    /// Two operands that must be equally long are not.
    DimensionMismatch,
    /// Some stored coefficient is infinite or not a number.
    NonFinite,
    /// The matrix has no usable coefficient on the diagonal of `row`: none
    /// is stored there, or the one stored is zero.
    SingularPreconditioner { row: usize },
}

} // verus!
