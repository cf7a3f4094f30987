use vstd::prelude::*;

verus! {

/// The ways in which building or transforming a graph can fail.
#[derive(Clone, Copy, Debug, PartialEq, Eq, Structural)]
pub enum GraphError {
    /// A division whose right operand is the constant zero.
    DivisionByZero,
    /// A power with a non-constant exponent, or a collection, was differentiated.
    UnsupportedDifferentiation,
    /// A function was given a number of inputs other than its number of parameters.
    ArityMismatch,
    /// A name that was never declared was used.
    UndefinedReference,
    /// A function was referenced while its own compilation was in progress.
    RecursiveDefinition,
    /// A collection stood where a scalar node is required.
    InvalidRoot,
    /// A function body gives no value.
    MissingResult,
    /// Text that is not a decimal literal.
    InvalidLiteral,
    /// A constant does not fit the decimal representation.
    ConstantOutOfRange,
}

} // verus!
