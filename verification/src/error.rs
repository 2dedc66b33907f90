use vstd::prelude::*;

verus! {

/// Why a call was rejected. A rejected call changes no state and produces no
/// partial output.
#[derive(Clone, Copy, Debug, PartialEq, Eq, Structural)]
pub enum ContractError {
    /// The input is not a number (or does not follow the expected layout).
    MalformedInput,
    /// An argument lies outside the domain of the operation: no clusters or
    /// more clusters than observations, an empty training set, a negative
    /// class label.
    InvalidArgument,
    /// A decimal is too large in magnitude for its fixed-point encoding.
    EncodingOverflow,
    /// A model that is asked about a point has a class with a variance of
    /// zero. No training set of this library yields such a model; one that a
    /// caller hands over may be one.
    NumericDegeneracy,
}

} // verus!
