use vstd::prelude::*;

verus! {

/// Everything that can make an operation of this crate refuse its input.
///
/// `InvalidLength`, `InvalidLeafCount` and `MalformedProof` are structural:
/// the input has the wrong shape and nothing was computed.
/// `DivisionByZero` and `NoSquareRoot` are arithmetic: the field has no such
/// element. `NoGeneratorFound` reports a scan that found no point of full order.
#[derive(Clone, Copy, Debug, PartialEq, Eq, Structural)]
pub enum StarkError {
    DivisionByZero,
    NoSquareRoot,
    NoGeneratorFound,
    InvalidLength,
    InvalidLeafCount,
    MalformedProof,
}

} // verus!
