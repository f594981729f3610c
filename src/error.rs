//! The errors that the checked operations report before doing any work.
use vstd::prelude::*;

verus! {

/// A mismatch between the parameters of the operands of an operation.
#[derive(Clone, Copy, Debug, PartialEq, Eq, Structural)]
pub enum EngineError {
    /// The input LWE ciphertext does not have the dimension that the key expects.
    InputLweDimensionMismatch,
    /// The output LWE ciphertext does not have the dimension that the key produces.
    OutputLweDimensionMismatch,
    /// The number of weights differs from the number of ciphertexts.
    CleartextCountMismatch,
    /// The accumulator's polynomial size differs from the bootstrap key's.
    AccumulatorPolynomialSizeMismatch,
    /// The accumulator's GLWE dimension differs from the bootstrap key's.
    AccumulatorGlweDimensionMismatch,
    /// Two GLWE operands differ in polynomial size.
    PolynomialSizeMismatch,
    /// Two GLWE operands differ in GLWE dimension.
    GlweDimensionMismatch,
}

impl EngineError {
    /// A description of the error.
    pub fn message(&self) -> (r: String) {
        match self {
            EngineError::InputLweDimensionMismatch => String::from_str(
                "The input LWE dimension does not match the key's input dimension.",
            ),
            EngineError::OutputLweDimensionMismatch => String::from_str(
                "The output LWE dimension does not match the key's output dimension.",
            ),
            EngineError::CleartextCountMismatch => String::from_str(
                "The number of weights does not match the number of ciphertexts.",
            ),
            EngineError::AccumulatorPolynomialSizeMismatch => String::from_str(
                "The accumulator polynomial size does not match the bootstrap key's.",
            ),
            EngineError::AccumulatorGlweDimensionMismatch => String::from_str(
                "The accumulator GLWE dimension does not match the bootstrap key's.",
            ),
            EngineError::PolynomialSizeMismatch => String::from_str(
                "The polynomial sizes of the operands do not match.",
            ),
            EngineError::GlweDimensionMismatch => String::from_str(
                "The GLWE dimensions of the operands do not match.",
            ),
        }
    }
}

} // verus!
