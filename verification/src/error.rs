//! The error taxonomy shared by the matrix engine, the layers and the trainer.

use vstd::prelude::*;

verus! {

/// Every failure the library reports. All of them are deterministic
/// consequences of malformed call arguments; none is transient.
#[derive(Clone, Copy, Debug, PartialEq, Eq, Structural)]
pub enum Error {
    /// A matrix shape is incompatible with the requested operation
    /// (inner dimensions of a product, or a non-column operand).
    DimensionMismatch,
    /// Elementwise operands differ in shape, or a training target's width
    /// differs from the network's output width.
    SizeMismatch,
    /// A backward pass was requested without a preceding forward pass.
    MissingState,
    /// A hidden layer was added before the input layer fixed the input width.
    NoInputLayer,
    /// A second input layer was added.
    AlreadyInitialized,
    /// Empty or length-mismatched inputs/targets were passed to training
    /// or evaluation.
    InvalidDataset,
}

} // verus!
