//! A small feed-forward neural network training library, verified with
//! Verus: a dense matrix engine with worker-thread fan-out for large
//! results, a closed set of activation strategies, layers that cache
//! forward state for backpropagation, and an epoch-based trainer with
//! shuffling and accuracy reporting.
//!
//! Scalars are IEEE-754 binary64 values carried as their bit patterns
//! (`u64`); see [`scalar`] for the model. Every public operation's result
//! is pinned, entry by entry, as a composition of named IEEE-754
//! primitives, and the shape, sequencing and error rules are proved
//! exactly.

pub mod activation;
pub mod error;
pub mod layer;
pub mod matrix;
pub mod neural_network;
pub mod random;
pub mod scalar;

pub use activation::{ActivationFunction, ReLU, Sigmoid, Softmax};
pub use error::Error;
pub use layer::Layer;
pub use matrix::Matrix;
pub use neural_network::NeuralNetwork;
