//! A small feed-forward neural-network trainer: dense matrices, a multi-layer
//! sigmoid perceptron, two gradient estimators and a fixed-epoch training loop.
//!
//! The library is generic over the number type. The arithmetic itself is
//! supplied by an implementation of [`scalar::Scalar`]; every contract is
//! stated for whatever functions those operations compute.

pub mod laws;
pub mod linear;
pub mod matrix;
pub mod network;
pub mod scalar;
pub mod session;

pub use matrix::Matrix;
pub use network::train::Estimator;
pub use network::NeuralNetwork;
pub use scalar::{sigmoid, Sampler, Scalar};
pub use session::AuthState;
