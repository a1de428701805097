//! A small feedforward neural network for multi-class classification,
//! trained by manual backpropagation and per-sample gradient descent.
//!
//! All numeric values are fixed-point numbers: an `i64` holding the value
//! scaled by [`fixed::ONE`]. Arithmetic saturates at [`fixed::VMAX`], so
//! every operation is total and its result is stated exactly in the
//! contracts.

pub mod fixed;
pub mod linalg;
pub mod network;
mod rng;
pub mod softmax;
pub mod transcend;
