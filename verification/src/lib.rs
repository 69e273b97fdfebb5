//! Low-degree testing over the circle group of the Mersenne-31 field:
//! field and group arithmetic, evaluation domains, the circle transform,
//! Merkle commitments and the FRI folding protocol built on them.
//!
//! A prover commits to the values of a function on a domain of points of
//! the circle, folds them round by round with coefficients drawn from its
//! own commitments, and answers queries at positions drawn in the same way;
//! a verifier replays the folds at the queried positions and checks the
//! values that are left directly.

/// The errors of the crate.
pub mod error;
/// The field of integers modulo 2^31 - 1.
pub mod field;
/// The points of the circle `x^2 + y^2 = 1` and their group law.
pub mod circle;
/// Logarithms, powers of two and the bit orders.
pub mod utils;
/// Merkle trees over byte strings.
pub mod merkle;
/// Evaluation domains and the transform between values and coefficients.
pub mod fft;
/// The tables of all domains and bit orders up to a size.
pub mod precomputes;
/// The low-degree proof: folding, proving and verifying.
pub mod fri;
/// The completeness of the low-degree proof.
pub mod completeness;
