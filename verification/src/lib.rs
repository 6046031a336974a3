//! Core of an experimental lossy image codec: an appendable packed bit
//! sequence, a binary arithmetic coder, the shifted body-centred-cubic
//! lattice with its residual chains, and the quadtree containers that
//! carry quantised wavelet coefficients.
//!
//! Floating-point stages of the codec (the Haar transform, the twiddle
//! pass, the pyramid and the perceptual quantiser) live outside this
//! library; everything here is integer or structural logic, verified.

use vstd::prelude::*;

pub mod arithmetic;
pub mod bcc;
pub mod bits;
pub mod quad;
pub mod tile;

verus! {

/// A catch-all error type.
#[derive(Debug, Copy, Clone)]
pub struct Error(pub &'static str);

/// The index type of a 2x2 grid: `(row_bit, col_bit)`, with
/// `(false, false)` at the top left.
pub type Small = (bool, bool);

} // verus!
