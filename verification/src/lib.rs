//! A small feedforward neural-network engine over saturating fixed-point
//! arithmetic: dense vectors and matrices, dense layers with a hard-sigmoid
//! activation, backpropagation across a layer stack, gradient-descent
//! training loops, and a self-describing textual persistence format.
//!
//! Every scalar is a fixed-point number: an `i64` whose real value is
//! `bits / SCALE`.  All arithmetic saturates at the representable range
//! instead of wrapping, so every operation is total and its result is
//! pinned down exactly by the spec functions in [`fixed`].

use vstd::prelude::*;

pub mod fixed;
pub mod laws;
pub mod layer;
pub mod matrix;
pub mod network;
pub mod text;
pub mod vector;

verus! {

/// The failure conditions of the numeric core.
///
/// Element access out of bounds is `IndexOutOfRange`; operand dimensions
/// that disagree in an arithmetic or layer operation are `ShapeMismatch`;
/// text that does not spell a well-formed network is `ParseFailure`.
#[derive(Clone, Copy, Debug, PartialEq, Eq, Structural)]
pub enum NetError {
    ShapeMismatch,
    IndexOutOfRange,
    ParseFailure,
}

} // verus!
