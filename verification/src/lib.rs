//! Polynomial multiplication under three ring structures: the plain
//! polynomial ring (linear convolution), the quotient ring modulo x^n - 1
//! (cyclic convolution), and the quotient ring modulo x^n + 1 (negacyclic
//! convolution), together with a number-theoretic transform over Z_q and
//! transform-based convolution pipelines.

use vstd::prelude::*;

pub mod fast;
pub mod modular;
pub mod naive;
pub mod ntt;
pub mod sums;

pub use fast::{cyclic_convolve_fast, negacyclic_convolve_fast};
pub use modular::{add_mod, find_primitive_root, mul_mod, pow_mod, sub_mod};
pub use naive::{linear_convolve, negative_wrapped_convolve, positive_wrapped_convolve};
pub use ntt::{ntt_forward, ntt_inverse};

verus! {

/// Why a convolution or transform call was rejected.
#[derive(Clone, Copy, Debug, PartialEq, Eq, Structural)]
pub enum ConvolveError {
    /// An operand had zero length.
    EmptyInput,
    /// The transform length is not a power of two.
    InvalidTransformLength,
    /// The modulus is too small for the transform length.
    ModulusTooSmall,
    /// No element of order 2n exists below the modulus.
    NoPrimitiveRoot,
    /// An input coefficient was not reduced below the modulus.
    CoefficientOutOfRange,
}

} // verus!
