//! Metropolis-Hastings sampling of a one-dimensional density that is known
//! only up to its normalising constant.
//!
//! Numbers are held by their IEEE 754 single-precision encoding. The
//! arithmetic that the sampler needs, a sum, a quotient and a comparison, is
//! carried out on the encodings in integers, and is proved to give what the
//! standard asks of single precision.

pub mod acceptance;
pub mod laws;
pub mod order;
pub mod quotient;
pub mod rounding;
pub mod sampler;
pub mod scalar;
pub mod step;
pub mod sum;
