//! Regev '05 LWE cryptosystem over a prime modulus.

pub mod arith;
pub mod correctness;
pub mod lwe;
pub mod params;

pub use arith::Modulus;
pub use params::{Alpha, Dimension, LweParams, ParamError, SampleCount};
