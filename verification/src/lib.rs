//! Two LWE-based cryptosystems: Regev's public-key scheme over a prime
//! modulus, and the building blocks of TFHE over a power-of-two modulus.

pub mod finite_sum;
pub mod regev;
pub mod tfhe;
