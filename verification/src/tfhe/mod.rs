//! TFHE-style constructions following Zama's "TFHE Deep Dive" blog series
//! at https://www.zama.org/post/tfhe-deep-dive-part-1 .

pub mod modq;
pub mod params;

pub use params::GlweParams;
pub mod poly;
