//! Reed-Solomon erasure coding over GF(2^8) with the 0x11D field polynomial.
pub mod field;
pub mod galois;
pub mod linalg;
pub mod poly;
pub mod matrix;
pub mod layout;
pub mod neon;
pub mod avx2;
pub mod engine;
pub mod laws;
pub mod cache;

pub use engine::{Error, SimdReedSolomon};
