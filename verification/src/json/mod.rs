//! JSON primitives.

pub mod simd;
pub mod error;
pub mod encode;
pub mod decode;
pub mod roundtrip;
