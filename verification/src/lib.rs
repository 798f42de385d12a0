//! Verified core of a feed-forward neural-network inference and persistence
//! engine: dense matrices with a cache-blocked multiply, affine layers, a
//! multilayer container, and a binary codec for the parameter set.
//!
//! Matrix cells are IEEE-754 binary32 values carried as their `u32` bit
//! patterns, so that all structural reasoning is exact; the two scalar
//! operations the kernel needs (addition and multiplication) are computed by
//! a deterministic software implementation behind thin trusted wrappers.

pub mod codec;
pub mod layer;
pub mod matrix;
pub mod network;
pub mod scalar;
pub mod source;
