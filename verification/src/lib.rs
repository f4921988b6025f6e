//! Lossy compressor core for streams of unit quaternions produced by
//! integrating a rate gyro: a deterministic Q5.27 fixed-point math kernel, a
//! predictive quantizer emitting signed-byte triples, and an rANS entropy
//! coder driven by a discretized Laplace model.

pub mod fix32;
pub mod quat;
pub mod quant;
pub mod compress;
