//! A small verified color-compositing engine.
//!
//! Channel intensities live in a linear (gamma-free) color space and are
//! represented in fixed point: `FP_ONE` units stand for the real value 1.0.
//! The crate converts between sRGB-encoded bytes and linear intensities,
//! composites linear colors by plain alpha blending or by a Kubelka-Munk
//! style subtractive blend, and accumulates gamma-encoded results in an
//! RGBA pixel buffer ready for image encoding by a caller.

pub mod buffer;
pub mod color;
pub mod fixed;
pub mod scene;
pub mod transfer;

pub use fixed::FP_ONE;
