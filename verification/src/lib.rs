//! A software rasterizer core: a colour and depth raster with depth-tested
//! writes, the scan conversion of one triangle into it, and the integer parts
//! of the procedural shading and mesh helpers that feed it.
//!
//! Real numbers cross this library as IEEE-754 single-precision bit patterns
//! ([`scalar::Scalar`]). The library does no arithmetic on them; it compares
//! them, picks the smaller or larger, clamps them and rounds them to
//! integers, each proved on the patterns. So the rasterizer's decisions are
//! made here (culling, bounds, coverage, the depth test) and so is the
//! rounding of colours to bytes, while projection, interpolation and
//! shading are computed by the caller.

pub mod scalar;
pub mod color;
pub mod framebuffer;
pub mod triangle;
pub mod noise;
pub mod mesh;
pub mod obj_loader;
