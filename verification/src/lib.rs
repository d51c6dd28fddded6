//! Frame generators for an addressable LED strip.
//!
//! Every pattern is a function from a frame counter (and, for the scatter
//! effect, a small amount of per-pixel state) to the contents of the pixel
//! buffer. Transmitting a buffer and pacing the frames is left to the caller.

pub mod chance;
pub mod colour;
pub mod entries;
pub mod explode;
pub mod laws;
pub mod lifecycle;
pub mod patterns;
pub mod scatter;
pub mod tracer;
pub mod validity;
