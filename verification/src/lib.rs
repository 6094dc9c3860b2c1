//! The verified core of a Monte Carlo path tracer: the render loop over the
//! pixels and samples of a frame, the tracing of a light path through its
//! bounces, the choice of the nearest hit, and the pixel buffer with its
//! portable-pixmap encoding.
//!
//! Everything here works on whole numbers. The geometry and shading that a
//! renderer computes on real-valued vectors are handed in by the caller, as
//! functions and as plain values: pixel coordinates, counts, ordered distance
//! keys and finished eight-bit colours.

pub mod integrator;
pub mod ppm;
pub mod render;
pub mod scan;
