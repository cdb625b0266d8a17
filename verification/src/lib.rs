//! The float-free core of a small path tracer: render configuration, the
//! pixel grid and the sampling loop that fills it, one random stream per
//! estimate, the acceptance window and root choice of an intersection,
//! nearest-hit selection over a scene, material dispatch, depth-limited light
//! transport, and the text format the finished image is written in and read
//! back from.
//!
//! Everything numeric about light (vectors, colours, the roots of an
//! intersection) is the caller's: it is handed in as function values over the
//! caller's own types, and places along a ray as integer keys of their bit
//! patterns. This crate decides what is called and what becomes of the
//! results.

pub mod config;
pub mod decimal;
pub mod image;
pub mod material;
pub mod ppm;
pub mod ppm_read;
pub mod stream;
pub mod surface;
pub mod transport;
pub mod world;
