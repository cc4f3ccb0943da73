//! Renders vector geographic features onto a raster canvas.
//!
//! The verified core is the reprojection-and-transform pipeline together with
//! the polygon symbolizer: a bounding-box accumulator, an edge sampler used to
//! estimate the bounding box of a geographic window under a nonlinear
//! projection, the derivation of an aspect-preserving affine transform onto a
//! fixed pixel canvas, and the construction of multi-ring fill paths.
//!
//! Coordinates are fixed-point values: each scalar is an `i64` number of
//! units, where the unit (degree, microdegree, metre, ...) is the caller's
//! choice. All geometry here is exact integer arithmetic; callers that hold
//! measurements in another form convert at the boundary.

pub mod bbox;
pub mod geom;
pub mod mapfile;
pub mod renderer;
pub mod symbolizers;
pub mod transform;
