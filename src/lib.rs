//! The discrete core of a Monte-Carlo path tracer: the shape of the
//! bounding-volume hierarchy and the sort it is built with, the nearest-hit
//! rule it answers by, the face layout of boxes, the permutation tables of
//! Perlin noise, checker parity, texel lookup, the bounce budget and the
//! renderers' progress reports, with the settings they read.

pub mod bvh;
pub mod checker;
pub mod dimensions;
pub mod image_texture;
pub mod integrator;
pub mod order_key;
pub mod perlin;
pub mod prism;
pub mod progress;
pub mod render_quality;
pub mod timer;
pub mod traversal;
