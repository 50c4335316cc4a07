//! Integer and text logic of a CPU ray tracer: the plain-text PPM image
//! encoder, the row plan that hands image rows to render workers, the
//! checker-texture cell parity, the demo-scene catalogue and the
//! command-line limits.

pub mod decimal;
pub mod ppm;
pub mod render;
pub mod config;
pub mod material;
pub mod particle;
pub mod scenes;
