//! A small ray tracer over fixed-point arithmetic: spheres, a pinhole
//! camera, nearest-hit search, facing-ratio shading and a frame renderer.
pub mod camera;
pub mod fixed;
pub mod frame;
pub mod geometry;
pub mod scene;
pub mod shade;
