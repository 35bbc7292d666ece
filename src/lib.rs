//! The decisions of a path tracer, apart from its arithmetic: the recursive
//! color integral over bounces, the closest-hit scan over a scene, and the RGB8
//! frame buffer that the renderer fills pixel by pixel. Vector math, surfaces
//! and materials are the caller's, handed in as closures.
pub mod frame;
pub mod scan;
pub mod trace;

pub use crate::frame::{blank_frame, frame_len, pixel_offset, put_pixel, render, Rgb8};
pub use crate::scan::hit_world;
pub use crate::trace::ray_color;
