//! Compositing and colour-reduction core of the maple template renderer.
//!
//! The verified library holds the integer logic of the renderer: the RGBA frame
//! buffer, median-cut colour quantization with its inverse colour map and
//! Floyd-Steinberg dithering, the compositing and edge-smoothing arithmetic,
//! GIF frame planning and encoding, and the validation and frame planning of the
//! WebP encoders.
pub mod anim;
pub mod archive;
pub mod cache;
pub mod cli;
pub mod error;
pub mod frame;
pub mod gif_anim;
pub mod quantize;
pub mod render;
pub mod webp_anim;
