//! The image side of a small ray tracer: a framebuffer of packed
//! eight-bit RGB pixels, a procedural gradient that fills one, and an
//! encoder for uncompressed true-colour Targa files. The gradient's
//! intensities are rounded as single-precision arithmetic rounds them, in
//! integers.

pub mod gradient;
pub mod image;
pub mod single;
pub mod targa;
