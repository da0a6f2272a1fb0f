//! A small deterministic raster pipeline: a fixed-size pixel canvas, three
//! shapes that stamp themselves onto it, a seeded number stream, and a raw
//! pixmap encoder.

pub mod color;
pub mod image;
pub mod shape;
pub mod random;
pub mod ppm;
