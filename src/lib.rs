//! A software rasterizer: an RGBA pixel store, rectangular views over it, and
//! shape drawing with alpha blending.
//!
//! - `pixel`: the color cell, its packed 32-bit form and the blend rule.
//! - `canvas`: views over a store (a `Vec<Pixel>`), sub-views that share it,
//!   and the drawing operations. Each operation borrows the store mutably for
//!   its whole run, so drawing calls on one store never interleave.
//! - `shape`: which pixels each primitive covers, and with what color.
//! - `ppm`, `surface`: the bytes that the image writers need.

pub mod pixel;
pub mod canvas;
pub mod shape;
pub mod ppm;
pub mod surface;
