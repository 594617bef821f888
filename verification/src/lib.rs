//! A verified ray-casting renderer.
//!
//! The library shades every pixel of a rectangular image by casting one ray
//! per pixel at a small scene: a single analytic sphere in front of a
//! vertical sky gradient. All arithmetic is exact fixed-point arithmetic over
//! 128-bit integers, and every function carries a contract that pins its
//! result down to the mathematical model in its module.

pub mod fixed;
pub mod ray;
pub mod render;
pub mod vec3;
