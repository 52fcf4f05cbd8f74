//! Strips privacy-sensitive metadata from JPEG, PNG, GIF, WebP and TIFF
//! containers while leaving the pixel payload untouched.

pub mod cli;
pub mod error;
pub mod formats;
pub mod idempotence;
pub mod laws;
pub mod parallel;
pub mod processor;
pub mod simd;
pub mod terminal;
pub mod tiff_laws;
pub mod tiff_twice;
