//! A verified 2D image-processing core: convolution with pluggable boundary
//! padding, kernel builders, Sobel gradients, and a Canny edge-detection
//! pipeline (non-maxima suppression and hysteresis edge linking).
//!
//! Pixel values are fixed-point numbers: an `i64` counts micro-units, so
//! `fx::FX_ONE` (one million) stands for the intensity 1.0 that normalised
//! pixel types use as their unit bound.

pub mod fx;

pub mod array3;

pub mod error;

pub mod padding;

pub mod util;

pub mod formats;

pub mod conv;

pub mod kernels;

pub mod sobel;

pub mod canny;

pub mod traits;

pub mod netpbm;
