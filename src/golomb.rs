//! Golomb-Rice coding of two-dimensional integer arrays.

pub mod encode;
