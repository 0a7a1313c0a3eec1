//! Post-processing for small single-stage object detectors: decoding raw
//! network tensors into scored boxes, and non-maximum suppression.
pub mod score;
pub mod geometry;
pub mod suppress;
pub mod decode;
pub mod matrix;
