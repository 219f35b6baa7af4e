//! Wave function collapse: synthesizes an image that locally resembles a small
//! exemplar by treating generation as constraint satisfaction over overlapping
//! tiles taken from the exemplar.
pub mod image;
pub mod error;
pub mod pattern_data;
pub mod extract_patterns;
pub mod build_propagator;
pub mod wave;
pub mod observe;
pub mod propagate;
pub mod wfc;
