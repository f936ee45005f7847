//! Fraud detection by exact nearest-neighbour search over quantised
//! transaction vectors.
pub mod dataset;
pub mod decision;
pub mod draws;
pub mod engine;
pub mod feature_values;
pub mod features;
pub mod file_layout;
pub mod float32;
pub mod order;
pub mod paths;
pub mod quantize;
pub mod reference_file;
pub mod request;
pub mod rounding;
pub mod sampling;
pub mod search;
pub mod service;
pub mod timestamp;
