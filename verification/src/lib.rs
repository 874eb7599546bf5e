//! The verified core of rawgrep, a grep that reads files straight from the block device:
//! required-literal extraction from regular expressions and the fragment hashes of the
//! on-disk fragment cache, the fragment presence scan, binary-content and file-name
//! classification, the page-cache temperature heuristics, and the processor topology
//! used to place search workers.
pub mod binary;
pub mod binary_ext;
pub mod cache_laws;
pub mod color;
pub mod error;
pub mod extractor;
pub mod fragments;
pub mod literal_laws;
pub mod logger;
pub mod run_temperature;
pub mod topology;
pub mod tracy;
pub mod unwrap_;
