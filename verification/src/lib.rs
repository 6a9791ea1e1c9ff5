//! Verified core of an IVF-based fraud scoring service.
pub mod engine;
pub mod aligned;
pub mod bytes_le;
pub mod format;
pub mod http;
pub mod kmeans;
pub mod packing;
pub mod response;
pub mod scan;
pub mod simd;
pub mod timestamp;
pub mod vector;
pub mod vectorize;
