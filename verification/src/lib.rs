//! Verified core of a static-asset serving subsystem.
//!
//! Given an untrusted URL tail, the library resolves a filesystem location
//! that provably stays under a trusted root, negotiates a precompressed
//! content variant, evaluates HTTP conditional-caching headers against file
//! metadata, and composes the final response descriptor.
pub mod bytes;
pub mod conditional;
pub mod errors;
pub mod fs_model;
pub mod handlers;
pub mod media;
pub mod negotiate;
pub mod respond;
pub mod resolve;
