//! Delta compression of short, repetitive byte records against a growing
//! cache of earlier records that sender and receiver keep in step.

pub mod cache;
pub mod chunked;
pub mod compressor;
pub mod error;
pub mod session;
pub mod varint;
