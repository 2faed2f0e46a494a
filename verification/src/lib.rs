//! A Brotli encoder whose logic is stated in contracts and proved.

pub mod backend;
pub mod bound;
pub mod calls;
pub mod compressor;
pub mod config;
pub mod driver;
pub mod encoder;
pub mod fast;
pub mod framing;
pub mod greedy;
pub mod hq;
pub mod math;
pub mod reader;
pub mod session;
pub mod shared;
pub mod source;
