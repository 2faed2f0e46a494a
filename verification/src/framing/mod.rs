//! Containers of compressed resources: ordering, wire sizes, and output that
//! survives a failing sink.

pub mod container;
pub mod reader;
pub mod resource;
pub mod session;
pub mod types;
pub mod varint;
pub mod writer;
