//! The fast encoders of qualities zero and one.

pub mod codes;
pub mod constants;
pub mod encoder;
pub mod fragment;
pub mod header;
pub mod hits;
pub mod q0;
