//! The high-quality encoders: the cheapest path through a block.

pub mod block_splitter;
pub mod candidates;
pub mod encoder;
pub mod nodes;
pub mod params;
pub mod path;
pub mod pricing;
pub mod retold;
pub mod runs;
pub mod splitting;
pub mod update;
pub mod zopfli;
