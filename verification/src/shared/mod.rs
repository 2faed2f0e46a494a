//! Pieces every encoder path builds on.

pub mod bits;
pub mod block_split;
pub mod bytes;
pub mod capacity;
pub mod command;
pub mod distance;
pub mod fast_log;
pub mod histogram;
pub mod match_len;
pub mod reader;
pub mod ringbuffer;
