//! The greedy encoders: match finders, command creation, block splitting.

pub mod backward_references;
pub mod block;
pub mod bucket;
pub mod chain;
pub mod finder;
pub mod finding;
pub mod keymap;
pub mod matcher;
pub mod params;
pub mod pool;
pub mod probing;
pub mod quick;
pub mod scanning;
pub mod search;
pub mod slots;
pub mod split;
pub mod tables;
pub mod tags;
