//! Reading and writing PNG-style chunks: a typed, length-prefixed and
//! checksummed record format, and a container that holds an ordered list of them.

pub mod chunk_type;
pub mod commands;
pub mod chunk;
pub mod png;
pub mod primitives;
