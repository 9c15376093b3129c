//! Buffers made of parts of others.
pub mod position;
