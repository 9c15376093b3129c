//! Positions in a text and differences between them.
pub mod delta;
pub mod position;
pub mod spaces;
pub mod type_path;
