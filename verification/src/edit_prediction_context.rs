//! Similarity of texts, measured on the hashes of their parts.
pub mod occurrences;
pub mod sliding_window;
