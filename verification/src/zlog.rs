//! Logging.
pub mod bug;
