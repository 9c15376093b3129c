//! Context gathered around a cursor for edit prediction.
pub mod excerpt;
pub mod identifier_index;
pub mod identifier_references;
pub mod imports;
pub mod languages;
pub mod outline;
pub mod prompt;
pub mod prompt_laws;
pub mod prompt_planner;
pub mod syntax;
pub mod treesitter_util;
pub mod zed_code;
