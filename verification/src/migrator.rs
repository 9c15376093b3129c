//! Migration of settings to newer versions.
pub mod patterns;
pub mod pending;
