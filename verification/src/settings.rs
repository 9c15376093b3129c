//! Settings files: what is wrong with them, and key bindings.
pub mod keymap_file;
pub mod settings_diagnostics;
