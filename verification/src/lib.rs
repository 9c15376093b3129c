//! Verified building blocks of a code editor: text positions, edit-prediction
//! context, document preview, settings and release metadata.
pub mod agent_rules;
pub mod edit_prediction_context;
pub mod editor;
pub mod live_context;
pub mod migrate;
pub mod migrator;
pub mod multi_buffer;
pub mod paths;
pub mod release_channel;
pub mod rope;
pub mod rules_set;
pub mod settings;
pub mod stable_sort;
pub mod text;
pub mod typst_viewer;
pub mod zeta_context;
pub mod zlog;
