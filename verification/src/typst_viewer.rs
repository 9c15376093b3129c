//! A viewer for documents that a preview server renders page by page.
pub mod decode;
pub mod image_cache;
pub mod page_table;
pub mod preview_session;
pub mod preview_view;
pub mod protocol;
pub mod scale;
pub mod svg_stream;
pub mod svg_view;
