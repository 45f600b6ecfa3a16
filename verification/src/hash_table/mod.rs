//! The extendible hash index.

pub mod bucket_page;
pub mod depths;
pub mod dir_page;
pub mod extendible;
pub mod laws;
