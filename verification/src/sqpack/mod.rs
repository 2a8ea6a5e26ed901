//! The sqpack block container: a file header, an optional extra header, then
//! blocks that are each stored as is or deflate-compressed.
pub mod decoder;
pub mod raw_file;
pub mod reader;
