//! The Havok binary tag file format: a stream of tagged records that declare
//! object types, strings and objects, decoded into an object graph.
pub mod encoding;
pub mod format;
pub mod laws;
pub mod object;
pub mod reader;
pub mod types;
