//! Game-data sheets: each sheet is split into pages of rows, one set of pages per language.
pub mod exd_map;
