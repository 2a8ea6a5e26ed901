//! Readers for the data files of a game client: the sqpack block container,
//! the Havok binary tag file format, the paged game-data sheets, and which
//! body's equipment models a body borrows.
pub mod body;
pub mod ex;
pub mod havok;
pub mod sqpack;
pub mod name_compare;
pub mod util;
