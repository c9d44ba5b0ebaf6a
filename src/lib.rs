//! A line-oriented task list kept in one plain-text file.
//!
//! Each line holds one task behind a marker that records whether it is done.
//! The library decodes and encodes those lines and computes what every
//! command writes back; reading and writing files is left to the caller.

pub mod entry;
pub mod text;
pub mod todo;
pub mod usage;
