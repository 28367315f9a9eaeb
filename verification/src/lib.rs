//! The entries of a tar archive.
//!
//! An entry has a header, maybe a longer path or pax records from the entries before it, and data
//! in segments. This crate holds what there is to decide about an entry:
//!
//! - [`entry`]: its path, its link target and its owner, wherever in the archive they stand;
//! - [`pax`]: the records of pax extended headers;
//! - [`read`]: reading its data, segment by segment;
//! - [`unpack`]: what unpacking it does to the file system;
//! - [`unpacking`]: carrying that out, one action at a time;
//! - [`unpack_in`]: unpacking it below a directory, and never outside it;
//! - [`path`]: paths as byte strings;
//! - [`error`]: what can go wrong, and how it is told.
//!
//! Nothing here reads an archive or touches a file system. Whoever uses the crate performs the
//! actions that it asks for, and reports how they went.
pub mod bytes;
pub mod entry;
pub mod error;
pub mod header;
pub mod memo;
pub mod path;
pub mod pax;
pub mod platform;
pub mod read;
pub mod text;
pub mod unpack;
pub mod unpack_in;
pub mod unpacking;
