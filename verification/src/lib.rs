//! The core of a small server for static files: where a request line leads,
//! and what is kept for the file behind it.
//!
//! - `parse` reads the path of a request line segment by segment, without
//!   copying it.
//! - `path` builds the file system path for the segments and lets none
//!   through that could leave the root directory.
//! - `route` is the trie that remembers one entry per path.
//! - `memo` holds what the trie promises: a stored path is found again, and
//!   storing one path leaves the others alone.
//! - `lazy_file` and `reload` say when a file is to be read, and read again.
//! - `negative` remembers the paths that led nowhere.
//! - `handler` puts these together into the routing of one request.
//!
//! Nothing here reads a file or a socket: the caller does, and hands in
//! what it found.

pub mod error;
pub mod scan;
pub mod parse;
pub mod path;
pub mod arena;
pub mod route;
pub mod memo;
pub mod lazy_file;
pub mod reload;
pub mod negative;
pub mod handler;
