//! A virtual filesystem whose contents live in three relational tables:
//! directories, files, and file kinds. Paths form the hierarchy; every
//! primitive operation is specified and verified against an explicit
//! model of the tables.

pub mod fuse;
pub mod laws;
pub mod path;
pub mod producer;
pub mod vfs;
