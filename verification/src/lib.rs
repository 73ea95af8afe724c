//! A read-only virtual filesystem over a directory of gzip-compressed tar
//! archives. Each archive becomes a top-level subtree; lookup, getattr,
//! opendir, readdir, open and read are answered from an inode table that is
//! built once and then never changes.

pub mod archive;
pub mod inode;
pub mod table;
pub mod fs;
pub mod laws;
