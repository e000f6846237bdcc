//! Open files, and the calls on the flat directory that holds all files.
pub mod files;
pub mod inode;
pub mod laws;
