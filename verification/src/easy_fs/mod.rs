//! An easy file system over a block device.
use vstd::prelude::*;

pub mod bitmap;
pub mod block_cache;
pub mod block_dev;
pub mod bytes;
pub mod calls;
pub mod dir_entry;
pub mod directory;
pub mod disk_inode;
pub mod efs;
pub mod growth;
pub mod intact;
pub mod laws;
pub mod layout;
pub mod super_block;
pub mod vfs;
pub mod volume;

verus! {

/// Bytes in a block.
pub const BLOCK_SZ: usize = 512;

/// Largest inode number a file or directory may have.
pub const MAX_INODE_ID: u32 = 0xffff_ff7f;

/// The inode number of a directory entry that is marked as deleted.
pub const FILE_NOT_EXIST: u32 = 0xffff_fffe;

} // verus!
