//! A small kernel: a block file system, paged address spaces, process and
//! thread bookkeeping, and the system calls over them.
use vstd::prelude::*;

pub mod config;
pub mod drivers;
pub mod easy_fs;
pub mod fs;
pub mod mm;
pub mod sync;
pub mod task;
pub mod syscall;
