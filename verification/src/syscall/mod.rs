//! The system calls.
use vstd::prelude::*;

pub mod calls;
pub mod deadlock;
pub mod fs;
pub mod handover;
pub mod laws;
pub mod locks;
pub mod process;
pub mod sync;

verus! {

/// How a system call goes on.
#[derive(Clone, Copy, PartialEq, Eq, Structural, Debug)]
pub enum Step {
    /// It returns this value.
    Done(isize),
    /// The thread lets the others run, and the call goes on afterwards.
    Yield,
    /// The thread sleeps, and the call goes on once it is woken.
    Block,
}

} // verus!
