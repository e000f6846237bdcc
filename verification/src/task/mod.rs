//! Processes: their control blocks, their programs, the ready queue, and what threads share.
pub mod context;
pub mod control;
pub mod laws;
pub mod loader;
pub mod manager;
pub mod order;
pub mod process;
