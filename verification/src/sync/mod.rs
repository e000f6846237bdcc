//! Mutexes, semaphores and condition variables for threads, and the safety
//! check of deadlock detection. A thread is known by its number; blocking and
//! waking are left to the scheduler, which is told what to do.
pub mod condvar;
pub mod laws;
pub mod mutex;
pub mod semaphore;
pub mod utils;
