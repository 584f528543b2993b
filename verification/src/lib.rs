//! A persistent job runner: a file-backed queue of command lines, a bounded
//! pool of worker slots, and the rules by which one tick of the control loop
//! moves tasks from the queue into the pool.

pub mod text;
pub mod splitter;
pub mod backlog;
pub mod rw_file;
pub mod thread_pool;
pub mod status;
pub mod runner;
