//! High-level core of a small preemptive microkernel: identifier tables, a
//! multi-level feedback queue scheduler, process lifecycle and character-device
//! I/O, modelled over plain values so that each step is proved.

pub mod context;
pub mod descriptor;
pub mod error;
pub mod id_table;
pub mod io;
pub mod kernel;
pub mod manager;
pub mod process;
pub mod queues;
pub mod scheduler;
pub mod syscall;
pub mod tasks;
pub mod uart;
pub mod weak_queue;
