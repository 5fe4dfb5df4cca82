//! Process-scheduling and address-space-mapping core of a small
//! uniprocessor kernel: task control blocks, a stride-scheduling ready
//! queue, a processor abstraction with per-task accounting, and
//! on-demand virtual memory area management with strict validation.

pub mod config;
pub mod mem;
pub mod records;
pub mod task;
pub mod kernel;
