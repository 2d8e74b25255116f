//! Sampling and topology engine of a NUMA monitor: per-core utilization from
//! cumulative time counters, node and memory discovery from kernel listings,
//! the lookup of processes bound to a core, and the hit-testing of screen cells.

pub mod app;
pub mod cpu_list;
pub mod driver;
pub mod numa_node;
pub mod ordering;
pub mod proc_info;
pub mod sys_numa_info;
pub mod text;
pub mod ui;
