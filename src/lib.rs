//! Parsing of the kernel's memory summaries into plain records: the
//! system-wide summary (`/proc/meminfo`) and a process's rollup of its mapped
//! regions (`/proc/<pid>/smaps_rollup`).
pub mod error;
pub mod process;
pub mod system;
pub mod text;
