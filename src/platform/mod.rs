//! The process directory: the records and samples that the operating system
//! hands to the core, and the per-target backends.
pub mod linux;
pub mod macos;
pub mod windows;

use vstd::prelude::*;

verus! {

/// One process of a snapshot.
#[derive(Clone)]
pub struct ProcessInfo {
    pub pid: u32,
    pub ppid: u32,
    pub uid: u32,
    pub name: String,
    pub path: Option<String>,
    pub args: Vec<String>,
}

/// One resource reading of a process: cumulative CPU time and resident memory.
#[derive(Clone, Copy)]
pub struct ProcSample {
    pub cpu_ns: u64,
    pub rss_bytes: u64,
}

} // verus!
