//! The linux backend, which this library does not implement: every call
//! reports that the target is unsupported.
use vstd::prelude::*;

use crate::platform::{ProcSample, ProcessInfo};

verus! {

pub open spec fn unsupported_spec() -> Seq<char> {
    "linux not implemented"@
}

/// Enumerates the processes: unsupported here.
pub fn list_processes() -> (r: Result<Vec<ProcessInfo>, String>)
    ensures
        r matches Err(e) && e@ == unsupported_spec(),
{
    Err("linux not implemented".to_string())
}

/// Samples one process: unsupported here.
pub fn sample_process(_pid: u32) -> (r: Result<ProcSample, String>)
    ensures
        r matches Err(e) && e@ == unsupported_spec(),
{
    Err("linux not implemented".to_string())
}

/// The machine's CPU count: unsupported here.
pub fn num_cpus() -> (r: Result<u32, String>)
    ensures
        r matches Err(e) && e@ == unsupported_spec(),
{
    Err("linux not implemented".to_string())
}

/// The machine's memory size: unsupported here.
pub fn total_mem_bytes() -> (r: Result<u64, String>)
    ensures
        r matches Err(e) && e@ == unsupported_spec(),
{
    Err("linux not implemented".to_string())
}

/// Terminates one process: unsupported here.
pub fn kill_process(_pid: u32) -> (r: Result<(), String>)
    ensures
        r matches Err(e) && e@ == unsupported_spec(),
{
    Err("linux not implemented".to_string())
}

} // verus!
