//! Stub metrics source.
//!
//! A platform without real counters for a subsystem reports a single
//! zero-valued unit; the pipeline treats that exactly like genuine zero
//! activity. Real counter acquisition (kernel counter files, system calls)
//! is platform I/O and lives outside the verified library; its lines are
//! parsed by [`crate::parse`].

use vstd::prelude::*;

verus! {

/// Network counter stub: one interface that never transfers anything.
pub fn net_stats() -> (r: Vec<(u64, u64)>)
    ensures
        r@.len() == 1,
        r@[0] == (0u64, 0u64),
{
    let mut r: Vec<(u64, u64)> = Vec::new();
    r.push((0, 0));
    r
}

/// Disk counter stub: one device that never transfers anything.
pub fn disk_stats() -> (r: Vec<(u64, u64)>)
    ensures
        r@.len() == 1,
        r@[0] == (0u64, 0u64),
{
    let mut r: Vec<(u64, u64)> = Vec::new();
    r.push((0, 0));
    r
}

} // verus!
