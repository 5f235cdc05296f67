//! What an alert is about.

use vstd::prelude::*;

verus! {

/// Which threshold a process crossed.
#[derive(Debug, Clone, Copy, PartialEq, Eq, Structural)]
pub enum AlertType {
    CpuThresholdExceeded,
    MemoryThresholdExceeded,
}

} // verus!
