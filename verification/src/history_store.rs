//! Keys of the metric histories kept per process.

use vstd::prelude::*;

verus! {

/// Names one history: a process and one of its metrics.
#[derive(Debug, Clone, PartialEq, Eq, Hash)]
pub struct HistoryKey {
    pub pid: u32,
    pub metric: String,
}

impl HistoryKey {
    /// The key of the history of `metric` for process `pid`.
    pub fn new(pid: u32, metric: &str) -> (r: Self)
        ensures
            r.pid == pid,
            r.metric@ == metric@,
    {
        HistoryKey { pid, metric: metric.to_owned() }
    }
}

} // verus!
