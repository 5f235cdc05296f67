//! Reports that describe an anomaly in words.

use crate::anomaly::{kind_label, AnomalyKind};
use crate::text::{decimal, push_decimal, push_text};
use vstd::prelude::*;

verus! {

/// A report on one anomaly of one process.
#[derive(Debug, Clone)]
pub struct AnomalyReport {
    pub process_name: String,
    pub pid: u32,
    pub summary: String,
    pub details: String,
}

/// The one-line summary of an anomaly:
/// `[label] label detected for 'name' (PID pid)`.
pub open spec fn summary_line(kind: AnomalyKind, process_name: Seq<char>, pid: u32) -> Seq<char> {
    "["@ + kind_label(kind) + "] "@ + kind_label(kind) + " detected for '"@ + process_name
        + "' (PID "@ + decimal(pid as nat) + ")"@
}

/// The one-line summary of an anomaly of kind `kind` in the process
/// `process_name` with id `pid` (see [`summary_line`]).
pub fn anomaly_summary(kind: AnomalyKind, process_name: &str, pid: u32) -> (r: String)
    ensures
        r@ == summary_line(kind, process_name@, pid),
{
    let label = kind.label();
    let mut s = String::new();
    push_text(&mut s, "[");
    push_text(&mut s, label);
    push_text(&mut s, "] ");
    push_text(&mut s, label);
    push_text(&mut s, " detected for '");
    push_text(&mut s, process_name);
    push_text(&mut s, "' (PID ");
    push_decimal(&mut s, pid as u128);
    push_text(&mut s, ")");
    proof {
        assert(s@ =~= summary_line(kind, process_name@, pid));
    }
    s
}

} // verus!
