//! The kinds of anomaly a process's metrics can show against its baseline.

use vstd::prelude::*;

verus! {

/// Which metric strayed from its baseline, and which way.
#[derive(Debug, Clone, Copy, PartialEq, Eq, Structural)]
pub enum AnomalyKind {
    CpuSpike,
    MemorySpike,
    CpuDrop,
    MemoryDrop,
}

/// How a kind of anomaly is named in reports.
pub open spec fn kind_label(k: AnomalyKind) -> Seq<char> {
    match k {
        AnomalyKind::CpuSpike => "CPU spike"@,
        AnomalyKind::CpuDrop => "CPU drop"@,
        AnomalyKind::MemorySpike => "Memory spike"@,
        AnomalyKind::MemoryDrop => "Memory drop"@,
    }
}

/// The unit of the metric behind a kind of anomaly.
pub open spec fn kind_unit(k: AnomalyKind) -> Seq<char> {
    match k {
        AnomalyKind::CpuSpike | AnomalyKind::CpuDrop => "%"@,
        AnomalyKind::MemorySpike | AnomalyKind::MemoryDrop => "MB"@,
    }
}

impl AnomalyKind {
    /// How the kind is named in reports (see [`kind_label`]).
    pub fn label(&self) -> (r: &'static str)
        ensures
            r@ == kind_label(*self),
    {
        match self {
            AnomalyKind::CpuSpike => "CPU spike",
            AnomalyKind::CpuDrop => "CPU drop",
            AnomalyKind::MemorySpike => "Memory spike",
            AnomalyKind::MemoryDrop => "Memory drop",
        }
    }

    /// The unit of the kind's metric (see [`kind_unit`]).
    pub fn unit(&self) -> (r: &'static str)
        ensures
            r@ == kind_unit(*self),
    {
        match self {
            AnomalyKind::CpuSpike | AnomalyKind::CpuDrop => "%",
            AnomalyKind::MemorySpike | AnomalyKind::MemoryDrop => "MB",
        }
    }
}

} // verus!
