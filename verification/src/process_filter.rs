//! Which processes a rule or the daemon looks at, and how urgent a rule is.

use crate::text::{contains_text, text_contains};
use vstd::prelude::*;

verus! {

/// How urgent a rule is.
#[derive(Debug, Clone, Copy, PartialEq, Eq, Hash, PartialOrd, Ord, Structural)]
pub enum Priority {
    Low,
    Medium,
    High,
}

/// The rank of a priority: higher is more urgent.
pub open spec fn priority_rank(p: Priority) -> nat {
    match p {
        Priority::Low => 0,
        Priority::Medium => 1,
        Priority::High => 2,
    }
}

impl Priority {
    /// The rank of the priority (see [`priority_rank`]).
    pub fn rank(&self) -> (r: u8)
        ensures
            r == priority_rank(*self),
    {
        match self {
            Priority::Low => 0,
            Priority::Medium => 1,
            Priority::High => 2,
        }
    }
}

/// Selects processes by name.
#[derive(Debug, Clone)]
pub struct ProcessFilter {
    /// When set, only processes whose name contains this text match.
    pub name_contains: Option<String>,
}

/// Whether `filter` lets the process named `name` through.
pub open spec fn filter_matches(filter: ProcessFilter, name: Seq<char>) -> bool {
    match filter.name_contains {
        Some(p) => contains_text(name, p@),
        None => true,
    }
}

impl ProcessFilter {
    /// A filter that lets every process through.
    pub fn new() -> (r: Self)
        ensures
            r.name_contains is None,
    {
        ProcessFilter { name_contains: None }
    }

    /// A filter for the processes whose name contains `pattern`.
    pub fn by_name(pattern: &str) -> (r: Self)
        ensures
            r.name_contains matches Some(p) && p@ == pattern@,
    {
        ProcessFilter { name_contains: Some(pattern.to_owned()) }
    }

    /// Whether the filter sets no condition.
    pub fn is_empty(&self) -> (r: bool)
        ensures
            r == (self.name_contains is None),
    {
        self.name_contains.is_none()
    }

    /// Whether the process `process_name` (with id `pid`) passes the filter;
    /// the filter looks at the name only.
    pub fn matches(&self, process_name: &str, pid: u32) -> (r: bool)
        ensures
            r == filter_matches(*self, process_name@),
    {
        match &self.name_contains {
            Some(p) => text_contains(process_name, p.as_str()),
            None => true,
        }
    }
}

impl Default for ProcessFilter {
    fn default() -> (r: Self)
        ensures
            r.name_contains is None,
    {
        Self::new()
    }
}

} // verus!
