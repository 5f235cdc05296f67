//! Reports on deviations from a process's baseline.

use vstd::prelude::*;

verus! {

/// Describes and grades deviations from a baseline. The deviations are
/// floating-point percentages, so the describing and grading are done by the
/// daemon program, which works on such readings.
pub struct BaselineReporter;

} // verus!
