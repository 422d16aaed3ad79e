//! The report generator. Rendering and printing the report are terminal I/O
//! and live outside the library; the type itself is the handle callers
//! construct one of per run.

use vstd::prelude::*;

verus! {

/// Renders an analysis as a human-readable report.
pub struct ReportGenerator {}

impl ReportGenerator {
    pub fn new() -> (r: Self)
        ensures
            r == (ReportGenerator {  }),
    {
        ReportGenerator {  }
    }
}

} // verus!
