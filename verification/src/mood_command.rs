//! The `mood` command: which report to compute over the journal, and for
//! which tags.
use vstd::prelude::*;

use crate::journal::JournalError;
use crate::GlobalConfig;
use vstd::string::StringSliceAdditionalSpecFns;

verus! {

/// A fully parsed `mood` invocation.
#[derive(Debug, Clone, PartialEq)]
pub struct MoodCommand {
    pub global_config: GlobalConfig,
    pub report_type: MoodReportType,
    pub tags: Vec<Vec<u8>>,
}

/// Which aggregate the `mood` command computes.
#[derive(Debug, Clone, Copy, PartialEq, Eq, Structural)]
pub enum MoodReportType {
    WeeklyIterative,
    SevenDaysIterative,
    Monthly,
    MonthlyIterative,
    ThirtyDaysIterative,
    Yearly,
    MovingMonthly,
}

impl MoodReportType {
    /// Report kinds whose output is a series worth plotting, rather than a
    /// single number.
    pub fn is_plottable(&self) -> (r: bool)
        ensures
            r == (*self == MoodReportType::WeeklyIterative || *self
                == MoodReportType::SevenDaysIterative || *self == MoodReportType::MonthlyIterative
                || *self == MoodReportType::ThirtyDaysIterative || *self
                == MoodReportType::MovingMonthly),
    {
        matches!(
            self,
            MoodReportType::WeeklyIterative
                | MoodReportType::SevenDaysIterative
                | MoodReportType::MonthlyIterative
                | MoodReportType::ThirtyDaysIterative
                | MoodReportType::MovingMonthly
        )
    }
}

/// Why the `mood` command failed; raised around the journal read.
#[derive(Debug, Clone, PartialEq)]
pub enum MoodCommandError {
    JournalReadError(JournalError),
}

impl MoodCommandError {
    pub open spec fn spec_message(self) -> Seq<u8> {
        "cannot parse journal".spec_bytes()
    }

    /// Human-readable description of the failure, as UTF-8 bytes.
    pub fn message(&self) -> (r: Vec<u8>)
        ensures
            r@ == self.spec_message(),
    {
        vstd::slice::slice_to_vec("cannot parse journal".as_bytes())
    }
}

} // verus!
