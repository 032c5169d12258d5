//! The `export` command: where and in which format to export the journal.
use vstd::prelude::*;

use crate::journal::JournalError;
use crate::GlobalConfig;
use vstd::string::StringSliceAdditionalSpecFns;

verus! {

/// A fully parsed `export` invocation.
#[derive(Debug, Clone, PartialEq)]
pub struct ExportCommand {
    pub global_config: GlobalConfig,
    pub export_type: ExportType,
    pub file_path: Vec<u8>,
}

/// Supported export formats.
#[derive(Debug, Clone, Copy, PartialEq, Eq, Structural)]
pub enum ExportType {
    Xlsx,
}

/// Why the `export` command failed; raised around the journal read and the
/// spreadsheet write.
#[derive(Debug, Clone, PartialEq)]
pub enum ExportCommandError {
    ReadError(JournalError),
    WriteError(JournalError),
}

impl ExportCommandError {
    pub open spec fn spec_message(self) -> Seq<u8> {
        match self {
            ExportCommandError::ReadError(_) => "cannot parse journal".spec_bytes(),
            ExportCommandError::WriteError(_) => "cannot write to a file".spec_bytes(),
        }
    }

    /// Human-readable description of the failure, as UTF-8 bytes.
    pub fn message(&self) -> (r: Vec<u8>)
        ensures
            r@ == self.spec_message(),
    {
        match self {
            ExportCommandError::ReadError(_) => vstd::slice::slice_to_vec(
                "cannot parse journal".as_bytes(),
            ),
            ExportCommandError::WriteError(_) => vstd::slice::slice_to_vec(
                "cannot write to a file".as_bytes(),
            ),
        }
    }
}

} // verus!
