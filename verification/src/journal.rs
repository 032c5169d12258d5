//! Decoding a whole journal: every line of the store, in order, with the
//! first bad line aborting the read.
use vstd::prelude::*;

use crate::daily_score::line_parse_err;
use crate::daily_score::line_parse_ok;
use crate::daily_score::line_parsed_entry;
use crate::daily_score::DailyScore;
use crate::daily_score::ParseError;
use vstd::string::StringSliceAdditionalSpecFns;

verus! {

/// Why a journal could not be read or exported.  The file-handling variants
/// are raised by the surrounding I/O code; decoding raises
/// `DailyScoreParseError` itself.
#[derive(Debug, Clone, PartialEq)]
pub enum JournalError {
    CannotOpenFile { file_path: Vec<u8> },
    CannotReadLine { file_path: Vec<u8> },
    DailyScoreParseError { line: Vec<u8>, daily_score_parse_error: ParseError },
    XlsxWriteError,
}

impl JournalError {
    pub open spec fn spec_message(self) -> Seq<u8> {
        match self {
            JournalError::CannotOpenFile { file_path } => "cannot open journal file '".spec_bytes()
                + file_path@ + "'".spec_bytes(),
            JournalError::CannotReadLine { file_path } =>
                "cannot read line from journal file '".spec_bytes() + file_path@ + "'".spec_bytes(),
            JournalError::DailyScoreParseError { line, daily_score_parse_error } =>
                "cannot parse daily score data '".spec_bytes() + line@ + "'".spec_bytes(),
            JournalError::XlsxWriteError => "cannot write to xlsx file".spec_bytes(),
        }
    }

    /// Human-readable description of the failure, as UTF-8 bytes.
    pub fn message(&self) -> (r: Vec<u8>)
        ensures
            r@ == self.spec_message(),
    {
        match self {
            JournalError::CannotOpenFile { file_path } => {
                let mut out = vstd::slice::slice_to_vec("cannot open journal file '".as_bytes());
                out.extend_from_slice(file_path.as_slice());
                out.extend_from_slice("'".as_bytes());
                out
            },
            JournalError::CannotReadLine { file_path } => {
                let mut out = vstd::slice::slice_to_vec(
                    "cannot read line from journal file '".as_bytes(),
                );
                out.extend_from_slice(file_path.as_slice());
                out.extend_from_slice("'".as_bytes());
                out
            },
            JournalError::DailyScoreParseError { line, daily_score_parse_error: _ } => {
                let mut out = vstd::slice::slice_to_vec(
                    "cannot parse daily score data '".as_bytes(),
                );
                out.extend_from_slice(line.as_slice());
                out.extend_from_slice("'".as_bytes());
                out
            },
            JournalError::XlsxWriteError => vstd::slice::slice_to_vec(
                "cannot write to xlsx file".as_bytes(),
            ),
        }
    }
}

/// Decode the journal's lines, in order.
///
/// Succeeds with one entry per line exactly when every line decodes; the
/// first bad line aborts the whole read with that line and its decode error.
pub fn parse_lines(lines: &Vec<Vec<u8>>) -> (r: Result<Vec<DailyScore>, JournalError>)
    ensures
        ({
            let ls = lines.deep_view();
            match r {
                Ok(records) => {
                    &&& records@.len() == ls.len()
                    &&& forall|i: int|
                        0 <= i < ls.len() ==> line_parse_ok(#[trigger] ls[i]) && line_parsed_entry(
                            ls[i],
                            records@[i],
                        )
                },
                Err(e) => {
                    &&& e matches JournalError::DailyScoreParseError {
                        line,
                        daily_score_parse_error,
                    }
                    &&& exists|i: int|
                        0 <= i < ls.len() && !line_parse_ok(#[trigger] ls[i]) && line@ == ls[i]
                            && line_parse_err(ls[i], daily_score_parse_error) && (forall|j: int|
                            0 <= j < i ==> line_parse_ok(#[trigger] ls[j]))
                },
            }
        }),
{
    let mut records: Vec<DailyScore> = Vec::new();
    let mut i: usize = 0;
    while i < lines.len()
        invariant
            0 <= i <= lines@.len(),
            records@.len() == i,
            forall|j: int|
                0 <= j < i ==> line_parse_ok(#[trigger] lines.deep_view()[j])
                    && line_parsed_entry(lines.deep_view()[j], records@[j]),
        decreases lines@.len() - i,
    {
        proof {
            assert(lines.deep_view()[i as int] =~= lines@[i as int]@);
        }
        match DailyScore::parse(lines[i].as_slice()) {
            Ok(d) => {
                records.push(d);
            },
            Err(e) => {
                return Err(
                    JournalError::DailyScoreParseError {
                        line: vstd::slice::slice_to_vec(lines[i].as_slice()),
                        daily_score_parse_error: e,
                    },
                );
            },
        }
        i = i + 1;
    }
    Ok(records)
}

} // verus!
