//! The `add` command: a new scored entry to append to the journal.
use vstd::prelude::*;

use crate::civil::CivilDateTime;
use crate::daily_score::DailyScore;
use crate::GlobalConfig;
use vstd::string::StringSliceAdditionalSpecFns;

verus! {

/// A fully parsed `add` invocation.  The datetime is `None` when the entry
/// should be stamped with the current instant at execution time.
#[derive(Debug, Clone, PartialEq)]
pub struct AddCommand {
    pub score: i8,
    pub datetime: Option<CivilDateTime>,
    pub tags: Vec<Vec<u8>>,
    pub comment: Option<Vec<u8>>,
    pub global_config: GlobalConfig,
}

/// Why appending to the journal failed; raised by the surrounding I/O code.
#[derive(Debug, Clone, PartialEq)]
pub enum AddCommandError {
    CannotOpenFile { file_path: Vec<u8> },
    CannotWriteToFile { file_path: Vec<u8> },
}

impl AddCommandError {
    pub open spec fn spec_message(self) -> Seq<u8> {
        match self {
            AddCommandError::CannotOpenFile { file_path } =>
                "cannot open journal file '".spec_bytes() + file_path@ + "'".spec_bytes(),
            AddCommandError::CannotWriteToFile { file_path } =>
                "cannot write to journal file '".spec_bytes() + file_path@ + "'".spec_bytes(),
        }
    }

    /// Human-readable description of the failure, as UTF-8 bytes.
    pub fn message(&self) -> (r: Vec<u8>)
        ensures
            r@ == self.spec_message(),
    {
        match self {
            AddCommandError::CannotOpenFile { file_path } => {
                let mut out = vstd::slice::slice_to_vec("cannot open journal file '".as_bytes());
                out.extend_from_slice(file_path.as_slice());
                out.extend_from_slice("'".as_bytes());
                out
            },
            AddCommandError::CannotWriteToFile { file_path } => {
                let mut out = vstd::slice::slice_to_vec(
                    "cannot write to journal file '".as_bytes(),
                );
                out.extend_from_slice(file_path.as_slice());
                out.extend_from_slice("'".as_bytes());
                out
            },
        }
    }
}

impl AddCommand {
    /// The entry this command appends: the command's own fields, stamped
    /// with its datetime or, failing that, the injected "now".
    pub fn build_entry(&self, now: CivilDateTime) -> (r: DailyScore)
        ensures
            r.score == self.score,
            r.tags.deep_view() == self.tags.deep_view(),
            match self.comment {
                Some(c) => r.comment matches Some(c2) && c2@ == c@,
                None => r.comment is None,
            },
            r.datetime == (match self.datetime {
                Some(d) => d,
                None => now,
            }),
    {
        let datetime = match &self.datetime {
            Some(d) => *d,
            None => now,
        };
        let mut tags: Vec<Vec<u8>> = Vec::new();
        let mut i: usize = 0;
        proof {
            assert(tags.deep_view() =~= self.tags.deep_view().subrange(0, 0));
        }
        while i < self.tags.len()
            invariant
                0 <= i <= self.tags@.len(),
                tags.deep_view() == self.tags.deep_view().subrange(0, i as int),
            decreases self.tags@.len() - i,
        {
            proof {
                assert(tags.deep_view().len() == tags@.len());
                assert(tags@.len() == i);
            }
            let ghost prev = tags@;
            let ghost prev_dv = tags.deep_view();
            let t = vstd::slice::slice_to_vec(self.tags[i].as_slice());
            proof {
                assert(t.deep_view() =~= t@);
                assert(self.tags.deep_view()[i as int] =~= self.tags@[i as int]@);
                assert(t.deep_view() == self.tags.deep_view()[i as int]);
            }
            tags.push(t);
            proof {
                assert(tags@ == prev.push(t));
                assert(tags.deep_view() =~~= self.tags.deep_view().subrange(0, i + 1)) by {
                    assert forall|j: int| 0 <= j < tags@.len() implies tags.deep_view()[j]
                        == self.tags.deep_view().subrange(0, i + 1)[j] by {
                        if j < prev.len() {
                            assert(tags@[j] == prev[j]);
                            assert(tags.deep_view()[j] == prev_dv[j]);
                        } else {
                            assert(tags@[j] == t);
                        }
                    }
                }
            }
            i = i + 1;
        }
        proof {
            assert(self.tags.deep_view().subrange(0, self.tags.deep_view().len() as int)
                =~= self.tags.deep_view());
        }
        let comment: Option<Vec<u8>> = match &self.comment {
            Some(c) => Some(vstd::slice::slice_to_vec(c.as_slice())),
            None => None,
        };
        DailyScore { score: self.score, tags, comment, datetime }
    }
}

} // verus!
