//! A daily "mood" journal core: a line codec for dated, scored entries, a
//! report engine computing time-windowed aggregates over decoded entries,
//! and the command-line grammar that selects between them.
//!
//! The core performs no I/O and never reads a clock: callers hand it raw
//! text lines and an explicit "now", and take back plain values.
mod add_command;
mod civil;
mod daily_score;
mod export_command;
mod journal;
mod mood_command;
mod mood_report;
mod text;

pub use add_command::AddCommand;
pub use add_command::AddCommandError;
pub use civil::CivilDateTime;
pub use daily_score::DailyScore;
pub use daily_score::ParseError;
pub use export_command::ExportCommand;
pub use export_command::ExportCommandError;
pub use export_command::ExportType;
pub use journal::parse_lines;
pub use journal::JournalError;
pub use mood_command::MoodCommand;
pub use mood_command::MoodCommandError;
pub use mood_command::MoodReportType;
pub use mood_report::MoodReport;

use vstd::prelude::*;

use crate::daily_score::i8_field_val;
use crate::daily_score::valid_i8_field;
use crate::text::bytes_eq_exec;
use crate::text::dedup;
use crate::text::dedup_exec;
use crate::text::join_spaces;
use crate::text::join_spaces_range_exec;
use vstd::string::StringSliceAdditionalSpecFns;

verus! {

/// Settings shared by every command: where the journal lives.
#[derive(Debug, Clone, PartialEq)]
pub struct GlobalConfig {
    pub journal_file_path: Vec<u8>,
}

/// Why a command line could not be understood, or a command failed.
#[derive(Debug, Clone, PartialEq)]
pub enum CliError {
    CommandNotProvided,
    FilenameNotProvided,
    CommandNotRecognized(Vec<u8>),
    AddCommandArgsMissingDailyScore,
    AddCommandArgsInvalidDailyScore { score_string: Vec<u8> },
    MoodReportTypeInvalid(Vec<u8>),
    CommandExecutionError,
}

impl CliError {
    pub open spec fn spec_message(self) -> Seq<u8> {
        match self {
            CliError::CommandNotProvided => "command is not provided".spec_bytes(),
            CliError::FilenameNotProvided =>
                "'-f' option requires file path which is not provided".spec_bytes(),
            CliError::CommandNotRecognized(c) => "command '".spec_bytes() + c@
                + "' is not recognized".spec_bytes(),
            CliError::AddCommandArgsMissingDailyScore =>
                "daily score is not provided for add command".spec_bytes(),
            CliError::AddCommandArgsInvalidDailyScore { score_string } =>
                "cannot parse daily score '".spec_bytes() + score_string@
                + "' as int for add command".spec_bytes(),
            CliError::MoodReportTypeInvalid(t) => "'".spec_bytes() + t@
                + "' is not a valid mood report type".spec_bytes(),
            CliError::CommandExecutionError => "failed to execute command".spec_bytes(),
        }
    }

    /// Human-readable description of the failure, as UTF-8 bytes.
    pub fn message(&self) -> (r: Vec<u8>)
        ensures
            r@ == self.spec_message(),
    {
        match self {
            CliError::CommandNotProvided => vstd::slice::slice_to_vec(
                "command is not provided".as_bytes(),
            ),
            CliError::FilenameNotProvided => vstd::slice::slice_to_vec(
                "'-f' option requires file path which is not provided".as_bytes(),
            ),
            CliError::CommandNotRecognized(c) => {
                let mut out = vstd::slice::slice_to_vec("command '".as_bytes());
                out.extend_from_slice(c.as_slice());
                out.extend_from_slice("' is not recognized".as_bytes());
                out
            },
            CliError::AddCommandArgsMissingDailyScore => vstd::slice::slice_to_vec(
                "daily score is not provided for add command".as_bytes(),
            ),
            CliError::AddCommandArgsInvalidDailyScore { score_string } => {
                let mut out = vstd::slice::slice_to_vec("cannot parse daily score '".as_bytes());
                out.extend_from_slice(score_string.as_slice());
                out.extend_from_slice("' as int for add command".as_bytes());
                out
            },
            CliError::MoodReportTypeInvalid(t) => {
                let mut out = vstd::slice::slice_to_vec("'".as_bytes());
                out.extend_from_slice(t.as_slice());
                out.extend_from_slice("' is not a valid mood report type".as_bytes());
                out
            },
            CliError::CommandExecutionError => vstd::slice::slice_to_vec(
                "failed to execute command".as_bytes(),
            ),
        }
    }
}

/// A fully parsed command line, ready to execute.
#[derive(Debug, Clone, PartialEq)]
pub enum CliCommand {
    Add(AddCommand),
    Mood(MoodCommand),
    Export(ExportCommand),
}

/// An argument that ends the tag list of `add` and starts its comment.
pub open spec fn comment_marker(s: Seq<u8>) -> bool {
    s == "--comment".spec_bytes() || s == "-c".spec_bytes()
}

/// An argument that ends the tag list of `mood` and names its report type.
pub open spec fn type_marker(s: Seq<u8>) -> bool {
    s == "--type".spec_bytes() || s == "-t".spec_bytes()
}

/// Index of the first marker argument at or after `from`, or the length if
/// there is none.
pub open spec fn marker_scan(
    rest: Seq<Seq<u8>>,
    from: int,
    is_marker: spec_fn(Seq<u8>) -> bool,
) -> int
    decreases rest.len() - from,
{
    if from < 0 || from >= rest.len() {
        rest.len() as int
    } else if is_marker(rest[from]) {
        from
    } else {
        marker_scan(rest, from + 1, is_marker)
    }
}

/// The report type named by a `--type` argument, if it is recognized.
pub open spec fn report_type_of(s: Seq<u8>) -> Option<MoodReportType> {
    if s == "m".spec_bytes() || s == "monthly".spec_bytes() {
        Some(MoodReportType::MonthlyIterative)
    } else if s == "lm".spec_bytes() || s == "last month".spec_bytes() {
        Some(MoodReportType::Monthly)
    } else if s == "ly".spec_bytes() || s == "last year".spec_bytes() {
        Some(MoodReportType::Yearly)
    } else if s == "mm".spec_bytes() || s == "moving".spec_bytes() {
        Some(MoodReportType::MovingMonthly)
    } else if s == "w".spec_bytes() || s == "weekly".spec_bytes() {
        Some(MoodReportType::WeeklyIterative)
    } else if s == "7d".spec_bytes() || s == "7 days".spec_bytes() {
        Some(MoodReportType::SevenDaysIterative)
    } else if s == "30d".spec_bytes() || s == "30 days".spec_bytes() {
        Some(MoodReportType::ThirtyDaysIterative)
    } else {
        None
    }
}

/// What `add` makes of its arguments: a score, then tags up to an optional
/// comment marker, then the comment words joined with spaces.
pub open spec fn add_command_built(
    rest: Seq<Seq<u8>>,
    path: Seq<u8>,
    r: Result<CliCommand, CliError>,
) -> bool {
    if rest.len() == 0 {
        r == Err::<CliCommand, CliError>(CliError::AddCommandArgsMissingDailyScore)
    } else if !valid_i8_field(rest[0]) {
        match r {
            Err(CliError::AddCommandArgsInvalidDailyScore { score_string }) => score_string@
                == rest[0],
            _ => false,
        }
    } else {
        let m = marker_scan(rest, 1, |s: Seq<u8>| comment_marker(s));
        let joined = if m < rest.len() {
            join_spaces(rest.subrange(m + 1, rest.len() as int))
        } else {
            Seq::<u8>::empty()
        };
        match r {
            Ok(CliCommand::Add(ac)) => {
                &&& ac.score as int == i8_field_val(rest[0])
                &&& ac.datetime is None
                &&& ac.tags.deep_view() == dedup(rest.subrange(1, m))
                &&& if joined.len() == 0 {
                    ac.comment is None
                } else {
                    match ac.comment {
                        Some(c) => c@ == joined,
                        None => false,
                    }
                }
                &&& ac.global_config.journal_file_path@ == path
            },
            _ => false,
        }
    }
}

/// What `mood` makes of its arguments: tags up to an optional type marker,
/// then a report type (the 30-day sum when none is named).
pub open spec fn mood_command_built(
    rest: Seq<Seq<u8>>,
    path: Seq<u8>,
    r: Result<CliCommand, CliError>,
) -> bool {
    let m = marker_scan(rest, 0, |s: Seq<u8>| type_marker(s));
    let rt = if m + 1 < rest.len() {
        report_type_of(rest[m + 1])
    } else {
        Some(MoodReportType::Monthly)
    };
    match rt {
        Some(report_type) => match r {
            Ok(CliCommand::Mood(mc)) => {
                &&& mc.report_type == report_type
                &&& mc.tags.deep_view() == dedup(rest.subrange(0, m))
                &&& mc.global_config.journal_file_path@ == path
            },
            _ => false,
        },
        None => match r {
            Err(CliError::MoodReportTypeInvalid(t)) => t@ == rest[m + 1],
            _ => false,
        },
    }
}

/// What `export` makes of its arguments: an output path (with a default)
/// and the one supported format.
pub open spec fn export_command_built(
    rest: Seq<Seq<u8>>,
    path: Seq<u8>,
    r: Result<CliCommand, CliError>,
) -> bool {
    match r {
        Ok(CliCommand::Export(ec)) => {
            &&& ec.export_type == ExportType::Xlsx
            &&& ec.file_path@ == (if rest.len() >= 1 {
                rest[0]
            } else {
                "./howdy_journal.xlsx".spec_bytes()
            })
            &&& ec.global_config.journal_file_path@ == path
        },
        _ => false,
    }
}

/// What `run` makes of a whole argument vector (the first element is the
/// executable name): an optional `-f <path>` pair, then a command word,
/// then that command's own arguments.
pub open spec fn command_built(a: Seq<Seq<u8>>, r: Result<CliCommand, CliError>) -> bool {
    if a.len() <= 1 {
        r == Err::<CliCommand, CliError>(CliError::CommandNotProvided)
    } else {
        let has_f = a[1] == "-f".spec_bytes();
        if has_f && a.len() == 2 {
            r == Err::<CliCommand, CliError>(CliError::FilenameNotProvided)
        } else if has_f && a.len() == 3 {
            r == Err::<CliCommand, CliError>(CliError::CommandNotProvided)
        } else {
            let ci = if has_f {
                3int
            } else {
                1int
            };
            let path = if has_f {
                a[2]
            } else {
                "./howdy.journal".spec_bytes()
            };
            let cmd = a[ci];
            let rest = a.subrange(ci + 1, a.len() as int);
            if cmd == "add".spec_bytes() {
                add_command_built(rest, path, r)
            } else if cmd == "mood".spec_bytes() {
                mood_command_built(rest, path, r)
            } else if cmd == "export".spec_bytes() {
                export_command_built(rest, path, r)
            } else {
                match r {
                    Err(CliError::CommandNotRecognized(c)) => c@ == cmd,
                    _ => false,
                }
            }
        }
    }
}

/// Find the first `add` comment marker at or after `from`.
fn find_comment_marker(args: &Vec<Vec<u8>>, from: usize) -> (r: usize)
    requires
        from <= args@.len(),
    ensures
        r == marker_scan(args.deep_view(), from as int, |s: Seq<u8>| comment_marker(s)),
        from <= r <= args@.len(),
{
    let ghost dv = args.deep_view();
    let ghost f = (|s: Seq<u8>| comment_marker(s));
    let mut p: usize = from;
    while p < args.len()
        invariant
            from <= p <= dv.len(),
            dv == args.deep_view(),
            dv.len() == args@.len(),
            marker_scan(dv, from as int, f) == marker_scan(dv, p as int, f),
            f == (|s: Seq<u8>| comment_marker(s)),
        decreases dv.len() - p,
    {
        proof {
            assert(dv[p as int] =~= args@[p as int]@);
        }
        if bytes_eq_exec(args[p].as_slice(), "--comment".as_bytes()) || bytes_eq_exec(
            args[p].as_slice(),
            "-c".as_bytes(),
        ) {
            proof {
                assert(comment_marker(dv[p as int]));
                assert(marker_scan(dv, p as int, f) == p);
            }
            return p;
        }
        proof {
            assert(!comment_marker(dv[p as int]));
        }
        p = p + 1;
    }
    proof {
        assert(marker_scan(dv, p as int, f) == dv.len());
    }
    p
}

/// Find the first `mood` type marker at or after `from`.
fn find_type_marker(args: &Vec<Vec<u8>>, from: usize) -> (r: usize)
    requires
        from <= args@.len(),
    ensures
        r == marker_scan(args.deep_view(), from as int, |s: Seq<u8>| type_marker(s)),
        from <= r <= args@.len(),
{
    let ghost dv = args.deep_view();
    let ghost f = (|s: Seq<u8>| type_marker(s));
    let mut p: usize = from;
    while p < args.len()
        invariant
            from <= p <= dv.len(),
            dv == args.deep_view(),
            dv.len() == args@.len(),
            marker_scan(dv, from as int, f) == marker_scan(dv, p as int, f),
            f == (|s: Seq<u8>| type_marker(s)),
        decreases dv.len() - p,
    {
        proof {
            assert(dv[p as int] =~= args@[p as int]@);
        }
        if bytes_eq_exec(args[p].as_slice(), "--type".as_bytes()) || bytes_eq_exec(
            args[p].as_slice(),
            "-t".as_bytes(),
        ) {
            proof {
                assert(type_marker(dv[p as int]));
                assert(marker_scan(dv, p as int, f) == p);
            }
            return p;
        }
        proof {
            assert(!type_marker(dv[p as int]));
        }
        p = p + 1;
    }
    proof {
        assert(marker_scan(dv, p as int, f) == dv.len());
    }
    p
}

/// Scanning for a marker in a tail subrange matches scanning in the whole
/// vector.
proof fn lemma_marker_scan_shift(dv: Seq<Seq<u8>>, from: int, at: int, f: spec_fn(Seq<u8>) -> bool)
    requires
        0 <= from <= at <= dv.len(),
    ensures
        marker_scan(dv.subrange(from, dv.len() as int), at - from, f) == marker_scan(dv, at, f)
            - from,
    decreases dv.len() - at,
{
    let rest = dv.subrange(from, dv.len() as int);
    if at >= dv.len() {
    } else if f(dv[at]) {
        assert(rest[at - from] == dv[at]);
    } else {
        assert(rest[at - from] == dv[at]);
        lemma_marker_scan_shift(dv, from, at + 1, f);
    }
}

/// Parse the arguments of `add` (everything after the command word).
pub fn build_add_command(args: &Vec<Vec<u8>>, from: usize, global_config: GlobalConfig) -> (r:
    Result<CliCommand, CliError>)
    requires
        from <= args@.len(),
    ensures
        add_command_built(
            args.deep_view().subrange(from as int, args.deep_view().len() as int),
            global_config.journal_file_path@,
            r,
        ),
{
    let ghost dv = args.deep_view();
    let ghost rest = dv.subrange(from as int, dv.len() as int);
    if from >= args.len() {
        return Err(CliError::AddCommandArgsMissingDailyScore);
    }
    proof {
        assert(rest[0] =~= args@[from as int]@);
    }
    let score = match crate::daily_score::parse_i8_field(args[from].as_slice()) {
        None => {
            return Err(
                CliError::AddCommandArgsInvalidDailyScore {
                    score_string: vstd::slice::slice_to_vec(args[from].as_slice()),
                },
            );
        },
        Some(v) => v,
    };
    let ghost f = (|s: Seq<u8>| comment_marker(s));
    let m = find_comment_marker(args, from + 1);
    proof {
        lemma_marker_scan_shift(dv, from as int, from + 1, f);
        assert(marker_scan(rest, 1, f) == m - from);
    }
    let mut tag_prefix: Vec<Vec<u8>> = Vec::new();
    let mut k: usize = from + 1;
    proof {
        assert(tag_prefix.deep_view() =~= dv.subrange(from + 1, from + 1));
    }
    while k < m
        invariant
            from + 1 <= k <= m,
            m <= dv.len(),
            dv == args.deep_view(),
            dv.len() == args@.len(),
            tag_prefix.deep_view() == dv.subrange(from + 1, k as int),
        decreases m - k,
    {
        proof {
            assert(tag_prefix.deep_view().len() == tag_prefix@.len());
            assert(tag_prefix@.len() == k - (from + 1));
        }
        let ghost prev = tag_prefix@;
        let ghost prev_dv = tag_prefix.deep_view();
        let x = vstd::slice::slice_to_vec(args[k].as_slice());
        proof {
            assert(x.deep_view() =~= x@);
            assert(args@[k as int]@ =~= dv[k as int]);
            assert(x.deep_view() == dv[k as int]);
        }
        tag_prefix.push(x);
        proof {
            assert(tag_prefix@ == prev.push(x));
            assert(tag_prefix.deep_view() =~~= dv.subrange(from + 1, k + 1)) by {
                assert forall|j: int| 0 <= j < tag_prefix@.len() implies tag_prefix.deep_view()[j]
                    == dv.subrange(from + 1, k + 1)[j] by {
                    if j < prev.len() {
                        assert(tag_prefix@[j] == prev[j]);
                        assert(tag_prefix.deep_view()[j] == prev_dv[j]);
                    } else {
                        assert(tag_prefix@[j] == x);
                    }
                }
            }
        }
        k = k + 1;
    }
    let tags = dedup_exec(&tag_prefix);
    proof {
        assert(dv.subrange(from + 1, m as int) =~= rest.subrange(1, m - from));
    }
    let comment: Option<Vec<u8>> = if m < args.len() {
        let joined = join_spaces_range_exec(args, m + 1);
        proof {
            assert(dv.subrange(m + 1, dv.len() as int) =~= rest.subrange(
                m - from + 1,
                rest.len() as int,
            ));
        }
        if joined.len() == 0 {
            None
        } else {
            Some(joined)
        }
    } else {
        None
    };
    Ok(CliCommand::Add(AddCommand { score, datetime: None, tags, comment, global_config }))
}

/// Parse the arguments of `mood` (everything after the command word).
pub fn build_mood_command(args: &Vec<Vec<u8>>, from: usize, global_config: GlobalConfig) -> (r:
    Result<CliCommand, CliError>)
    requires
        from <= args@.len(),
    ensures
        mood_command_built(
            args.deep_view().subrange(from as int, args.deep_view().len() as int),
            global_config.journal_file_path@,
            r,
        ),
{
    let ghost dv = args.deep_view();
    let ghost rest = dv.subrange(from as int, dv.len() as int);
    let ghost f = (|s: Seq<u8>| type_marker(s));
    let m = find_type_marker(args, from);
    proof {
        lemma_marker_scan_shift(dv, from as int, from as int, f);
        assert(marker_scan(rest, 0, f) == m - from);
    }
    let mut tag_prefix: Vec<Vec<u8>> = Vec::new();
    let mut k: usize = from;
    proof {
        assert(tag_prefix.deep_view() =~= dv.subrange(from as int, from as int));
    }
    while k < m
        invariant
            from <= k <= m,
            m <= dv.len(),
            dv == args.deep_view(),
            dv.len() == args@.len(),
            tag_prefix.deep_view() == dv.subrange(from as int, k as int),
        decreases m - k,
    {
        proof {
            assert(tag_prefix.deep_view().len() == tag_prefix@.len());
            assert(tag_prefix@.len() == k - (from as int));
        }
        let ghost prev = tag_prefix@;
        let ghost prev_dv = tag_prefix.deep_view();
        let x = vstd::slice::slice_to_vec(args[k].as_slice());
        proof {
            assert(x.deep_view() =~= x@);
            assert(args@[k as int]@ =~= dv[k as int]);
            assert(x.deep_view() == dv[k as int]);
        }
        tag_prefix.push(x);
        proof {
            assert(tag_prefix@ == prev.push(x));
            assert(tag_prefix.deep_view() =~~= dv.subrange(from as int, k + 1)) by {
                assert forall|j: int| 0 <= j < tag_prefix@.len() implies tag_prefix.deep_view()[j]
                    == dv.subrange(from as int, k + 1)[j] by {
                    if j < prev.len() {
                        assert(tag_prefix@[j] == prev[j]);
                        assert(tag_prefix.deep_view()[j] == prev_dv[j]);
                    } else {
                        assert(tag_prefix@[j] == x);
                    }
                }
            }
        }
        k = k + 1;
    }
    let tags = dedup_exec(&tag_prefix);
    proof {
        assert(dv.subrange(from as int, m as int) =~= rest.subrange(0, m - from));
    }
    let report_type: MoodReportType = if m < args.len() && m + 1 < args.len() {
        proof {
            assert(rest[m - from + 1] =~= args@[m + 1]@);
        }
        let t = &args[m + 1];
        if bytes_eq_exec(t.as_slice(), "m".as_bytes()) || bytes_eq_exec(
            t.as_slice(),
            "monthly".as_bytes(),
        ) {
            MoodReportType::MonthlyIterative
        } else if bytes_eq_exec(t.as_slice(), "lm".as_bytes()) || bytes_eq_exec(
            t.as_slice(),
            "last month".as_bytes(),
        ) {
            MoodReportType::Monthly
        } else if bytes_eq_exec(t.as_slice(), "ly".as_bytes()) || bytes_eq_exec(
            t.as_slice(),
            "last year".as_bytes(),
        ) {
            MoodReportType::Yearly
        } else if bytes_eq_exec(t.as_slice(), "mm".as_bytes()) || bytes_eq_exec(
            t.as_slice(),
            "moving".as_bytes(),
        ) {
            MoodReportType::MovingMonthly
        } else if bytes_eq_exec(t.as_slice(), "w".as_bytes()) || bytes_eq_exec(
            t.as_slice(),
            "weekly".as_bytes(),
        ) {
            MoodReportType::WeeklyIterative
        } else if bytes_eq_exec(t.as_slice(), "7d".as_bytes()) || bytes_eq_exec(
            t.as_slice(),
            "7 days".as_bytes(),
        ) {
            MoodReportType::SevenDaysIterative
        } else if bytes_eq_exec(t.as_slice(), "30d".as_bytes()) || bytes_eq_exec(
            t.as_slice(),
            "30 days".as_bytes(),
        ) {
            MoodReportType::ThirtyDaysIterative
        } else {
            return Err(CliError::MoodReportTypeInvalid(vstd::slice::slice_to_vec(t.as_slice())));
        }
    } else {
        MoodReportType::Monthly
    };
    Ok(CliCommand::Mood(MoodCommand { global_config, report_type, tags }))
}

/// Parse the arguments of `export` (everything after the command word).
pub fn build_export_command(args: &Vec<Vec<u8>>, from: usize, global_config: GlobalConfig) -> (r:
    Result<CliCommand, CliError>)
    requires
        from <= args@.len(),
    ensures
        export_command_built(
            args.deep_view().subrange(from as int, args.deep_view().len() as int),
            global_config.journal_file_path@,
            r,
        ),
{
    let file_path: Vec<u8> = if from < args.len() {
        proof {
            assert(args.deep_view()[from as int] =~= args@[from as int]@);
        }
        vstd::slice::slice_to_vec(args[from].as_slice())
    } else {
        vstd::slice::slice_to_vec("./howdy_journal.xlsx".as_bytes())
    };
    Ok(
        CliCommand::Export(
            ExportCommand { global_config, export_type: ExportType::Xlsx, file_path },
        ),
    )
}

/// Parse a full command line (the first argument is the executable name)
/// into the command it selects, or the error that explains why none could
/// be selected.
pub fn run(cli_args: Vec<Vec<u8>>) -> (r: Result<CliCommand, CliError>)
    ensures
        command_built(cli_args.deep_view(), r),
{
    let ghost a = cli_args.deep_view();
    if cli_args.len() <= 1 {
        return Err(CliError::CommandNotProvided);
    }
    proof {
        assert(a[1] =~= cli_args@[1]@);
    }
    let has_f = bytes_eq_exec(cli_args[1].as_slice(), "-f".as_bytes());
    let mut journal_file_path: Vec<u8> = vstd::slice::slice_to_vec("./howdy.journal".as_bytes());
    let mut ci: usize = 1;
    if has_f {
        if cli_args.len() == 2 {
            return Err(CliError::FilenameNotProvided);
        }
        if cli_args.len() == 3 {
            return Err(CliError::CommandNotProvided);
        }
        proof {
            assert(a[2] =~= cli_args@[2]@);
        }
        journal_file_path = vstd::slice::slice_to_vec(cli_args[2].as_slice());
        ci = 3;
    }
    let global_config = GlobalConfig { journal_file_path };
    proof {
        assert(a[ci as int] =~= cli_args@[ci as int]@);
    }
    let cmd = &cli_args[ci];
    if bytes_eq_exec(cmd.as_slice(), "add".as_bytes()) {
        build_add_command(&cli_args, ci + 1, global_config)
    } else if bytes_eq_exec(cmd.as_slice(), "mood".as_bytes()) {
        build_mood_command(&cli_args, ci + 1, global_config)
    } else if bytes_eq_exec(cmd.as_slice(), "export".as_bytes()) {
        build_export_command(&cli_args, ci + 1, global_config)
    } else {
        Err(CliError::CommandNotRecognized(vstd::slice::slice_to_vec(cmd.as_slice())))
    }
}

} // verus!
