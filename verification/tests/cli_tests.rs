use howdy::run;
use howdy::CliCommand;
use howdy::CliError;
use howdy::ExportType;
use howdy::MoodReportType;

fn build_cli_args(line: &str) -> Vec<Vec<u8>> {
    line.split(' ').map(|w| w.as_bytes().to_vec()).collect()
}

#[test]
fn no_command_error() {
    let args = Vec::new();
    let result_err = run(args).err().unwrap();

    assert!(matches!(result_err, CliError::CommandNotProvided));
    assert_eq!(String::from_utf8(result_err.message()).unwrap(), "command is not provided");
}

#[test]
fn no_file_path_error() {
    let args = build_cli_args("exec/path -f");
    let result_err = run(args).err().unwrap();

    assert!(matches!(result_err, CliError::FilenameNotProvided));
    assert_eq!(
        String::from_utf8(result_err.message()).unwrap(),
        "'-f' option requires file path which is not provided"
    );
}

#[test]
fn wrong_command_error() {
    let args = build_cli_args("exec/path foo");
    let result_err = run(args).err().unwrap();

    assert!(matches!(result_err, CliError::CommandNotRecognized(_)));
    assert_eq!(
        String::from_utf8(result_err.message()).unwrap(),
        "command 'foo' is not recognized"
    );
}

#[test]
fn no_add_args_error() {
    let args = build_cli_args("exec/path add");
    let result_err = run(args).err().unwrap();

    assert!(matches!(result_err, CliError::AddCommandArgsMissingDailyScore));
    assert_eq!(
        String::from_utf8(result_err.message()).unwrap(),
        "daily score is not provided for add command"
    );
}

#[test]
fn small_add_score_error() {
    let args = build_cli_args("exec/path add -250");
    let result_err = run(args).err().unwrap();

    assert!(matches!(result_err, CliError::AddCommandArgsInvalidDailyScore { .. }));
    assert_eq!(
        String::from_utf8(result_err.message()).unwrap(),
        "cannot parse daily score '-250' as int for add command"
    );
}

#[test]
fn wrong_mood_report_type_error() {
    let args = build_cli_args("exec/path mood -t mmm");
    let result_err = run(args).err().unwrap();

    assert!(matches!(result_err, CliError::MoodReportTypeInvalid(_)));
    assert_eq!(
        String::from_utf8(result_err.message()).unwrap(),
        "'mmm' is not a valid mood report type"
    );
}

#[test]
fn add_command_parsing() {
    let args = build_cli_args("exec/path add 3 tag otherTag tag --comment some comment words");
    let command = run(args).unwrap();
    match command {
        CliCommand::Add(ac) => {
            assert_eq!(ac.score, 3);
            assert!(ac.datetime.is_none());
            assert_eq!(ac.tags, vec![b"tag".to_vec(), b"otherTag".to_vec()]);
            assert_eq!(ac.comment, Some(b"some comment words".to_vec()));
            assert_eq!(
                String::from_utf8(ac.global_config.journal_file_path).unwrap(),
                "./howdy.journal"
            );
        },
        _ => panic!("expected an add command"),
    }
}

#[test]
fn add_command_without_comment() {
    let args = build_cli_args("exec/path add -7 tag");
    let command = run(args).unwrap();
    match command {
        CliCommand::Add(ac) => {
            assert_eq!(ac.score, -7);
            assert_eq!(ac.tags, vec![b"tag".to_vec()]);
            assert_eq!(ac.comment, None);
        },
        _ => panic!("expected an add command"),
    }
}

#[test]
fn mood_command_parsing_with_type() {
    let args = build_cli_args("exec/path mood tag --type w");
    let command = run(args).unwrap();
    match command {
        CliCommand::Mood(mc) => {
            assert_eq!(mc.report_type, MoodReportType::WeeklyIterative);
            assert_eq!(mc.tags, vec![b"tag".to_vec()]);
        },
        _ => panic!("expected a mood command"),
    }
}

#[test]
fn mood_command_default_type() {
    let args = build_cli_args("exec/path mood");
    let command = run(args).unwrap();
    match command {
        CliCommand::Mood(mc) => {
            assert_eq!(mc.report_type, MoodReportType::Monthly);
            assert_eq!(mc.tags, Vec::<Vec<u8>>::new());
        },
        _ => panic!("expected a mood command"),
    }
}

#[test]
fn export_command_parsing() {
    let args = build_cli_args("exec/path export out.xlsx");
    let command = run(args).unwrap();
    match command {
        CliCommand::Export(ec) => {
            assert_eq!(ec.export_type, ExportType::Xlsx);
            assert_eq!(String::from_utf8(ec.file_path).unwrap(), "out.xlsx");
        },
        _ => panic!("expected an export command"),
    }
}

#[test]
fn export_command_default_path() {
    let args = build_cli_args("exec/path export");
    let command = run(args).unwrap();
    match command {
        CliCommand::Export(ec) => {
            assert_eq!(String::from_utf8(ec.file_path).unwrap(), "./howdy_journal.xlsx");
        },
        _ => panic!("expected an export command"),
    }
}

#[test]
fn file_option_overrides_journal_path() {
    let args = build_cli_args("exec/path -f /tmp/my.journal mood");
    let command = run(args).unwrap();
    match command {
        CliCommand::Mood(mc) => {
            assert_eq!(
                String::from_utf8(mc.global_config.journal_file_path).unwrap(),
                "/tmp/my.journal"
            );
        },
        _ => panic!("expected a mood command"),
    }
}

#[test]
fn is_plottable_by_report_type() {
    assert!(MoodReportType::WeeklyIterative.is_plottable());
    assert!(MoodReportType::SevenDaysIterative.is_plottable());
    assert!(MoodReportType::MonthlyIterative.is_plottable());
    assert!(MoodReportType::ThirtyDaysIterative.is_plottable());
    assert!(MoodReportType::MovingMonthly.is_plottable());
    assert!(!MoodReportType::Monthly.is_plottable());
    assert!(!MoodReportType::Yearly.is_plottable());
}

#[test]
fn execution_error_message() {
    assert_eq!(
        String::from_utf8(CliError::CommandExecutionError.message()).unwrap(),
        "failed to execute command"
    );
}
