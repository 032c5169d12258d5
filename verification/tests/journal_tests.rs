use howdy::parse_lines;
use howdy::JournalError;
use howdy::ParseError;

#[test]
fn journal_errors_display() {
    let file_path = b"path/to/file".to_vec();
    let line = b"foo bar baz".to_vec();
    let daily_score_parse_error = ParseError::MissingDateTime;

    assert_eq!(
        String::from_utf8(JournalError::CannotOpenFile { file_path: file_path.clone() }.message())
            .unwrap(),
        "cannot open journal file 'path/to/file'"
    );
    assert_eq!(
        String::from_utf8(JournalError::CannotReadLine { file_path }.message()).unwrap(),
        "cannot read line from journal file 'path/to/file'"
    );
    assert_eq!(
        String::from_utf8(
            JournalError::DailyScoreParseError { line, daily_score_parse_error }.message()
        )
        .unwrap(),
        "cannot parse daily score data 'foo bar baz'"
    );
}

#[test]
fn parse_lines_collects_entries_in_order() {
    let lines = vec![
        b"2020-02-01 09:10:11 +0200 | 1 | a,b | first".to_vec(),
        b"2020-02-02 10:00:00 +0200 | -3 |  |".to_vec(),
    ];
    let records = parse_lines(&lines).unwrap();
    assert_eq!(records.len(), 2);
    assert_eq!(records[0].score, 1);
    assert_eq!(records[0].comment, Some(b"first".to_vec()));
    assert_eq!(records[1].score, -3);
    assert_eq!(records[1].datetime.day, 2);
}

#[test]
fn parse_lines_stops_at_first_bad_line() {
    let lines = vec![
        b"2020-02-01 09:10:11 +0200 | 1 |  |".to_vec(),
        b"foo bar baz".to_vec(),
        b"2020-02-03 09:10:11 +0200 | 2 |  |".to_vec(),
    ];
    let err = parse_lines(&lines).err().unwrap();
    match err {
        JournalError::DailyScoreParseError { line, daily_score_parse_error } => {
            assert_eq!(line, b"foo bar baz".to_vec());
            assert_eq!(
                daily_score_parse_error,
                ParseError::InvalidDateTime(b"foo bar baz".to_vec())
            );
        },
        _ => panic!("expected a parse error"),
    }
}
