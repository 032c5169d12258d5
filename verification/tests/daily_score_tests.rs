use howdy::CivilDateTime;
use howdy::DailyScore;
use howdy::ParseError;

fn dt(
    year: u16,
    month: u8,
    day: u8,
    hour: u8,
    minute: u8,
    second: u8,
    offset_seconds: i32,
) -> CivilDateTime {
    CivilDateTime { year, month, day, hour, minute, second, offset_seconds }
}

#[test]
fn tags_formatting() {
    let local_date = dt(2020, 1, 1, 9, 10, 11, 4 * 3600);
    let score1 = DailyScore {
        score: 1,
        comment: Some(b"foo || bar".to_vec()),
        tags: vec![b"run".to_vec(), b"games".to_vec()],
        datetime: local_date,
    };

    let score2 = DailyScore { score: 1, comment: None, tags: Vec::new(), datetime: local_date };

    let score3 =
        DailyScore { score: 1, comment: None, tags: vec![b"run".to_vec()], datetime: local_date };

    assert_eq!(score1.tags_string(), b"games,run".to_vec());
    assert_eq!(score2.tags_string(), b"".to_vec());
    assert_eq!(score3.tags_string(), b"run".to_vec());
}

#[test]
fn string_formatting() {
    let local_date = dt(2020, 1, 1, 9, 10, 11, 4 * 3600);
    let score = DailyScore {
        score: 1,
        comment: Some(b"foo || bar".to_vec()),
        tags: vec![b"run".to_vec(), b"games".to_vec()],
        datetime: local_date,
    };

    assert_eq!(score.to_s(), b"2020-01-01 09:10:11 +0400 | 1 | games,run | foo || bar".to_vec());
}

#[test]
fn string_parsing() {
    let daily_score_string = b"2020-02-01 09:10:11 +0200 | 1 |  | foo || bar";
    let daily_score_parse_result = DailyScore::parse(daily_score_string);

    assert!(daily_score_parse_result.is_ok());

    let daily_score = daily_score_parse_result.unwrap();
    assert_eq!(daily_score.score, 1);
    assert_eq!(daily_score.comment, Some(b"foo || bar".to_vec()));
    assert_eq!(daily_score.tags, Vec::<Vec<u8>>::new());
    assert_eq!(daily_score.datetime, dt(2020, 2, 1, 9, 10, 11, 2 * 3600));
    // The same instant, written in UTC.
    assert_eq!(daily_score.datetime.timestamp(), dt(2020, 2, 1, 7, 10, 11, 0).timestamp());

    let daily_score_no_comment_string = b"2020-02-01 09:10:11 +0200 | 1 | foo |";
    let daily_score_no_comment_parse_result = DailyScore::parse(daily_score_no_comment_string);

    assert!(daily_score_no_comment_parse_result.is_ok());

    let daily_score = daily_score_no_comment_parse_result.unwrap();
    assert_eq!(daily_score.comment, Some(b"".to_vec()));
    assert_eq!(daily_score.tags.len(), 1);
    assert!(daily_score.tags.contains(&b"foo".to_vec()));
}

#[test]
fn invalid_string_parsing() {
    assert_eq!(DailyScore::parse(b"").err().unwrap(), ParseError::InvalidDateTime(b"".to_vec()));
    assert_eq!(
        DailyScore::parse(b"fooo").err().unwrap(),
        ParseError::InvalidDateTime(b"fooo".to_vec())
    );

    assert_eq!(
        DailyScore::parse(b"foo|").err().unwrap(),
        ParseError::InvalidDateTime(b"foo|".to_vec())
    );

    assert_eq!(
        DailyScore::parse(b"2020-02-01 09:10:11 +0000|").err().unwrap(),
        ParseError::InvalidDateTime(b"2020-02-01 09:10:11 +0000|".to_vec())
    );

    assert_eq!(
        DailyScore::parse(b"2020-02-01 09:10:11 +0000").err().unwrap(),
        ParseError::MissingScore
    );
    assert_eq!(
        DailyScore::parse(b"2020-02-01 09:10:11 +0000 | ").err().unwrap(),
        ParseError::InvalidScore(b"".to_vec())
    );

    assert_eq!(
        DailyScore::parse(b"2020-02-01 09:10:11 +0000 | foo").err().unwrap(),
        ParseError::InvalidScore(b"foo".to_vec())
    );

    assert_eq!(
        DailyScore::parse(b"2020-02-01 09:10:11 +0000 | 4|").err().unwrap(),
        ParseError::InvalidScore(b"4|".to_vec())
    );
}

#[test]
fn new_defaults() {
    let daily_score = DailyScore::new(dt(2021, 7, 15, 12, 0, 0, 0));

    assert_eq!(daily_score.score, 0);
    assert_eq!(daily_score.tags, Vec::<Vec<u8>>::new());
    assert_eq!(daily_score.comment, None);
}

#[test]
fn new_with_score() {
    let daily_score = DailyScore::with_score(5, dt(2021, 7, 15, 12, 0, 0, 0));

    assert_eq!(daily_score.score, 5);
    assert_eq!(daily_score.tags, Vec::<Vec<u8>>::new());
    assert_eq!(daily_score.comment, None);
}

#[test]
fn daily_score_errors_display() {
    assert_eq!(
        String::from_utf8(ParseError::MissingDateTime.message()).unwrap(),
        "datetime is missing"
    );
    assert_eq!(
        String::from_utf8(ParseError::InvalidDateTime(b"foo bar".to_vec()).message()).unwrap(),
        "'foo bar' is not a valid datetime"
    );
    assert_eq!(String::from_utf8(ParseError::MissingScore.message()).unwrap(), "missing score");
    assert_eq!(
        String::from_utf8(ParseError::InvalidScore(b"foo".to_vec()).message()).unwrap(),
        "'foo' is not a valid score"
    );
}

#[test]
fn round_trip_with_tags_and_comment() {
    let entry = DailyScore {
        score: -27,
        comment: Some(b"kept | verbatim, spaces   too".to_vec()),
        tags: vec![b"zebra".to_vec(), b"alpha".to_vec(), b"mid tag".to_vec()],
        datetime: dt(1999, 12, 31, 23, 59, 59, -4 * 3600 - 30 * 60),
    };
    let line = entry.to_s();
    assert_eq!(
        line,
        b"1999-12-31 23:59:59 -0430 | -27 | alpha,mid tag,zebra | kept | verbatim, spaces   too"
            .to_vec()
    );
    let decoded = DailyScore::parse(&line).unwrap();
    assert_eq!(decoded.score, entry.score);
    assert_eq!(decoded.comment, entry.comment);
    assert_eq!(decoded.datetime, entry.datetime);
    let mut decoded_tags = decoded.tags.clone();
    decoded_tags.sort();
    let mut entry_tags = entry.tags.clone();
    entry_tags.sort();
    assert_eq!(decoded_tags, entry_tags);
}

#[test]
fn round_trip_without_comment_yields_empty_comment() {
    let entry = DailyScore {
        score: 0,
        comment: None,
        tags: Vec::new(),
        datetime: dt(2021, 7, 15, 12, 0, 0, 0),
    };
    let line = entry.to_s();
    assert_eq!(line, b"2021-07-15 12:00:00 +0000 | 0 |  |".to_vec());
    let decoded = DailyScore::parse(&line).unwrap();
    assert_eq!(decoded.comment, Some(b"".to_vec()));
    assert_eq!(decoded.score, 0);
    assert_eq!(decoded.datetime, entry.datetime);
    assert_eq!(decoded.tags, Vec::<Vec<u8>>::new());
}

#[test]
fn leap_day_parsing() {
    assert!(DailyScore::parse(b"2020-02-29 00:00:00 +0000 | 1 |  |").is_ok());
    assert_eq!(
        DailyScore::parse(b"2021-02-29 00:00:00 +0000 | 1 |  |").err().unwrap(),
        ParseError::InvalidDateTime(b"2021-02-29 00:00:00 +0000".to_vec())
    );
    assert_eq!(
        DailyScore::parse(b"2021-04-31 00:00:00 +0000 | 1 |  |").err().unwrap(),
        ParseError::InvalidDateTime(b"2021-04-31 00:00:00 +0000".to_vec())
    );
}

#[test]
fn score_range_parsing() {
    assert_eq!(DailyScore::parse(b"2020-02-01 09:10:11 +0000 | -128 |  |").unwrap().score, -128);
    assert_eq!(DailyScore::parse(b"2020-02-01 09:10:11 +0000 | 127 |  |").unwrap().score, 127);
    assert_eq!(DailyScore::parse(b"2020-02-01 09:10:11 +0000 | +0012 |  |").unwrap().score, 12);
    assert_eq!(
        DailyScore::parse(b"2020-02-01 09:10:11 +0000 | 128 |  |").err().unwrap(),
        ParseError::InvalidScore(b"128".to_vec())
    );
    assert_eq!(
        DailyScore::parse(b"2020-02-01 09:10:11 +0000 | -129 |  |").err().unwrap(),
        ParseError::InvalidScore(b"-129".to_vec())
    );
}

#[test]
fn duplicate_tags_collapse_on_parse() {
    let decoded = DailyScore::parse(b"2020-02-01 09:10:11 +0000 | 1 | b,a,b,a |").unwrap();
    assert_eq!(decoded.tags, vec![b"b".to_vec(), b"a".to_vec()]);
}

#[test]
fn timestamp_values() {
    assert_eq!(dt(1970, 1, 1, 0, 0, 0, 0).timestamp(), 0);
    assert_eq!(dt(2020, 2, 1, 9, 10, 11, 7200).timestamp(), 1580541011);
    assert_eq!(dt(1969, 12, 31, 23, 59, 59, 0).timestamp(), -1);
}

#[test]
fn civil_datetime_validation() {
    assert!(CivilDateTime::new(2021, 7, 15, 12, 0, 0, 0).is_some());
    assert!(CivilDateTime::new(2021, 13, 15, 12, 0, 0, 0).is_none());
    assert!(CivilDateTime::new(2021, 7, 15, 24, 0, 0, 0).is_none());
    assert!(CivilDateTime::new(2021, 7, 15, 12, 0, 0, 30).is_none());
    assert!(CivilDateTime::new(2021, 7, 15, 12, 0, 0, 86400).is_none());
    assert!(CivilDateTime::new(2020, 2, 29, 0, 0, 0, 0).is_some());
    assert!(CivilDateTime::new(2021, 2, 29, 0, 0, 0, 0).is_none());
}
