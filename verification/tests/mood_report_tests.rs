use howdy::CivilDateTime;
use howdy::DailyScore;
use howdy::MoodReport;

// A fixed "now" for every aggregate: Thursday 2021-07-15 12:00:00 UTC.
fn now_fixed() -> CivilDateTime {
    CivilDateTime { year: 2021, month: 7, day: 15, hour: 12, minute: 0, second: 0, offset_seconds: 0 }
}

fn days_in_month(year: u16, month: u8) -> u8 {
    let leap = year % 4 == 0 && (year % 100 != 0 || year % 400 == 0);
    match month {
        2 => {
            if leap {
                29
            } else {
                28
            }
        },
        4 | 6 | 9 | 11 => 30,
        _ => 31,
    }
}

fn minus_days(mut dt: CivilDateTime, mut n: u32) -> CivilDateTime {
    while n > 0 {
        if dt.day > 1 {
            dt.day -= 1;
        } else if dt.month > 1 {
            dt.month -= 1;
            dt.day = days_in_month(dt.year, dt.month);
        } else {
            dt.year -= 1;
            dt.month = 12;
            dt.day = days_in_month(dt.year, dt.month);
        }
        n -= 1;
    }
    dt
}

fn minus_minutes(mut dt: CivilDateTime, n: u32) -> CivilDateTime {
    let mut total = dt.hour as u32 * 60 + dt.minute as u32;
    let mut days: u32 = 0;
    while total < n {
        total += 24 * 60;
        days += 1;
    }
    total -= n;
    dt.hour = (total / 60) as u8;
    dt.minute = (total % 60) as u8;
    minus_days(dt, days)
}

fn entry(score: i8, datetime: CivilDateTime) -> DailyScore {
    DailyScore { score, tags: Vec::new(), comment: None, datetime }
}

fn tagged_entry(score: i8, tags: Vec<Vec<u8>>, datetime: CivilDateTime) -> DailyScore {
    DailyScore { score, tags, comment: None, datetime }
}

fn midnight(year: u16, month: u8, day: u8) -> CivilDateTime {
    CivilDateTime { year, month, day, hour: 0, minute: 0, second: 0, offset_seconds: 0 }
}

#[test]
fn consumes_scores() {
    let scores = vec![DailyScore::new(now_fixed()), DailyScore::new(now_fixed())];
    let no_tags: Vec<Vec<u8>> = Vec::new();
    let mood_report = MoodReport { daily_scores: &scores, tags: &no_tags };

    assert_eq!(mood_report.len(), 2);
}

#[test]
fn iterative_weekly_mood() {
    // The most recent Monday before "now" is 2021-07-12.
    let last_monday = midnight(2021, 7, 12);
    let daily_score = DailyScore::with_score(-10, now_fixed());
    let last_week_daily_score = entry(2, minus_days(last_monday, 1));
    let another_last_week_daily_score = entry(3, minus_days(last_monday, 2));
    let old_daily_score = entry(4, minus_days(last_monday, 15));

    let scores =
        vec![another_last_week_daily_score, daily_score, old_daily_score, last_week_daily_score];
    let no_tags: Vec<Vec<u8>> = Vec::new();
    let mood_report = MoodReport { daily_scores: &scores, tags: &no_tags };

    let previous_monday = minus_days(last_monday, 7);
    let pre_previous_monday = minus_days(last_monday, 14);

    assert_eq!(
        mood_report.iterative_weekly_mood(now_fixed()),
        vec![
            (pre_previous_monday.timestamp(), 4),
            (previous_monday.timestamp(), 0),
            (last_monday.timestamp(), 5),
        ]
    );
}

#[test]
fn iterative_seven_days_mood() {
    let daily_score = DailyScore::with_score(-10, now_fixed());
    let last_week_daily_score = entry(2, minus_days(daily_score.datetime, 1));
    let another_last_week_daily_score = entry(3, minus_days(daily_score.datetime, 2));
    let old_daily_score = entry(4, minus_days(daily_score.datetime, 15));

    let scores =
        vec![another_last_week_daily_score, old_daily_score, last_week_daily_score, daily_score];
    let no_tags: Vec<Vec<u8>> = Vec::new();
    let mood_report = MoodReport { daily_scores: &scores, tags: &no_tags };

    assert_eq!(mood_report.iterative_seven_days_mood(now_fixed()).len(), 3);

    let week_seconds: i64 = 604800;
    let report_timestamp = mood_report.iterative_seven_days_mood(now_fixed())[2].0;
    let previous_period_end = report_timestamp - week_seconds;
    let pre_previous_period_end = report_timestamp - 2 * week_seconds;

    assert_eq!(
        mood_report.iterative_seven_days_mood(now_fixed()),
        vec![(pre_previous_period_end, 4), (previous_period_end, 0), (report_timestamp, -5)]
    );
}

#[test]
fn iterative_thirty_days_mood() {
    let daily_score = DailyScore::with_score(-10, now_fixed());
    let last_month_daily_score = entry(3, minus_days(daily_score.datetime, 20));
    let old_daily_score = entry(4, minus_days(daily_score.datetime, 61));

    let scores = vec![old_daily_score, last_month_daily_score, daily_score];
    let no_tags: Vec<Vec<u8>> = Vec::new();
    let mood_report = MoodReport { daily_scores: &scores, tags: &no_tags };

    assert_eq!(mood_report.iterative_thirty_days_mood(now_fixed()).len(), 3);

    let thirty_day_seconds: i64 = 2592000;
    let report_timestamp = mood_report.iterative_thirty_days_mood(now_fixed())[2].0;
    let previous_period_end = report_timestamp - thirty_day_seconds;
    let pre_previous_period_end = report_timestamp - 2 * thirty_day_seconds;

    assert_eq!(
        mood_report.iterative_thirty_days_mood(now_fixed()),
        vec![(pre_previous_period_end, 4), (previous_period_end, 0), (report_timestamp, -7)]
    );
}

#[test]
fn iterative_monthly_mood() {
    // The current month of "now" starts on 2021-07-01.
    let beginning_of_month = midnight(2021, 7, 1);
    let daily_score = DailyScore::with_score(-10, now_fixed());
    let last_month_daily_score = entry(2, minus_days(beginning_of_month, 1));
    let another_last_month_daily_score = entry(3, minus_days(beginning_of_month, 20));
    let old_daily_score = entry(4, minus_days(beginning_of_month, 35));

    let scores = vec![
        another_last_month_daily_score,
        old_daily_score,
        last_month_daily_score,
        daily_score,
    ];
    let no_tags: Vec<Vec<u8>> = Vec::new();
    let mood_report = MoodReport { daily_scores: &scores, tags: &no_tags };

    let beginning_of_previous_month = midnight(2021, 6, 1);
    assert_eq!(
        mood_report.iterative_monthly_mood(now_fixed()),
        vec![
            (beginning_of_previous_month.timestamp(), 4),
            (beginning_of_month.timestamp(), 5),
        ]
    );
}

#[test]
fn thirty_days_mood() {
    let daily_score = DailyScore::with_score(1, now_fixed());
    let another_daily_score = DailyScore::with_score(2, now_fixed());
    let old_daily_score = entry(5, minus_days(now_fixed(), 40));

    let scores = vec![daily_score, another_daily_score, old_daily_score];
    let no_tags: Vec<Vec<u8>> = Vec::new();
    let mood_report = MoodReport { daily_scores: &scores, tags: &no_tags };

    assert_eq!(mood_report.thirty_days_mood(now_fixed()), 3);
}

#[test]
fn thirty_days_mood_with_tags() {
    let tag: Vec<Vec<u8>> = vec![b"tag".to_vec()];
    let tag2: Vec<Vec<u8>> = vec![b"tag2".to_vec()];

    let daily_score = tagged_entry(1, tag2.clone(), now_fixed());
    let another_daily_score = tagged_entry(2, tag.clone(), minus_days(now_fixed(), 20));
    let old_daily_score = tagged_entry(5, tag.clone(), minus_days(now_fixed(), 40));

    let daily_scores = vec![daily_score, another_daily_score, old_daily_score];

    let tag_mood_report = MoodReport { daily_scores: &daily_scores, tags: &tag };

    let multitag: Vec<Vec<u8>> = vec![b"tag".to_vec(), b"tag2".to_vec()];
    let multitag_mood_report = MoodReport { daily_scores: &daily_scores, tags: &multitag };

    assert_eq!(tag_mood_report.thirty_days_mood(now_fixed()), 2);
    assert_eq!(multitag_mood_report.thirty_days_mood(now_fixed()), 0);
}

#[test]
fn thirty_days_moving_mood() {
    let today_daily_score = DailyScore::with_score(1, now_fixed());
    let beginning_of_month_daily_score = entry(-1, minus_minutes(minus_days(now_fixed(), 25), 1));
    let fifty_days_ago_daily_score = {
        let mut d = minus_days(now_fixed(), 50);
        d.minute = 1;
        entry(2, d)
    };
    let ninty_days_ago_daily_score = entry(20, minus_days(now_fixed(), 90));

    let scores = vec![
        beginning_of_month_daily_score,
        fifty_days_ago_daily_score,
        ninty_days_ago_daily_score,
        today_daily_score,
    ];
    let no_tags: Vec<Vec<u8>> = Vec::new();
    let mood_report = MoodReport { daily_scores: &scores, tags: &no_tags };

    let hist = mood_report.thirty_days_moving_mood(now_fixed());
    let sums: Vec<i32> = hist.iter().map(|val| val.1).collect();
    assert_eq!(
        sums,
        vec![
            2, 2, 2, 2, 1, 1, 1, 1, 1, -1, -1, -1, -1, -1, -1, -1, -1, -1, -1, -1, -1, -1, -1,
            -1, -1, -1, -1, -1, -1, 0,
        ]
    );
    // One frame end per day, most recent frame last.
    assert_eq!(hist[29].0, now_fixed().timestamp());
    assert_eq!(hist[0].0, now_fixed().timestamp() - 29 * 86400);
}

#[test]
fn period_boundary_attribution() {
    // An entry sitting exactly one period before the report end belongs to
    // the most recent bucket, not the one before it.
    let last_monday = midnight(2021, 7, 12);
    let boundary_entry = entry(9, minus_days(last_monday, 7));
    let scores = vec![boundary_entry];
    let no_tags: Vec<Vec<u8>> = Vec::new();
    let mood_report = MoodReport { daily_scores: &scores, tags: &no_tags };

    let report = mood_report.iterative_weekly_mood(now_fixed());
    assert_eq!(report.len(), 1);
    assert_eq!(report[0].1, 9);
}

#[test]
fn yearly_mood() {
    let no_tags: Vec<Vec<u8>> = Vec::new();
    let tag_tags: Vec<Vec<u8>> = vec![b"tag".to_vec()];

    let daily_score = DailyScore::with_score(1, now_fixed());
    let another_daily_score = DailyScore::with_score(2, now_fixed());
    let forty_days_ago_score = entry(5, minus_days(now_fixed(), 40));
    let old_score = tagged_entry(-4, tag_tags.clone(), minus_days(now_fixed(), 7 * 55));

    let daily_scores = vec![daily_score, another_daily_score, forty_days_ago_score, old_score];

    let mood_report = MoodReport { daily_scores: &daily_scores, tags: &no_tags };
    let tagged_mood_report = MoodReport { daily_scores: &daily_scores, tags: &tag_tags };

    assert_eq!(mood_report.yearly_mood(now_fixed()), 8);
    assert_eq!(tagged_mood_report.yearly_mood(now_fixed()), 0);
}

#[test]
fn fixed_window_boundary() {
    // An entry dated exactly 29 days before "today" is inside the 30-day
    // window; one dated 30 days before is outside.
    let on_boundary = entry(7, minus_days(now_fixed(), 29));
    let past_boundary = entry(11, minus_days(now_fixed(), 30));
    let scores = vec![on_boundary, past_boundary];
    let no_tags: Vec<Vec<u8>> = Vec::new();
    let mood_report = MoodReport { daily_scores: &scores, tags: &no_tags };

    assert_eq!(mood_report.thirty_days_mood(now_fixed()), 7);
}

#[test]
fn yearly_window_boundary() {
    let on_boundary = entry(3, minus_days(now_fixed(), 364));
    let past_boundary = entry(9, minus_days(now_fixed(), 365));
    let scores = vec![on_boundary, past_boundary];
    let no_tags: Vec<Vec<u8>> = Vec::new();
    let mood_report = MoodReport { daily_scores: &scores, tags: &no_tags };

    assert_eq!(mood_report.yearly_mood(now_fixed()), 3);
}

#[test]
fn tag_filter_and_semantics() {
    // An entry with tags {a,b} passes filters {a} and {a,b} but not {a,c}.
    let ab = tagged_entry(1, vec![b"a".to_vec(), b"b".to_vec()], now_fixed());
    let scores = vec![ab];

    let filter_a: Vec<Vec<u8>> = vec![b"a".to_vec()];
    let filter_ab: Vec<Vec<u8>> = vec![b"a".to_vec(), b"b".to_vec()];
    let filter_ac: Vec<Vec<u8>> = vec![b"a".to_vec(), b"c".to_vec()];

    assert_eq!(MoodReport { daily_scores: &scores, tags: &filter_a }.thirty_days_mood(now_fixed()), 1);
    assert_eq!(
        MoodReport { daily_scores: &scores, tags: &filter_ab }.thirty_days_mood(now_fixed()),
        1
    );
    assert_eq!(
        MoodReport { daily_scores: &scores, tags: &filter_ac }.thirty_days_mood(now_fixed()),
        0
    );
}

#[test]
fn aggregates_are_idempotent() {
    let scores = vec![
        entry(3, minus_days(now_fixed(), 2)),
        entry(-5, minus_days(now_fixed(), 45)),
        entry(7, minus_days(now_fixed(), 200)),
    ];
    let no_tags: Vec<Vec<u8>> = Vec::new();
    let mood_report = MoodReport { daily_scores: &scores, tags: &no_tags };

    assert_eq!(
        mood_report.thirty_days_mood(now_fixed()),
        mood_report.thirty_days_mood(now_fixed())
    );
    assert_eq!(mood_report.yearly_mood(now_fixed()), mood_report.yearly_mood(now_fixed()));
    assert_eq!(
        mood_report.thirty_days_moving_mood(now_fixed()),
        mood_report.thirty_days_moving_mood(now_fixed())
    );
    assert_eq!(
        mood_report.iterative_weekly_mood(now_fixed()),
        mood_report.iterative_weekly_mood(now_fixed())
    );
    assert_eq!(
        mood_report.iterative_monthly_mood(now_fixed()),
        mood_report.iterative_monthly_mood(now_fixed())
    );
}

#[test]
fn monthly_mood_with_no_closed_month_entries_is_empty() {
    let scores = vec![DailyScore::with_score(4, now_fixed())];
    let no_tags: Vec<Vec<u8>> = Vec::new();
    let mood_report = MoodReport { daily_scores: &scores, tags: &no_tags };

    assert_eq!(mood_report.iterative_monthly_mood(now_fixed()), Vec::<(i64, i32)>::new());
}
