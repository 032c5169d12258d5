use howdy::AddCommand;
use howdy::AddCommandError;
use howdy::CivilDateTime;
use howdy::GlobalConfig;

#[test]
fn add_command_errors_display() {
    let file_path = b"path/to/file".to_vec();

    assert_eq!(
        String::from_utf8(
            AddCommandError::CannotOpenFile { file_path: file_path.clone() }.message()
        )
        .unwrap(),
        "cannot open journal file 'path/to/file'"
    );
    assert_eq!(
        String::from_utf8(AddCommandError::CannotWriteToFile { file_path }.message()).unwrap(),
        "cannot write to journal file 'path/to/file'"
    );
}

#[test]
fn build_entry_stamps_injected_now() {
    let now = CivilDateTime {
        year: 2021,
        month: 7,
        day: 15,
        hour: 12,
        minute: 0,
        second: 0,
        offset_seconds: 3600,
    };
    let command = AddCommand {
        score: 3,
        datetime: None,
        tags: vec![b"tag".to_vec(), b"another tag".to_vec()],
        comment: Some(b"comment".to_vec()),
        global_config: GlobalConfig { journal_file_path: b"./howdy.journal".to_vec() },
    };
    let entry = command.build_entry(now);
    assert_eq!(entry.score, 3);
    assert_eq!(entry.datetime, now);
    assert_eq!(entry.tags, vec![b"tag".to_vec(), b"another tag".to_vec()]);
    assert_eq!(entry.comment, Some(b"comment".to_vec()));
    assert_eq!(
        entry.to_s(),
        b"2021-07-15 12:00:00 +0100 | 3 | another tag,tag | comment".to_vec()
    );
}

#[test]
fn build_entry_keeps_own_datetime() {
    let own = CivilDateTime {
        year: 2020,
        month: 1,
        day: 2,
        hour: 3,
        minute: 4,
        second: 5,
        offset_seconds: 0,
    };
    let now = CivilDateTime {
        year: 2021,
        month: 7,
        day: 15,
        hour: 12,
        minute: 0,
        second: 0,
        offset_seconds: 0,
    };
    let command = AddCommand {
        score: -1,
        datetime: Some(own),
        tags: Vec::new(),
        comment: None,
        global_config: GlobalConfig { journal_file_path: b"./howdy.journal".to_vec() },
    };
    let entry = command.build_entry(now);
    assert_eq!(entry.datetime, own);
}
