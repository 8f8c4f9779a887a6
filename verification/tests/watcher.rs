use file_storage::watcher::{
    contains_sub, find_containing, is_excluded, parse_pid, process_change_event, ChangeType,
    Config, FileData, State,
};

#[test]
fn file_data_new_keeps_its_fields() {
    let f = FileData::new("a/b.txt".to_string(), "hello".to_string());
    assert_eq!(f.path, "a/b.txt");
    assert_eq!(f.content, "hello");
}

#[test]
fn save_into_replaces_or_appends() {
    let mut files = Vec::new();
    FileData::new("a".to_string(), "1".to_string()).save_into(&mut files);
    FileData::new("b".to_string(), "2".to_string()).save_into(&mut files);
    assert_eq!(files.len(), 2);
    FileData::new("a".to_string(), "3".to_string()).save_into(&mut files);
    assert_eq!(files.len(), 2);
    assert_eq!(files[0].content, "3");
    assert_eq!(files[1].content, "2");
}

#[test]
fn delete_from_drops_the_matching_entry() {
    let mut files = Vec::new();
    FileData::new("a".to_string(), "1".to_string()).save_into(&mut files);
    FileData::new("b".to_string(), "2".to_string()).save_into(&mut files);
    FileData::new("a".to_string(), String::new()).delete_from(&mut files);
    assert_eq!(files.len(), 1);
    assert_eq!(files[0].path, "b");
    // deleting an absent path changes nothing
    FileData::new("c".to_string(), String::new()).delete_from(&mut files);
    assert_eq!(files.len(), 1);
}

#[test]
fn config_default_watches_the_files_directory() {
    let c = Config::default();
    assert_eq!(c.location, "./files");
    assert_eq!(c.excludes, Some(Vec::new()));
}

#[test]
fn state_classifies_changes() {
    let mut state = State::new();
    assert_eq!(state.compare("f", 10), ChangeType::Created);
    state.update("f", 10);
    assert_eq!(state.compare("f", 11), ChangeType::Modified);
    assert_eq!(state.compare("f", 10), ChangeType::Created);
    assert_eq!(state.compare("f", 9), ChangeType::Created);
    state.remove("f");
    assert_eq!(state.compare("f", 11), ChangeType::Created);
}

#[test]
fn process_change_event_tracks_the_filesystem() {
    let mut state = State::new();
    assert_eq!(process_change_event(&mut state, "f", Some(Some(5))), ChangeType::Created);
    assert_eq!(process_change_event(&mut state, "f", Some(Some(6))), ChangeType::Modified);
    assert_eq!(process_change_event(&mut state, "f", Some(None)), ChangeType::Created);
    assert_eq!(process_change_event(&mut state, "f", None), ChangeType::Removed);
    assert_eq!(process_change_event(&mut state, "f", Some(Some(6))), ChangeType::Created);
}

#[test]
fn exclusion_is_by_substring() {
    assert!(contains_sub("target/debug/foo", "debug"));
    assert!(!contains_sub("target/debug/foo", "release"));
    assert!(contains_sub("anything", ""));
    let excludes = vec![".git".to_string(), "tmp".to_string()];
    assert!(is_excluded("repo/.git/config", &excludes));
    assert!(is_excluded("a/tmp/b", &excludes));
    assert!(!is_excluded("src/main", &excludes));
    assert!(!is_excluded("src/main", &Vec::new()));
}

#[test]
fn find_containing_returns_the_first_match() {
    let paths = vec!["./files/a/x.txt".to_string(), "./files/b/x.txt".to_string()];
    assert_eq!(find_containing(&paths, "b/x.txt"), Some("./files/b/x.txt".to_string()));
    assert_eq!(find_containing(&paths, "x.txt"), Some("./files/a/x.txt".to_string()));
    assert_eq!(find_containing(&paths, "y.txt"), None);
}

#[test]
fn parse_pid_reads_a_trimmed_decimal() {
    assert_eq!(parse_pid("1234"), Some(1234));
    assert_eq!(parse_pid(" 1234\n"), Some(1234));
    assert_eq!(parse_pid("\t0\r\n"), Some(0));
    assert_eq!(parse_pid("4294967295"), Some(u32::MAX));
    assert_eq!(parse_pid("4294967296"), None);
    assert_eq!(parse_pid(""), None);
    assert_eq!(parse_pid("  "), None);
    assert_eq!(parse_pid("12a4"), None);
    assert_eq!(parse_pid("-5"), None);
}
