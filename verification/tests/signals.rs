use file_storage::metadata::FileMetadata;
use file_storage::signals::{signal_action, ActionKind, Signal};

fn meta(name: &str) -> FileMetadata {
    FileMetadata {
        name: name.to_string(),
        author: "alice".to_string(),
        path: "docs".to_string(),
        created: 1,
        last_modified: 1,
        size: 0,
        file_type: "text/plain".to_string(),
        chunks_hashes: Vec::new(),
    }
}

#[test]
fn creation_signals_the_new_entry() {
    let r = signal_action(ActionKind::Create, Some(meta("x")), None);
    match r {
        Some(Signal::FileMetadataCreated { app_entry }) => assert_eq!(app_entry.name, "x"),
        _ => panic!("expected a creation signal"),
    }
    assert!(signal_action(ActionKind::Create, None, None).is_none());
}

#[test]
fn update_signals_both_versions() {
    let r = signal_action(ActionKind::Update, Some(meta("new")), Some(meta("old")));
    match r {
        Some(Signal::FileMetadataUpdated { app_entry, original_app_entry }) => {
            assert_eq!(app_entry.name, "new");
            assert_eq!(original_app_entry.name, "old");
        },
        _ => panic!("expected an update signal"),
    }
    assert!(signal_action(ActionKind::Update, None, Some(meta("old"))).is_none());
}

#[test]
fn deletion_signals_the_deleted_entry() {
    let r = signal_action(ActionKind::Delete, None, Some(meta("gone")));
    match r {
        Some(Signal::FileMetadataDeleted { original_app_entry }) => {
            assert_eq!(original_app_entry.name, "gone")
        },
        _ => panic!("expected a deletion signal"),
    }
    assert!(signal_action(ActionKind::Delete, None, None).is_none());
}
