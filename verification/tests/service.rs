use file_storage::errors::FsError;
use file_storage::metadata::{FileInput, UpdateFileMetadataInput};
use file_storage::service::FileService;

fn input(name: &str, path: &str, content: Vec<u8>) -> FileInput {
    FileInput {
        name: name.to_string(),
        path: path.to_string(),
        file_type: "text/plain".to_string(),
        content,
    }
}

fn patterned(len: usize) -> Vec<u8> {
    let mut v = Vec::with_capacity(len);
    for i in 0..len {
        v.push((i % 251) as u8);
    }
    v
}

#[test]
fn create_twice_fails_until_the_first_is_deleted() {
    let mut s = FileService::new();
    let out = s
        .create_file(input("x", "/docs", vec![1, 2, 3]), "alice", 1)
        .unwrap();
    let again = s.create_file(input("x", "/docs", vec![4, 5]), "bob", 2);
    assert!(matches!(again, Err(FsError::AlreadyExists)));
    s.delete_file(out.root).unwrap();
    let after_delete = s.create_file(input("x", "/docs", vec![4, 5]), "bob", 3).unwrap();
    // the recreated file gets a fresh root: the deleted chain is not resurrected
    assert_ne!(after_delete.root, out.root);
    assert!(s.get_file_metadata(after_delete.root).is_ok());
}

#[test]
fn root_identity_is_stable_across_updates() {
    let mut s = FileService::new();
    let out = s
        .create_file(input("x", "/docs", vec![1, 2, 3]), "alice", 1)
        .unwrap();
    let root = out.root;
    let up1 = s
        .update_file(
            UpdateFileMetadataInput { original_file_metadata_hash: root, new_content: vec![9; 10] },
            2,
        )
        .unwrap();
    assert_eq!(up1.root, root);
    let up2 = s
        .update_file(
            UpdateFileMetadataInput { original_file_metadata_hash: root, new_content: vec![7; 20] },
            3,
        )
        .unwrap();
    assert_eq!(up2.root, root);
    let latest = s.get_file_metadata(root).unwrap();
    assert_eq!(latest.size, 20);
    assert_eq!(latest.last_modified, 3);
    assert_eq!(latest.created, 1);
    assert_eq!(latest.name, "x");
    let history = s.get_file_history(root);
    assert_eq!(history.len(), 3);
}

#[test]
fn cascade_delete_removes_every_version_and_chunk() {
    let mut s = FileService::new();
    let out = s
        .create_file(input("x", "/docs", patterned(10)), "alice", 1)
        .unwrap();
    let root = out.root;
    let first_chunks = out.file_metadata.chunks_hashes.clone();
    let up = s
        .update_file(
            UpdateFileMetadataInput {
                original_file_metadata_hash: root,
                new_content: patterned(20),
            },
            2,
        )
        .unwrap();
    let second_chunks = up.file_metadata.chunks_hashes.clone();
    let ids = s.delete_file(root).unwrap();
    assert!(ids.contains(&root));
    assert!(ids.contains(&up.version));
    assert!(matches!(s.get_file_metadata(root), Err(FsError::NotFound)));
    for d in first_chunks.iter().chain(second_chunks.iter()) {
        assert!(!s.has_chunk(d));
    }
    assert_eq!(s.get_file_history(root).len(), 0);
}

#[test]
fn delete_of_a_missing_root_fails_not_found() {
    let mut s = FileService::new();
    assert!(matches!(s.delete_file(42), Err(FsError::NotFound)));
    assert!(matches!(s.get_file_metadata(42), Err(FsError::NotFound)));
    let up = s.update_file(
        UpdateFileMetadataInput { original_file_metadata_hash: 42, new_content: vec![1] },
        1,
    );
    assert!(matches!(up, Err(FsError::NotFound)));
    assert!(matches!(s.get_file_chunks(42), Err(FsError::NotFound)));
}

#[test]
fn validation_rejects_bad_inputs_before_any_write() {
    let mut s = FileService::new();
    let empty_name = s.create_file(input("", "/docs", vec![1]), "alice", 1);
    assert!(matches!(empty_name, Err(FsError::ValidationError)));
    let bad_path = s.create_file(input("x", "/do:cs", vec![1]), "alice", 1);
    assert!(matches!(bad_path, Err(FsError::ValidationError)));
    let wildcard = s.create_file(input("x", "/doc*s", vec![1]), "alice", 1);
    assert!(matches!(wildcard, Err(FsError::ValidationError)));
    // a name with a dot is fine; only the path is constrained
    let dotted_name = s.create_file(input("x.txt", "/docs", vec![1]), "alice", 1);
    assert!(dotted_name.is_ok());
}

#[test]
fn two_and_a_half_chunks_round_trip() {
    let mut s = FileService::new();
    let content = patterned(2_621_440);
    let out = s
        .create_file(input("x.txt", "/docs/", content.clone()), "alice", 1)
        .unwrap();
    assert_eq!(out.file_metadata.size, 2_621_440);
    assert_eq!(out.file_metadata.chunks_hashes.len(), 3);
    assert_eq!(out.file_metadata.path, "docs");
    let records = s.get_file_chunks(out.root).unwrap();
    assert_eq!(records.len(), 3);
    assert_eq!(records[0].0.len(), 1_048_576);
    assert_eq!(records[1].0.len(), 1_048_576);
    assert_eq!(records[2].0.len(), 524_288);
    let mut joined = Vec::new();
    for r in records.iter() {
        joined.extend_from_slice(&r.0);
    }
    assert_eq!(joined, content);
}

#[test]
fn recursive_listing_includes_descendants() {
    let mut s = FileService::new();
    s.create_file(input("top", "a", vec![1]), "alice", 1).unwrap();
    s.create_file(input("deep", "a/b", vec![2]), "alice", 2).unwrap();
    let recursive = s.get_files_metadata_by_path_recursively("a".to_string());
    let names: Vec<String> = recursive.iter().map(|m| m.name.clone()).collect();
    assert!(names.contains(&"top".to_string()));
    assert!(names.contains(&"deep".to_string()));
    let direct = s.list_by_path("a".to_string());
    let direct_names: Vec<String> = direct.iter().map(|m| m.name.clone()).collect();
    assert!(direct_names.contains(&"top".to_string()));
    assert!(!direct_names.contains(&"deep".to_string()));
    let elsewhere = s.get_files_metadata_by_path_recursively("c".to_string());
    assert_eq!(elsewhere.len(), 0);
}

#[test]
fn lookup_by_path_and_name_resolves_the_latest_version() {
    let mut s = FileService::new();
    let out = s
        .create_file(input("x", "/docs", vec![1, 2]), "alice", 1)
        .unwrap();
    s.update_file(
        UpdateFileMetadataInput { original_file_metadata_hash: out.root, new_content: vec![1; 5] },
        2,
    )
    .unwrap();
    let (root, found) = s
        .get_file_metadata_by_path_and_name("/docs".to_string(), "x".to_string())
        .unwrap();
    assert_eq!(root, out.root);
    assert_eq!(found.size, 5);
    let missing = s.get_file_metadata_by_path_and_name("/docs".to_string(), "y".to_string());
    assert!(matches!(missing, Err(FsError::NotFound)));
}

#[test]
fn shared_chunks_are_dropped_with_the_deleted_file() {
    // Deduplication shares chunk records between files with identical
    // bytes, and deletion removes them unconditionally: reading the
    // surviving file then fails with ChunkMissing.
    let mut s = FileService::new();
    let a = s
        .create_file(input("a", "/docs", patterned(64)), "alice", 1)
        .unwrap();
    let b = s
        .create_file(input("b", "/docs", patterned(64)), "alice", 2)
        .unwrap();
    s.delete_file(a.root).unwrap();
    assert!(matches!(s.get_file_chunks(b.root), Err(FsError::ChunkMissing)));
    // the surviving file's metadata is still there
    assert!(s.get_file_metadata(b.root).is_ok());
}

#[test]
fn empty_content_has_no_chunks() {
    let mut s = FileService::new();
    let out = s
        .create_file(input("empty", "/docs", Vec::new()), "alice", 1)
        .unwrap();
    assert_eq!(out.file_metadata.size, 0);
    assert_eq!(out.file_metadata.chunks_hashes.len(), 0);
    let records = s.get_file_chunks(out.root).unwrap();
    assert_eq!(records.len(), 0);
}

#[test]
fn create_returns_the_stored_records() {
    let mut s = FileService::new();
    let content = patterned(100);
    let out = s
        .create_file(input("x", "/docs", content.clone()), "alice", 7)
        .unwrap();
    assert_eq!(out.version, out.root);
    assert_eq!(out.file_chunks.len(), 1);
    assert_eq!(out.file_chunks[0].0, content);
    assert_eq!(out.file_metadata.author, "alice");
    assert_eq!(out.file_metadata.created, 7);
    assert_eq!(out.file_metadata.last_modified, 7);
    assert_eq!(out.file_metadata.file_type, "text/plain");
}

#[test]
fn identical_content_across_files_is_stored_once() {
    let mut s = FileService::new();
    let a = s
        .create_file(input("a", "/docs", patterned(50)), "alice", 1)
        .unwrap();
    let b = s
        .create_file(input("b", "/docs", patterned(50)), "bob", 2)
        .unwrap();
    assert_eq!(a.file_metadata.chunks_hashes, b.file_metadata.chunks_hashes);
    assert_eq!(s.chunk_count(), 1);
}
