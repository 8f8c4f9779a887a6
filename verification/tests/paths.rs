use file_storage::paths::{fs_path_to_dht_path, standardize_fs_path};

#[test]
fn test_fs_path_to_dht_path() {
    let path = "/test/path";
    let fs_path_to_dht_path = fs_path_to_dht_path(path);
    assert_eq!(fs_path_to_dht_path, "root.test.path");
}

#[test]
fn test_standardize_fs_path() {
    let path = "/test/path/";
    let standardized_fs_path = standardize_fs_path(path);
    assert_eq!(standardized_fs_path, "test/path");
}

#[test]
fn normalization_ignores_surrounding_slashes() {
    let a = fs_path_to_dht_path("/a/b/");
    let b = fs_path_to_dht_path("a/b");
    let c = fs_path_to_dht_path("a/b/");
    let d = fs_path_to_dht_path("/a/b");
    assert_eq!(a, "root.a.b");
    assert_eq!(a, b);
    assert_eq!(b, c);
    assert_eq!(c, d);
}

#[test]
fn normalization_of_edge_paths() {
    assert_eq!(fs_path_to_dht_path(""), "root");
    assert_eq!(fs_path_to_dht_path("/"), "root");
    assert_eq!(fs_path_to_dht_path("docs"), "root.docs");
    // only the first empty segment is dropped: inner empty segments stay
    assert_eq!(fs_path_to_dht_path("a//b"), "root.a..b");
}

#[test]
fn standardize_edge_paths() {
    assert_eq!(standardize_fs_path(""), "");
    assert_eq!(standardize_fs_path("/"), "");
    assert_eq!(standardize_fs_path("//"), "");
    assert_eq!(standardize_fs_path("a"), "a");
    assert_eq!(standardize_fs_path("/a"), "a");
    assert_eq!(standardize_fs_path("a/"), "a");
}
