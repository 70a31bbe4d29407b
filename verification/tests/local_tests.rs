use std::path::PathBuf;

use bevy_talks::local::LocalRepo;

#[test]
fn build_json_path_returns_path_with_json() {
    let lfs = LocalRepo::new("test-dir");
    let path = lfs.build_json_path("test");
    assert_eq!(path, PathBuf::from("test-dir/test.json"));
}

#[test]
fn build_json_path_replaces_an_extension() {
    let lfs = LocalRepo::new("dir");
    assert_eq!(lfs.build_json_path("talk.txt"), PathBuf::from("dir/talk.json"));
    assert_eq!(lfs.base_path(), "dir");
}

#[test]
fn build_json_path_already_json() {
    let lfs = LocalRepo::new("test-dir");
    let path = lfs.build_json_path("test.json");
    assert_eq!(path, PathBuf::from("test-dir/test.json"));
}

#[test]
fn build_json_path_multiple_times() {
    let lfs = LocalRepo::new("test-dir");
    let path = lfs.build_json_path("a");
    assert_eq!(path, PathBuf::from("test-dir/a.json"));

    let another_path = lfs.build_json_path("b.json");
    assert_eq!(another_path, PathBuf::from("test-dir/b.json"));
}
