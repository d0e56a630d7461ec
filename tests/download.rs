use s3glob::download::{
    extract_prefix_to_strip, pool_for_size, pool_limit, relative_path, temp_path, Notification, PathMode, Pool,
    Transfer, TransferEvent, TransferPhase,
};
use s3glob::engine::S3Object;

fn check_strip(pattern: &str, mode: PathMode, expected: &str, keys: &[S3Object]) {
    let actual = extract_prefix_to_strip(pattern, mode, keys, '/');
    assert!(actual == expected, "input: {} path_mode: {:?} keys: {:?} got {:?}", pattern, mode, keys, actual);
}

fn make_objects(keys: &[&str]) -> Vec<S3Object> {
    keys.iter()
        .map(|&key| S3Object { key: key.to_string(), size: 0, last_modified: String::new() })
        .collect()
}

#[test]
fn test_extract_prefix_to_strip() {
    check_strip("prefix/path/to/*.txt", PathMode::Absolute, "", &[]);
    check_strip("bucket/deep/path/*.txt", PathMode::Abs, "", &[]);
    check_strip("prefix/path/to/*.txt", PathMode::FromFirstGlob, "prefix/path/to/", &[]);
    check_strip("prefix/path/*/more/*.txt", PathMode::FromFirstGlob, "prefix/path/", &[]);
    check_strip("prefix/*.txt", PathMode::FromFirstGlob, "prefix/", &[]);
    check_strip("*.txt", PathMode::FromFirstGlob, "", &[]);
    check_strip("prefix/a.txt", PathMode::FromFirstGlob, "prefix/", &[]);
    check_strip("prefix/path/to/[abc]/*.txt", PathMode::FromFirstGlob, "prefix/path/to/", &[]);
    check_strip("prefix/path/to/?/*.txt", PathMode::FromFirstGlob, "prefix/path/to/", &[]);
    check_strip("prefix/path/{a,b}/*.txt", PathMode::FromFirstGlob, "prefix/path/", &[]);
}

#[test]
fn test_extract_prefix_to_strip_shortest() {
    check_strip(
        "different/*/file*.txt",
        PathMode::Shortest,
        "",
        &make_objects(&["different/path/file1.txt", "alternate/path/file2.txt"]),
    );
    check_strip(
        "shared-prefix/*/data/*.txt",
        PathMode::Shortest,
        "",
        &make_objects(&["shared-prefix/abc/data/file1.txt", "shared-prefix-extra/xyz/data/file2.txt"]),
    );
    check_strip(
        "deep/nested/*/file*.txt",
        PathMode::Shortest,
        "deep/nested/path/",
        &make_objects(&["deep/nested/path/file1.txt", "deep/nested/path/more/file2.txt"]),
    );
    check_strip("*.txt", PathMode::Shortest, "", &make_objects(&["file1.txt", "file2.txt"]));
    check_strip(
        "prefix/2024-*/file*.txt",
        PathMode::Shortest,
        "prefix/",
        &make_objects(&["prefix/2024-01/file1.txt", "prefix/2024-01/file2.txt", "prefix/2024-02/file2.txt"]),
    );
    check_strip(
        "prefix/nested/*/file*.txt",
        PathMode::Shortest,
        "prefix/nested/",
        &make_objects(&["prefix/nested/a/file1.txt", "prefix/nested/b/file2.txt"]),
    );
    check_strip(
        "prefix/*/nested/*.txt",
        PathMode::Shortest,
        "prefix/a/nested/",
        &make_objects(&["prefix/a/nested/file1.txt", "prefix/a/nested/file2.txt"]),
    );
    check_strip("any/pattern/*.txt", PathMode::Shortest, "", &[]);
    check_strip("single/path/*.txt", PathMode::Shortest, "single/path/", &make_objects(&["single/path/file.txt"]));
}

#[test]
fn shortest_mode_without_common_prefix_keeps_whole_keys() {
    let keys = make_objects(&["different/path/f1", "alternate/path/f2"]);
    let strip = extract_prefix_to_strip("**", PathMode::Shortest, &keys, '/');
    assert_eq!(strip, "");
    assert_eq!(relative_path("different/path/f1", &strip, false, '/').unwrap(), "different/path/f1");
    assert_eq!(relative_path("alternate/path/f2", &strip, false, '/').unwrap(), "alternate/path/f2");
}

#[test]
fn flatten_replaces_delimiters() {
    let strip = extract_prefix_to_strip("prefix/**/*.txt", PathMode::FromFirstGlob, &[], '/');
    assert_eq!(strip, "prefix/");
    assert_eq!(relative_path("prefix/nested/deep/f1", &strip, true, '/').unwrap(), "nested-deep-f1");
    assert_eq!(relative_path("prefix/other/path/f2", &strip, true, '/').unwrap(), "other-path-f2");
    assert_eq!(relative_path("prefix/f3", &strip, true, '/').unwrap(), "f3");
    assert!(relative_path("elsewhere/f4", &strip, true, '/').is_none());
}

#[test]
fn path_modes_parse_from_words() {
    assert_eq!(PathMode::from_str("abs", false), Ok(PathMode::Absolute));
    assert_eq!(PathMode::from_str("absolute", false), Ok(PathMode::Absolute));
    assert_eq!(PathMode::from_str("g", false), Ok(PathMode::FromFirstGlob));
    assert_eq!(PathMode::from_str("from-first-glob", false), Ok(PathMode::FromFirstGlob));
    assert_eq!(PathMode::from_str("s", false), Ok(PathMode::Shortest));
    assert_eq!(PathMode::from_str("shortest", false), Ok(PathMode::Shortest));
    assert_eq!(PathMode::from_str("other", false), Err("invalid path type: other".to_string()));
}

#[test]
fn temp_paths_carry_the_id() {
    assert_eq!(temp_path("out/a.txt", 0), "out/a.txt.s3glob-tmp-0");
    assert_eq!(temp_path("out/a.txt", 1207), "out/a.txt.s3glob-tmp-1207");
}

#[test]
fn pools_split_by_size() {
    assert_eq!(pool_for_size(0), Pool::Small);
    assert_eq!(pool_for_size(199_999), Pool::Small);
    assert_eq!(pool_for_size(200_000), Pool::Medium);
    assert_eq!(pool_for_size(999_999), Pool::Medium);
    assert_eq!(pool_for_size(1_000_000), Pool::Large);
    assert_eq!(pool_for_size(9_999_999), Pool::Large);
    assert_eq!(pool_for_size(10_000_000), Pool::Huge);
}

#[test]
fn pool_limits_never_exceed_the_global_cap() {
    assert_eq!(pool_limit(Pool::Small, 10_000), 500);
    assert_eq!(pool_limit(Pool::Medium, 10_000), 50);
    assert_eq!(pool_limit(Pool::Large, 10_000), 10);
    assert_eq!(pool_limit(Pool::Huge, 10_000), 5);
    assert_eq!(pool_limit(Pool::Small, 7), 7);
    assert_eq!(pool_limit(Pool::Huge, 3), 3);
}

#[test]
fn transfer_reports_bytes_then_completion_after_rename() {
    let t = Transfer::start("out/f".to_string());
    let (t, n) = t.step(TransferEvent::ChunkWritten(10));
    assert!(matches!(n, Some(Notification::BytesDownloaded(10))));
    let (t, n) = t.step(TransferEvent::ChunkWritten(5));
    assert!(matches!(n, Some(Notification::BytesDownloaded(5))));
    let (t, n) = t.step(TransferEvent::Renamed);
    assert!(n.is_none());
    let (t, n) = t.step(TransferEvent::BodyEnded);
    assert!(n.is_none());
    assert_eq!(t.phase, TransferPhase::Finishing);
    let (t, n) = t.step(TransferEvent::Renamed);
    match n {
        Some(Notification::ObjectDownloaded(p)) => assert_eq!(p, "out/f"),
        other => panic!("expected completion, got {other:?}"),
    }
    assert_eq!(t.written, 15);
    assert_eq!(t.phase, TransferPhase::Done);
}

#[test]
fn failed_transfer_never_reports_completion() {
    let t = Transfer::start("out/g".to_string());
    let (t, _) = t.step(TransferEvent::ChunkWritten(3));
    let (t, _) = t.step(TransferEvent::BodyEnded);
    let (t, n) = t.step(TransferEvent::Failed);
    assert!(n.is_none());
    let (t, n) = t.step(TransferEvent::Renamed);
    assert!(n.is_none());
    assert_eq!(t.phase, TransferPhase::Abandoned);
    assert_eq!(t.written, 3);
}

#[test]
fn from_first_glob_keeps_partial_file_names() {
    assert_eq!(extract_prefix_to_strip("abc*.txt", PathMode::FromFirstGlob, &[], '/'), "");
    assert_eq!(extract_prefix_to_strip("dir/abc*.txt", PathMode::G, &[], '/'), "dir/");
    assert_eq!(extract_prefix_to_strip("a:b:c*", PathMode::FromFirstGlob, &[], ':'), "a:b:");
    assert_eq!(relative_path("a:b:cd", "a:", true, ':').unwrap(), "b-cd");
}
