use s3glob::download::{extract_prefix_to_strip, relative_path, PathMode};
use s3glob::engine::S3Object;
use s3glob::format::{compile_format, format_user};
use s3glob::matcher::S3GlobMatcher;
use s3glob::mock::MockS3Engine;
use s3glob::results::{head_outcome, matching_objects, PrefixResult};

fn object(key: &str, size: i64) -> S3Object {
    S3Object { key: key.to_string(), size, last_modified: "2024-01-01T00:00:00Z".to_string() }
}

/// Plans `glob` against a store holding `keys` and enumerates the planned
/// prefixes as the command does: lookups when planning is complete, full
/// listings filtered by the pattern otherwise.
fn enumerate(keys: &[(&str, i64)], glob: &str) -> Vec<PrefixResult> {
    let matcher = match S3GlobMatcher::parse(glob.to_string(), "/") {
        Ok(m) => m,
        Err(e) => panic!("{}", e.message()),
    };
    let mut engine = MockS3Engine::new(keys.iter().map(|(k, _)| k.to_string()).collect());
    let prefixes = matcher.find_prefixes(&mut engine).unwrap();
    let mut out = Vec::new();
    for prefix in prefixes {
        if matcher.is_complete() {
            let head = keys.iter().find(|(k, _)| *k == prefix).map(|(_, size)| (*size, String::new()));
            out.push(head_outcome(prefix, head));
        } else {
            let listed: Vec<S3Object> =
                keys.iter().filter(|(k, _)| k.starts_with(prefix.as_str())).map(|(k, s)| object(k, *s)).collect();
            out.extend(matching_objects(&matcher, listed));
        }
    }
    out
}

fn listed_keys(keys: &[&str], glob: &str) -> Vec<String> {
    let with_sizes: Vec<(&str, i64)> = keys.iter().map(|k| (*k, 1)).collect();
    enumerate(&with_sizes, glob).iter().map(|r| r.key().to_string()).collect()
}

/// The local paths a download writes, relative to the destination.
fn downloaded(keys: &[&str], glob: &str, mode: PathMode, flatten: bool) -> Vec<String> {
    let with_sizes: Vec<(&str, i64)> = keys.iter().map(|k| (*k, 1)).collect();
    let objects: Vec<S3Object> = enumerate(&with_sizes, glob)
        .into_iter()
        .filter_map(|r| match r {
            PrefixResult::Object(o) => Some(o),
            PrefixResult::Prefix(_) => None,
        })
        .collect();
    let strip = extract_prefix_to_strip(glob, mode, &objects, '/');
    objects.iter().map(|o| relative_path(&o.key, &strip, flatten, '/').unwrap()).collect()
}

fn check_listing(test_objects: &[&str], glob: &str, expected: &[&str]) {
    let out = listed_keys(test_objects, glob);
    for object in test_objects {
        assert_eq!(out.iter().any(|k| k == object), expected.contains(object), "{object} for {glob}: {out:?}");
    }
    let local = downloaded(test_objects, glob, PathMode::Abs, false);
    for object in test_objects {
        assert_eq!(local.iter().any(|k| k == object), expected.contains(object), "{object} for {glob}: {local:?}");
    }
}

const OBJECTS: &[&str] = &[
    "prefix/2024-01/file1.txt",
    "prefix/2024-02/file2.txt",
    "prefix/2024-03/nested/file3.txt",
    "prefix/2024-03/file4.txt",
    "other/2024-01/file5.txt",
];

#[test]
fn test_s3glob_pattern_matching() {
    check_listing(
        OBJECTS,
        "prefix/2024-*/file*.txt",
        &["prefix/2024-01/file1.txt", "prefix/2024-02/file2.txt", "prefix/2024-03/file4.txt"],
    );
    check_listing(OBJECTS, "prefix/2024-*/nested/file*.txt", &["prefix/2024-03/nested/file3.txt"]);
    check_listing(
        OBJECTS,
        "prefix/2024-*/*",
        &["prefix/2024-01/file1.txt", "prefix/2024-02/file2.txt", "prefix/2024-03/nested/", "prefix/2024-03/file4.txt"],
    );
    check_listing(
        OBJECTS,
        "prefix/2024-*/**",
        &[
            "prefix/2024-01/file1.txt",
            "prefix/2024-02/file2.txt",
            "prefix/2024-03/nested/file3.txt",
            "prefix/2024-03/file4.txt",
        ],
    );
    check_listing(
        OBJECTS,
        "prefix/2024-{01,03}/*",
        &["prefix/2024-01/file1.txt", "prefix/2024-03/nested/", "prefix/2024-03/file4.txt"],
    );
}

#[test]
fn test_download_prefix_from_first_glob() {
    let objects = [
        "prefix/2024-01/file1.txt",
        "prefix/2024-01/file2.txt",
        "prefix/2024-02/nested/file3.txt",
        "prefix/2024-02/nested/file4.txt",
        "prefix/2024-03/file5.txt",
    ];
    let cases: &[(&str, &[&str])] = &[
        ("prefix/2024-01/file1.txt", &["file1.txt"]),
        ("prefix/2024-01/file*.txt", &["file1.txt", "file2.txt"]),
        ("prefix/2024-*/file1.txt", &["2024-02/file1.txt"]),
        ("prefix/2024-*/nested/*3*", &["2024-02/nested/file3.txt"]),
        ("prefix/2024-0{1,3}/*", &["2024-01/file1.txt", "2024-03/file5.txt"]),
    ];
    for (glob, expected) in cases {
        let local = downloaded(&objects, glob, PathMode::FromFirstGlob, false);
        for object in objects {
            assert_eq!(local.iter().any(|p| p == object), expected.contains(&object), "{object} for {glob}: {local:?}");
        }
    }
    assert_eq!(downloaded(&objects, "prefix/2024-01/file*.txt", PathMode::FromFirstGlob, false), vec![
        "file1.txt",
        "file2.txt",
    ]);
    assert_eq!(downloaded(&objects, "prefix/2024-0{1,3}/*", PathMode::FromFirstGlob, false), vec![
        "2024-01/file1.txt",
        "2024-01/file2.txt",
        "2024-03/file5.txt",
    ]);
}

#[test]
fn test_format_patterns() {
    let cases = [
        ("{key}", "test/file.txt"),
        ("{size_bytes}", "1234"),
        ("{size_human}", "1.2kB"),
        ("{key} ({size_human})", "test/file.txt (1.2kB)"),
        ("Size: {size_bytes} bytes, Name: {key}", "Size: 1234 bytes, Name: test/file.txt"),
        ("File: {key}\nSize: {size_human}\nModified: {last_modified}", "File: test/file.txt\nSize: 1.2kB\nModified: "),
    ];
    for (format, expected) in cases {
        let tokens = compile_format(format).unwrap();
        let results = enumerate(&[("test/file.txt", 1234)], "*/file.txt");
        let mut out = String::new();
        for r in results {
            if let PrefixResult::Object(o) = r {
                out.push_str(&format_user("format-test", &o, &tokens));
                out.push('\n');
            }
        }
        assert!(out.contains(expected), "{format:?} gave {out:?}");
    }
}

#[test]
fn test_patterns_in_file_not_path_component() {
    let objects = ["prefix/2024/file1.txt", "prefix/2024/file2.txt", "prefix/2024/other.txt", "other/path/file.txt"];
    check_listing(&objects, "prefix/2024/file1.txt", &["prefix/2024/file1.txt"]);
    check_listing(&objects, "prefix/2024/file*.txt", &["prefix/2024/file1.txt", "prefix/2024/file2.txt"]);
}

#[test]
fn test_download_prefix_shortest() {
    let cases: &[(&[&str], &[&str])] = &[
        (
            &["prefix/2024-01/file1.txt", "prefix/2024-01/file2.txt", "prefix/2024-02/file2.txt"],
            &["2024-01/file1.txt", "2024-01/file2.txt", "2024-02/file2.txt"],
        ),
        (&["prefix/nested/a/file1.txt", "prefix/nested/b/file2.txt"], &["a/file1.txt", "b/file2.txt"]),
        (&["prefix/a/nested/file1.txt", "prefix/a/nested/file2.txt"], &["file1.txt", "file2.txt"]),
        (&["file1.txt", "file2.txt"], &["file1.txt", "file2.txt"]),
        (
            &["different/path/file1.txt", "alternate/path/file2.txt"],
            &["different/path/file1.txt", "alternate/path/file2.txt"],
        ),
        (
            &["shared-prefix/abc/data/file1.txt", "shared-prefix-extra/xyz/data/file2.txt"],
            &["shared-prefix/abc/data/file1.txt", "shared-prefix-extra/xyz/data/file2.txt"],
        ),
        (&["deep/nested/path/file1.txt", "deep/nested/path/more/file2.txt"], &["file1.txt", "more/file2.txt"]),
    ];
    for (source, expected) in cases {
        let local = downloaded(source, "**", PathMode::Shortest, false);
        for path in *expected {
            assert!(local.iter().any(|p| p == path), "{path} missing from {local:?}");
        }
    }
}

#[test]
fn test_download_flatten() {
    let source = ["prefix/nested/deep/file1.txt", "prefix/other/path/file2.txt", "prefix/file3.txt"];
    let local = downloaded(&source, "prefix/**/*.txt", PathMode::FromFirstGlob, true);
    for expected in ["nested-deep-file1.txt", "other-path-file2.txt"] {
        assert!(local.iter().any(|p| p == expected), "{expected} missing from {local:?}");
    }
    // `**` compiles to `.*` between two delimiters, so a key directly under
    // `prefix/` does not match `prefix/**/*.txt`
    assert!(!local.iter().any(|p| p == "file3.txt"));
    for s in source {
        assert!(!local.iter().any(|p| p == s));
    }
}
