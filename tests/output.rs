use s3glob::location::split_location;
use s3glob::engine::S3Object;
use s3glob::format::{compile_format, format_default, format_prefix, format_user};
use s3glob::matcher::S3GlobMatcher;
use s3glob::messaging::{level_for_quiet, log_directive, louder_than, MessageLevel};
use s3glob::results::{head_outcome, matching_objects, PrefixResult};

fn object() -> S3Object {
    S3Object { key: "test/file.txt".to_string(), size: 1234, last_modified: "1970-01-01T00:00:00Z".to_string() }
}

fn render(format: &str) -> String {
    let fmt = compile_format(format).unwrap();
    format_user("bkt", &object(), &fmt)
}

#[test]
fn test_format_invalid_variable() {
    assert!(compile_format("{invalid_var}").is_err());
}

#[test]
fn format_reports_unknown_variable_by_name() {
    assert_eq!(compile_format("a {nope} b").unwrap_err(), "unknown variable: nope");
}

#[test]
fn format_size_bytes_and_key() {
    assert_eq!(render("Size: {size_bytes}, Name: {key}"), "Size: 1234, Name: test/file.txt");
}

#[test]
fn format_size_human() {
    assert_eq!(render("s: {size_human}\t{key}"), "s: 1.2kB\ttest/file.txt");
    assert_eq!(render("{size_human}\t{key}"), "1.2kB\ttest/file.txt");
}

#[test]
fn format_uri_and_modified() {
    assert_eq!(render("uri: {uri}"), "uri: s3://bkt/test/file.txt");
    assert_eq!(render("{last_modified}|"), "1970-01-01T00:00:00Z|");
}

#[test]
fn test_message_level_ordering() {
    assert!(MessageLevel::Quiet < MessageLevel::Normal);
    assert!(MessageLevel::VeryQuiet < MessageLevel::Quiet);
}

#[test]
fn louder_than_is_strict() {
    assert!(louder_than(MessageLevel::Normal, MessageLevel::Quiet));
    assert!(!louder_than(MessageLevel::Quiet, MessageLevel::Quiet));
    assert!(louder_than(MessageLevel::Quiet, MessageLevel::VeryQuiet));
    assert_eq!(level_for_quiet(0), MessageLevel::Normal);
    assert_eq!(level_for_quiet(1), MessageLevel::Quiet);
    assert_eq!(level_for_quiet(5), MessageLevel::VeryQuiet);
}

#[test]
fn log_directives_follow_flags() {
    assert_eq!(log_directive(0, 0), None);
    assert_eq!(log_directive(1, 0), Some("s3glob=debug"));
    assert_eq!(log_directive(2, 1), Some("s3glob=trace"));
    assert_eq!(log_directive(3, 0), Some("trace"));
    assert_eq!(log_directive(3, 2), Some("s3glob=error"));
}

#[test]
fn head_lookups_become_objects_or_prefixes() {
    match head_outcome("a/b".to_string(), Some((7, "t".to_string()))) {
        PrefixResult::Object(o) => {
            assert_eq!(o.key, "a/b");
            assert_eq!(o.size, 7);
        },
        other => panic!("expected an object, got {other:?}"),
    }
    let r = head_outcome("a/c/".to_string(), None);
    assert!(matches!(r, PrefixResult::Prefix(ref p) if p == "a/c/"));
    assert_eq!(r.key(), "a/c/");
}

#[test]
fn listed_pages_keep_only_matching_keys() {
    let m = match S3GlobMatcher::parse("prefix/2024-*/file*.txt".to_string(), "/") {
        Ok(m) => m,
        Err(e) => panic!("{}", e.message()),
    };
    let objs: Vec<S3Object> = [
        "prefix/2024-01/file1.txt",
        "prefix/2024-03/nested/file3.txt",
        "prefix/2024-03/file4.txt",
        "other/2024-01/file5.txt",
    ]
    .iter()
    .map(|k| S3Object { key: k.to_string(), size: 1, last_modified: String::new() })
    .collect();
    let kept: Vec<String> = matching_objects(&m, objs).iter().map(|r| r.key().to_string()).collect();
    assert_eq!(kept, vec!["prefix/2024-01/file1.txt", "prefix/2024-03/file4.txt"]);
}

#[test]
fn default_listing_lines() {
    assert_eq!(format_default(&object()), "1970-01-01T00:00:00Z     1.2kB   test/file.txt");
    let short = S3Object { key: "k".to_string(), size: 5, last_modified: "t".to_string() };
    assert_eq!(format_default(&short), "         t        5B   k");
    assert_eq!(format_prefix("prefix/2024-03/nested/"), "PRE     prefix/2024-03/nested/");
}

#[test]
fn locations_split_into_bucket_and_glob() {
    let some = |b: &str, g: &str| Some((b.to_string(), g.to_string()));
    assert_eq!(split_location("s3://bkt/a/*.txt"), some("bkt", "a/*.txt"));
    assert_eq!(split_location("bkt/**"), some("bkt", "**"));
    assert_eq!(split_location("bkt/"), some("bkt", ""));
    assert_eq!(split_location("s3:///x"), some("s3:", "//x"));
    assert_eq!(split_location("bkt/a\nb"), some("bkt", "a"));
    assert_eq!(split_location("nobucket"), None);
    assert_eq!(split_location("/x"), None);
}
