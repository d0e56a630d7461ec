use s3glob::engine::Engine;
use s3glob::glob::Glob;
use s3glob::matcher::S3GlobMatcher;
use s3glob::mock::MockS3Engine;

fn parse(raw: &str) -> S3GlobMatcher {
    match S3GlobMatcher::parse(raw.to_string(), "/") {
        Ok(m) => m,
        Err(e) => panic!("parse of {raw:?} failed: {}", e.message()),
    }
}

fn engine(paths: &[&str]) -> MockS3Engine {
    MockS3Engine::new(paths.iter().map(|p| p.to_string()).collect())
}

fn choice(g: &Glob) -> Vec<String> {
    match g {
        Glob::Choice { allowed, .. } => allowed.clone(),
        other => panic!("expected a choice, got {}", other.display()),
    }
}

fn one_choice(g: &Glob) -> String {
    let c = choice(g);
    assert_eq!(c.len(), 1, "expected one choice, got {c:?}");
    c[0].clone()
}

fn any_raw(g: &Glob) -> String {
    match g {
        Glob::Any { raw, .. } => raw.clone(),
        other => panic!("expected an any, got {}", other.display()),
    }
}

fn engine_of(paths: &[&str]) -> MockS3Engine {
    MockS3Engine::new(paths.iter().map(|p| p.to_string()).collect())
}

fn prefixes(scanner: &S3GlobMatcher, engine: &mut MockS3Engine) -> Vec<String> {
    scanner.find_prefixes(engine).unwrap()
}

const NO_CALLS: &[(&str, &str)] = &[];

#[test]
fn test_find_prefixes_literal() {
    let scanner = parse("src/foo/bar");
    let mut engine = engine(&["src/foo/bar"]);
    let prefixes = prefixes(&scanner, &mut engine);
    assert!(prefixes == vec!["src/foo/bar"]);
    assert!(engine.assert_calls(NO_CALLS));
}

#[test]
fn test_find_prefixes_alternation_no_any() {
    let scanner = parse("src/{foo,bar}/baz");
    let mut engine = engine(&["src/foo/baz", "src/bar/baz", "src/qux/baz"]);
    let prefixes = prefixes(&scanner, &mut engine);
    assert!(prefixes == vec!["src/foo/baz", "src/bar/baz"]);
    assert!(engine.assert_calls(NO_CALLS));
}

#[test]
fn test_find_prefixes_alternation_with_any() {
    let scanner = parse("src/{foo,bar}*/baz");
    let mut engine = engine(&["src/foo/baz", "src/bar/baz", "src/foo-quux/baz", "src/qux/baz"]);
    let prefixes = prefixes(&scanner, &mut engine);
    assert!(engine.assert_calls(&[("src/foo", "/"), ("src/bar", "/")]));
    assert!(prefixes == vec!["src/foo-quux/baz", "src/foo/baz", "src/bar/baz"]);
}

#[test]
fn test_find_prefixes_star() {
    let scanner = parse("src/*/main.rs");
    let mut engine = engine(&["src/foo/main.rs", "src/bar/main.rs", "src/baz/other.rs"]);
    let prefixes = prefixes(&scanner, &mut engine);
    assert!(prefixes == vec!["src/bar/main.rs", "src/foo/main.rs"]);
    assert!(engine.assert_calls(&[("src/", "/")]));
}

#[test]
fn test_find_prefixes_recursive() {
    let scanner = parse("src/**/test.rs");
    let mut engine = engine(&["src/test.rs", "src/foo/test.rs", "src/foo/bar/test.rs", "src/other.rs"]);
    let prefixes = prefixes(&scanner, &mut engine);
    assert!(prefixes == vec!["src/"]);
    assert!(engine.assert_calls(NO_CALLS));
}

#[test]
fn test_find_prefixes_character_class() {
    let scanner = parse("src/[abc]*.rs");
    assert_eq!(choice(&scanner.parts()[0]), vec!["src/a", "src/b", "src/c"]);
    assert_eq!(any_raw(&scanner.parts()[1]), "*");
    assert_eq!(one_choice(&scanner.parts()[2]), ".rs");
    let mut engine = engine(&["src/abc.rs", "src/baz.rs", "src/cat.rs", "src/dog.rs"]);
    let prefixes = prefixes(&scanner, &mut engine);
    assert!(engine.assert_calls(&[("src/a", "/"), ("src/b", "/"), ("src/c", "/")]));
    assert!(prefixes == vec!["src/abc.rs", "src/baz.rs", "src/cat.rs"]);
}

#[test]
fn test_find_prefixes_alternation_then_any() {
    let scanner = parse("literal/{foo,bar}*/baz");
    assert_eq!(choice(&scanner.parts()[0]), vec!["literal/foo", "literal/bar"]);
    assert_eq!(any_raw(&scanner.parts()[1]), "*");
    assert_eq!(one_choice(&scanner.parts()[2]), "/baz");
    let mut engine = engine(&[
        "literal/bar-stuff/baz",
        "literal/foo-extra/baz",
        "literal/foo/baz",
        "literal/other/baz",
    ]);
    let prefixes = prefixes(&scanner, &mut engine);
    assert!(engine.assert_calls(&[("literal/foo", "/"), ("literal/bar", "/")]));
    assert!(prefixes == vec!["literal/foo-extra/baz", "literal/foo/baz", "literal/bar-stuff/baz"]);
}

#[test]
fn test_find_prefixes_alternation_any_literal() {
    let scanner = parse("literal/{foo,bar}*quux/baz");
    assert_eq!(choice(&scanner.parts()[0]), vec!["literal/foo", "literal/bar"]);
    assert_eq!(any_raw(&scanner.parts()[1]), "*");
    assert_eq!(one_choice(&scanner.parts()[2]), "quux/baz");
    let mut engine = engine(&[
        "literal/foo-quux/baz",
        "literal/bar-quux/baz",
        "literal/foo-something-bar/baz",
        "literal/other-quux/baz",
        "literal/foo-quux-bar/baz",
    ]);
    let prefixes = prefixes(&scanner, &mut engine);
    assert!(prefixes == vec!["literal/foo-quux/baz", "literal/bar-quux/baz"]);
    assert!(engine.assert_calls(&[("literal/foo", "/"), ("literal/bar", "/")]));
}

#[test]
fn test_find_prefixes_any_then_alternation() {
    let scanner = parse("literal/*{foo,bar}/baz");
    assert_eq!(one_choice(&scanner.parts()[0]), "literal/");
    assert_eq!(any_raw(&scanner.parts()[1]), "*");
    assert_eq!(choice(&scanner.parts()[2]), vec!["foo/baz", "bar/baz"]);
    let mut engine = engine(&["literal/something-foo/baz", "literal/other-bar/baz", "literal/not-match/baz"]);
    let prefixes = prefixes(&scanner, &mut engine);
    assert!(engine.assert_calls(&[("literal/", "/")]));
    assert!(prefixes == vec!["literal/other-bar/baz", "literal/something-foo/baz"]);
}

#[test]
fn test_find_prefixes_literal_any_alternation() {
    let scanner = parse("literal/quux*{foo,bar}/baz");
    assert_eq!(one_choice(&scanner.parts()[0]), "literal/quux");
    assert_eq!(any_raw(&scanner.parts()[1]), "*");
    assert_eq!(choice(&scanner.parts()[2]), vec!["foo/baz", "bar/baz"]);
    let mut engine = engine(&[
        "literal/quux-foo/baz",
        "literal/quux-something-bar/baz",
        "literal/quux-other/baz",
    ]);
    let prefixes = prefixes(&scanner, &mut engine);
    assert!(engine.assert_calls(&[("literal/quux", "/")]));
    assert!(prefixes == vec!["literal/quux-foo/baz", "literal/quux-something-bar/baz"]);
}

#[test]
fn test_find_prefixes_any_after_last_delimiter() {
    let scanner = parse("literal/baz*.rs");
    assert_eq!(one_choice(&scanner.parts()[0]), "literal/baz");
    assert_eq!(any_raw(&scanner.parts()[1]), "*");
    assert_eq!(one_choice(&scanner.parts()[2]), ".rs");
    let mut engine = engine(&["literal/baz.rs", "literal/baz-extra.rs", "literal/bazinga.rs", "literal/other.rs"]);
    let prefixes = prefixes(&scanner, &mut engine);
    assert!(engine.assert_calls(&[("literal/baz", "/")]));
    assert!(prefixes == vec!["literal/baz-extra.rs", "literal/baz.rs", "literal/bazinga.rs"]);
}

#[test]
fn test_find_prefixes_any_and_character_class() {
    let scanner = parse("literal/baz*[ab].rs");
    assert_eq!(one_choice(&scanner.parts()[0]), "literal/baz");
    assert_eq!(any_raw(&scanner.parts()[1]), "*");
    assert_eq!(choice(&scanner.parts()[2]), vec!["a.rs", "b.rs"]);
    let mut engine = engine(&["literal/baz-a.rs", "literal/baz-extra-b.rs", "literal/baz-c.rs"]);
    let prefixes = prefixes(&scanner, &mut engine);
    assert!(engine.assert_calls(&[("literal/baz", "/")]));
    assert!(prefixes == vec!["literal/baz-a.rs", "literal/baz-extra-b.rs"]);
}

#[test]
fn test_find_prefixes_empty_alternative() {
    let scanner = parse("src/{,tmp}/file");
    let mut engine = engine(&["src/file", "src/tmp/file", "src/other/file"]);
    let prefixes = prefixes(&scanner, &mut engine);
    assert!(prefixes == vec!["src/file", "src/tmp/file"]);
    assert!(engine.assert_calls(NO_CALLS));
}

#[test]
fn test_find_prefixes_empty_alternative_with_delimiter() {
    let scanner = parse("src/{,tmp/}file");
    let mut engine = engine(&["src/file", "src/tmp/file", "src/other/file"]);
    let prefixes = prefixes(&scanner, &mut engine);
    assert!(prefixes == vec!["src/file", "src/tmp/file"]);
    assert!(engine.assert_calls(NO_CALLS));
}

#[test]
fn test_find_prefixes_alternation_with_delimiter() {
    let scanner = parse("src/{foo/bar,baz}/test");
    let parts = scanner.parts();
    match &parts[0] {
        s3glob::glob::Glob::Choice { allowed, .. } => {
            assert!(*allowed == vec!["src/foo/bar/test", "src/baz/test"]);
        },
        other => panic!("expected a choice, got {}", other.display()),
    }
    let mut engine = engine(&["src/foo/bar/test", "src/baz/test", "src/foo/test", "src/foo/baz/test"]);
    let prefixes = prefixes(&scanner, &mut engine);
    assert!(prefixes == vec!["src/foo/bar/test", "src/baz/test"]);
    assert!(engine.assert_calls(NO_CALLS));
}

#[test]
fn test_find_prefixes_negative_class_start() {
    let scanner = parse("[!a]*/foo");
    let mut engine = engine(&["b/foo", "c/foo", "xyz/foo", "a/foo"]);
    let prefixes = prefixes(&scanner, &mut engine);
    assert!(prefixes == vec!["b/foo", "c/foo", "xyz/foo"]);
    assert!(engine.assert_calls(&[("", "/")]));
}

#[test]
fn test_find_prefixes_negative_class_after_wildcard() {
    let scanner = parse("*[!f]oo");
    let mut engine = engine(&["zoo", "boo", "foo", "something/foo"]);
    let prefixes = prefixes(&scanner, &mut engine);
    assert!(prefixes == vec!["boo", "zoo"]);
}

#[test]
fn test_find_prefixes_negative_class_between_alternations() {
    let scanner = parse("{foo,bar}[!z]*/baz");
    let mut engine = engine(&["foo-abc/baz", "bar-def/baz", "fooz/baz", "barz/baz", "other/baz"]);
    let prefixes = prefixes(&scanner, &mut engine);
    assert!(prefixes == vec!["foo-abc/baz", "bar-def/baz"]);
    assert!(engine.assert_calls(&[("foo", "/"), ("bar", "/")]));
}

#[test]
fn test_find_prefixes_multiple_negative_classes() {
    let scanner = parse("[!a]*[!b]/foo");
    let mut engine = engine(&["c-x/foo", "d-y/foo", "a-b/foo", "a-x/foo", "c-b/foo"]);
    let prefixes = prefixes(&scanner, &mut engine);
    assert!(prefixes == vec!["c-x/foo", "d-y/foo"]);
    assert!(engine.assert_calls(&[("", "/")]));
}

#[test]
fn test_find_prefixes_negative_class_with_delimiter() {
    let scanner = parse("foo/[!/]/bar");
    assert_eq!(one_choice(&scanner.parts()[0]), "foo/");
    assert_eq!(any_raw(&scanner.parts()[1]), "[!/]");
    assert_eq!(one_choice(&scanner.parts()[2]), "/bar");
    let mut engine = engine(&["foo/x/bar", "foo/a/bar", "foo//bar", "foo/a/b/bar", "foo///bar"]);
    let prefixes = prefixes(&scanner, &mut engine);
    assert!(prefixes == vec!["foo/a/bar", "foo/x/bar"]);
    assert!(engine.assert_calls(&[("foo/", "/")]));
}

#[test]
fn test_find_prefixes_complex_negative_pattern() {
    let scanner = parse("*{foo,bar}*[!Z]/baz");
    let mut engine = engine(&["x-foo-a/baz", "y-bar-b/baz", "x-foo-Z/baz", "y-bar-Z/baz", "x-baz-a/baz"]);
    let prefixes = prefixes(&scanner, &mut engine);
    assert!(prefixes == vec!["x-foo-a/baz", "y-bar-b/baz"]);
}

#[test]
fn planned_prefixes_cover_matching_keys() {
    let keys = [
        "prefix/2024-01/file1.txt",
        "prefix/2024-02/file2.txt",
        "prefix/2024-03/nested/file3.txt",
        "prefix/2024-03/file4.txt",
        "other/2024-01/file5.txt",
    ];
    for pattern in ["prefix/2024-*/file*.txt", "prefix/2024-*/**", "prefix/2024-{01,03}/*", "*/2024-01/*"] {
        let scanner = parse(pattern);
        let mut engine = engine(&keys);
        let planned = prefixes(&scanner, &mut engine);
        for key in keys {
            if scanner.is_match(key) {
                assert!(planned.iter().any(|p| key.starts_with(p.as_str())), "{key} escapes {planned:?} for {pattern}");
            }
        }
    }
}

#[test]
fn mock_listing_splits_prefixes_and_objects() {
    let engine = engine(&["a/b/c", "a/d", "a/b/e", "a/", "b"]);
    let r = engine.scan_prefixes_inner("a/", "/");
    assert_eq!(r.prefixes, vec!["a/b/", "a/b/"]);
    let keys: Vec<&str> = r.objects.iter().map(|o| o.key.as_str()).collect();
    assert_eq!(keys, vec!["a/d", "a/"]);
    assert_eq!(r.len(), 4);
    let engine = engine_of(&["b/x", "a/y"]);
    assert_eq!(engine.scan_prefixes_inner("", "/").prefixes, vec!["b/", "a/"]);
}

#[test]
fn mock_checks_existence_of_prefixes() {
    let mut engine = engine(&["a/b", "c"]);
    let found = engine.check_prefixes(&vec!["a/".to_string(), "x".to_string(), "c".to_string()]).unwrap();
    assert_eq!(found, vec!["a/", "c"]);
    assert!(engine.assert_calls(NO_CALLS));
    assert!(!engine.assert_calls(&[("a/", "/")]));
}

#[test]
fn completeness_follows_the_last_segment() {
    assert!(parse("src/foo/bar").is_complete());
    assert!(!parse("src/*").is_complete());
    assert!(!parse("src/**/x").is_complete());
    assert!(parse("src/*/x").is_complete());
}

#[test]
fn planned_prefixes_cover_every_match_across_patterns() {
    let keys = [
        "a", "b", "a/b", "a/c/d", "ab/b", "b/x", "c/x", "x/y1/w", "x/z/w", "x/q/w", "x/y/z/w", "src/foo/baz",
        "src/foo-quux/baz", "src/bar/baz", "dir/", "dir/f",
    ];
    let patterns = [
        "*", "*/*", "a/*", "a*/b", "{a,b}/*", "[!a]*/x", "a/**", "?/b", "a/*/d", "*a*/b", "x/{y,z}*/w",
        "x/*/w", "x/**/w", "src/{foo,bar}*/baz", "[a-c]/*", "*/*/*", "dir/", "{a,x}/*{1,}/w", "*{b,x}",
    ];
    for pattern in patterns {
        let scanner = parse(pattern);
        let mut engine = engine(&keys);
        let planned = prefixes(&scanner, &mut engine);
        for key in keys {
            if scanner.is_match(key) {
                assert!(
                    planned.iter().any(|p| key.starts_with(p.as_str())),
                    "{key} matches {pattern} but escapes {planned:?}"
                );
            }
        }
    }
}
