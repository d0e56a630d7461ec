use s3glob::glob::{parse_pattern, Glob, PatternError};
use s3glob::matcher::S3GlobMatcher;

fn parse(raw: &str) -> S3GlobMatcher {
    match S3GlobMatcher::parse(raw.to_string(), "/") {
        Ok(m) => m,
        Err(e) => panic!("parse of {raw:?} failed: {}", e.message()),
    }
}

fn parse_err(raw: &str) -> PatternError {
    match S3GlobMatcher::parse(raw.to_string(), "/") {
        Ok(m) => panic!("parse of {raw:?} succeeded with {} parts", m.parts().len()),
        Err(e) => e,
    }
}

fn choice(g: &Glob) -> Vec<String> {
    match g {
        Glob::Choice { allowed, .. } => allowed.clone(),
        other => panic!("expected a choice, got {}", other.display()),
    }
}

fn one_choice(g: &Glob) -> String {
    let c = choice(g);
    assert_eq!(c.len(), 1, "expected one choice, got {c:?}");
    c[0].clone()
}

fn any_raw(g: &Glob) -> String {
    match g {
        Glob::Any { raw, .. } => raw.clone(),
        other => panic!("expected an any, got {}", other.display()),
    }
}

fn re(g: &Glob) -> regex::Regex {
    regex::Regex::new(&g.re_string('/')).unwrap()
}

fn check_matches(g: &Glob, yes: &[&str], no: &[&str]) {
    let r = re(g);
    for m in yes {
        assert!(r.is_match(m), "regex {} failed to match {m:?}", r.as_str());
    }
    for m in no {
        assert!(!r.is_match(m), "regex {} unexpectedly matched {m:?}", r.as_str());
    }
}

fn strs(v: &[&str]) -> Vec<String> {
    v.iter().map(|s| s.to_string()).collect()
}

#[test]
fn glob_test_parse_basic() {
    let scanner = parse("hello*world");
    assert_eq!(choice(&scanner.parts()[0]), strs(&["hello"]));
    assert_eq!(any_raw(&scanner.parts()[1]), "*");
    assert_eq!(choice(&scanner.parts()[2]), strs(&["world"]));
    assert!(scanner.parts().len() == 3);
}

#[test]
fn glob_matcher_test_parse_basic() {
    let scanner = parse("hello*world");
    assert_eq!(choice(&scanner.parts()[0]), strs(&["hello"]));
    assert_eq!(any_raw(&scanner.parts()[1]), "*");
    assert_eq!(choice(&scanner.parts()[2]), strs(&["world"]));
    assert!(scanner.parts().len() == 3);
}

#[test]
fn glob_test_parse_multiple_glob() {
    let scanner = parse("/{a,b}*/");
    assert_eq!(choice(&scanner.parts()[0]), strs(&["/a", "/b"]));
    assert_eq!(any_raw(&scanner.parts()[1]), "*");
    assert_eq!(one_choice(&scanner.parts()[2]), "/");
    assert!(matches!(scanner.parts()[3], Glob::SyntheticAny));
    assert!(scanner.parts().len() == 4);
}

#[test]
fn glob_test_parse_alternation() {
    let scanner = parse("src/{foo,bar}/test");
    assert_eq!(choice(&scanner.parts()[0]), strs(&["src/foo/test", "src/bar/test"]));
    assert!(scanner.parts().len() == 1);
}

#[test]
fn glob_matcher_test_parse_alternation() {
    let scanner = parse("src/{foo,bar}/test");
    assert_eq!(choice(&scanner.parts()[0]), strs(&["src/foo/test", "src/bar/test"]));
    assert!(scanner.parts().len() == 1);
}

#[test]
fn glob_test_parse_character_class() {
    let scanner = parse("test[abc]file");
    assert_eq!(choice(&scanner.parts()[0]), strs(&["testafile", "testbfile", "testcfile"]));
    assert!(scanner.parts().len() == 1);
}

#[test]
fn glob_matcher_test_parse_character_class() {
    let scanner = parse("test[abc]file");
    assert_eq!(choice(&scanner.parts()[0]), strs(&["testafile", "testbfile", "testcfile"]));
    assert!(scanner.parts().len() == 1);
}

fn check_recursive(raw: &str) {
    let scanner = parse(raw);
    println!("scanner_parts for {}: {}", scanner.raw(), scanner.parts().len());
    assert!(scanner.parts().len() == 5);
    assert_eq!(one_choice(&scanner.parts()[0]), "src/");
    assert!(matches!(scanner.parts()[1], Glob::Recursive));
    check_matches(&scanner.parts()[1], &["foo/bar", "foo/bar/baz", ""], &[]);
    assert_eq!(one_choice(&scanner.parts()[2]), "/");
    assert_eq!(any_raw(&scanner.parts()[3]), "*");
    check_matches(&scanner.parts()[3], &["something_long"], &[]);
}

#[test]
fn glob_test_parse_recursive_glob() {
    check_recursive("src/**/*.rs");
}

#[test]
fn glob_matcher_test_parse_recursive_glob() {
    check_recursive("src/**/*.rs");
}

fn check_class_with_bracket() {
    let scanner = parse("test[]a]file");
    assert_eq!(choice(&scanner.parts()[0]), strs(&["test]file", "testafile"]));
    check_matches(&scanner.parts()[0], &["test]file", "testafile"], &["test-file", "b", ""]);
}

#[test]
fn glob_test_parse_character_class_with_bracket() {
    check_class_with_bracket();
}

#[test]
fn glob_matcher_test_parse_character_class_with_bracket() {
    check_class_with_bracket();
}

fn check_negated_class() {
    let scanner = parse("test[!a]file");
    assert_eq!(any_raw(&scanner.parts()[1]), "[!a]");
    check_matches(&scanner.parts()[1], &["/", "B"], &["a"]);
}

#[test]
fn glob_test_parse_negated_character_class() {
    check_negated_class();
}

#[test]
fn glob_matcher_test_parse_negated_character_class() {
    check_negated_class();
}

fn check_negation_and_bracket() {
    let scanner = parse("test[!]]file");
    assert_eq!(any_raw(&scanner.parts()[1]), "[!]]");
    check_matches(&scanner.parts()[1], &["a", "b", "["], &["]", ""]);
}

#[test]
fn glob_test_parse_character_class_with_negation_and_bracket() {
    check_negation_and_bracket();
}

#[test]
fn glob_matcher_test_parse_character_class_with_negation_and_bracket() {
    check_negation_and_bracket();
}

fn check_choice_after_any() {
    let scanner = parse("literal/*{foo,bar}/baz");
    assert_eq!(one_choice(&scanner.parts()[0]), "literal/");
    assert_eq!(any_raw(&scanner.parts()[1]), "*");
    assert_eq!(choice(&scanner.parts()[2]), strs(&["foo/baz", "bar/baz"]));
    assert!(scanner.parts().len() == 3);
}

#[test]
fn glob_test_parse_choice_after_any() {
    check_choice_after_any();
}

#[test]
fn glob_matcher_test_parse_choice_after_any() {
    check_choice_after_any();
}

fn check_literal_after_any() {
    let scanner = parse("literal/*foo/baz");
    assert!(scanner.parts().len() == 3);
    assert_eq!(one_choice(&scanner.parts()[0]), "literal/");
    assert_eq!(any_raw(&scanner.parts()[1]), "*");
    assert_eq!(choice(&scanner.parts()[2]), strs(&["foo/baz"]));
}

#[test]
fn glob_test_parse_literal_after_any_with_delimiter() {
    check_literal_after_any();
}

#[test]
fn glob_matcher_test_parse_literal_after_any_with_delimiter() {
    check_literal_after_any();
}

#[test]
fn test_parse_character_range() {
    let scanner = parse("[a-c]");
    assert_eq!(choice(&scanner.parts()[0]), strs(&["a", "b", "c"]));
}

#[test]
fn test_parse_numeric_range() {
    let scanner = parse("[0-2]");
    assert_eq!(choice(&scanner.parts()[0]), strs(&["0", "1", "2"]));
}

#[test]
fn test_parse_multiple_ranges() {
    let scanner = parse("[a-c0-2]");
    assert_eq!(choice(&scanner.parts()[0]), strs(&["a", "b", "c", "0", "1", "2"]));
}

#[test]
fn test_parse_range_with_single_chars() {
    let scanner = parse("[a-cx]");
    assert_eq!(choice(&scanner.parts()[0]), strs(&["a", "b", "c", "x"]));
}

#[test]
fn test_parse_range_with_dash_at_start() {
    let scanner = parse("[-a-c]");
    assert_eq!(choice(&scanner.parts()[0]), strs(&["-", "a", "b", "c"]));
}

#[test]
fn test_parse_range_with_dash_at_end() {
    let scanner = parse("[a-c-]");
    assert_eq!(choice(&scanner.parts()[0]), strs(&["a", "b", "c", "-"]));
}

#[test]
fn test_parse_range_missing_end() {
    let scanner = parse("[a-]");
    assert_eq!(choice(&scanner.parts()[0]), strs(&["a", "-"]));
}

#[test]
fn test_parse_range_with_negation() {
    let scanner = parse("[!a-c]");
    assert_eq!(any_raw(&scanner.parts()[0]), "[!a-c]");
    check_matches(&scanner.parts()[0], &["d", "x", "0"], &["a", "b", "c"]);
}

#[test]
fn test_parse_range_end_less_than_start() {
    let err_msg = parse_err("[c-a]").message();
    println!("err_msg: {err_msg}");
    assert!(err_msg.contains("Range is invalid (end <= start): c-a in [c-a"));
}

#[test]
fn test_parse_negated_dash() {
    let scanner = parse("[!-]");
    assert_eq!(any_raw(&scanner.parts()[0]), "[!-]");
    check_matches(&scanner.parts()[0], &["a", "b", "1", "[", "]"], &["-"]);
}

#[test]
fn test_parse_unicode_range() {
    let scanner = parse("[α-γ]");
    assert_eq!(choice(&scanner.parts()[0]), strs(&["α", "β", "γ"]));
}

#[test]
fn test_parse_unicode_with_ascii_range() {
    let scanner = parse("[A-Cα-γ]");
    assert_eq!(choice(&scanner.parts()[0]), strs(&["A", "B", "C", "α", "β", "γ"]));
}

#[test]
fn test_parse_emoji_range() {
    let scanner = parse("[😀-😃]");
    assert_eq!(choice(&scanner.parts()[0]), strs(&["😀", "😁", "😂", "😃"]));
}

#[test]
fn test_parse_unclosed_character_class() {
    let err_msg = parse_err("[a-c").message();
    println!("err_msg: {err_msg}");
    assert!(err_msg.contains("Alternation has no closing bracket (missing ']'): [a-c"));
}

#[test]
fn test_parse_empty_character_class() {
    let err_msg = parse_err("[]").message();
    println!("err_msg: {err_msg}");
    assert!(err_msg.contains("Empty character class: []"));
}

#[test]
fn test_parse_range_dash_only() {
    let scanner = parse("[-]");
    assert_eq!(choice(&scanner.parts()[0]), strs(&["-"]));
}

#[test]
fn unclosed_alternation_is_an_error() {
    let e = parse_err("{a,b");
    assert!(matches!(e, PatternError::UnclosedAlternation { .. }));
    assert_eq!(e.message(), "Alternation has no closing brace (missing '}'): {a,b");
}

#[test]
fn unclosed_range_is_an_error() {
    let e = parse_err("[a-");
    assert!(matches!(e, PatternError::RangeNotClosed { .. }));
    assert_eq!(e.message(), "Range is not closed: [a-");
}

#[test]
fn dash_at_either_end_of_class_is_literal() {
    let scanner = parse("[-a]");
    assert_eq!(choice(&scanner.parts()[0]), strs(&["-", "a"]));
    let scanner = parse("[a-]");
    assert_eq!(choice(&scanner.parts()[0]), strs(&["a", "-"]));
}

#[test]
fn single_constructs_parse_alone() {
    let g = parse_pattern("**/x").unwrap();
    assert!(matches!(g, Glob::Recursive));
    assert_eq!(g.pattern_len(), 2);
    let g = parse_pattern("{a,,b}c").unwrap();
    assert_eq!(choice(&g), strs(&["a", "", "b"]));
    assert_eq!(g.raw(), "{a,,b}");
    assert_eq!(g.pattern_len(), 6);
    let g = parse_pattern("?").unwrap();
    assert_eq!(g.display(), "Any(?)");
    assert_eq!(g.re_string('/'), ".");
}

#[test]
fn range_class_and_alternation_compile_alike() {
    let class = parse("x/[a-c]");
    let alt = parse("x/{a,b,c}");
    assert_eq!(class.regex(), alt.regex());
    assert_eq!(class.regex(), "^(x/a|x/b|x/c)$");
    for key in ["x/a", "x/b", "x/c", "x/d", "x/ab", "y/a"] {
        assert_eq!(class.is_match(key), alt.is_match(key));
    }
}

#[test]
fn raw_texts_spell_the_pattern() {
    for raw in ["src/{foo,bar}*/baz", "a/[!x]?/**/*.rs", "dir/", "[a-c]{x,y}z"] {
        let m = parse(raw);
        let joined: String = m.parts().iter().map(|p| p.raw()).collect();
        assert_eq!(joined, raw);
    }
}

#[test]
fn literal_choices_are_escaped_in_the_regex() {
    let m = parse("a.b/*");
    assert_eq!(m.regex(), "^a\\.b/[^/]*$");
    assert!(m.is_match("a.b/c"));
    assert!(!m.is_match("axb/c"));
    assert!(!m.is_match("a.b/c/d"));
}

#[test]
fn matching_follows_the_compiled_regex() {
    let m = parse("prefix/2024-*/file*.txt");
    assert!(m.is_match("prefix/2024-01/file1.txt"));
    assert!(m.is_match("prefix/2024-03/file4.txt"));
    assert!(!m.is_match("prefix/2024-03/nested/file3.txt"));
    assert!(!m.is_match("other/2024-01/file5.txt"));
    let m = parse("prefix/2024-*/**");
    assert!(m.is_match("prefix/2024-03/nested/file3.txt"));
    assert!(!m.is_match("other/2024-01/file5.txt"));
}

#[test]
fn trailing_delimiter_adds_synthetic_any() {
    let m = parse("a/");
    assert!(matches!(m.parts()[1], Glob::SyntheticAny));
    assert!(m.is_match("a/b"));
    assert!(!m.is_match("a/b/c"));
}

#[test]
fn expression_refused_by_the_regex_engine_is_an_error() {
    let e = parse_err("x[!\\]");
    match &e {
        PatternError::InvalidRegex { regex } => assert_eq!(regex, "^x[^\\]$"),
        other => panic!("expected an invalid regex, got {other:?}"),
    }
    assert!(e.message().starts_with("Pattern does not compile to a regular expression: "));
}
