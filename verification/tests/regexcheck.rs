//! Full-regex rules: which compile, and what is to blame where they do not.

use adblock_rust_compat::filters::{parse, NetworkRule, ParsedRule};
use adblock_rust_compat::regexcheck::{
    check, classify, push_once, regex_source, unsupported_features, RegexCheck, OTHER,
    REASON_PREFIX,
};

fn source_of(rule: &str) -> Option<String> {
    match parse(rule).0 {
        Some(ParsedRule::Network(n)) => regex_source(&n),
        _ => panic!("rule should parse as a network filter: {rule}"),
    }
}

fn check_rule(rule: &str) -> RegexCheck {
    let source = source_of(rule);
    check(&source.expect("complete-regex rule should yield a regex source"))
}

/// A lookahead rule with match-case.
const RULE_672: &str = r#"/^https?:\/\/(?:[a-z]{2}\.)?[0-9a-z]{5,16}\.[a-z]{3,7}\/[a-z](?=[a-z]{0,25}[0-9A-Z])[0-9a-zA-Z]{3,26}\/\d{3,6}(?:[?&][_a-z0-9]+=[-0-9a-zA-Z]+)*$/$script,3p,redirect-rule=noop.js,match-case"#;
/// A lookahead rule without match-case: the engine lowercases the stored pattern, which must not
/// affect detection.
const RULE_729: &str = r#"/^https?:\/\/(?:[a-z]{2}\.)?[0-9a-z]{5,16}\.[a-z]{3,7}\/[a-z](?=[a-z]{0,25}[0-9A-Z])[0-9a-zA-Z]{3,26}\/\d{4,6}(?:\?[_a-z]=[-0-9a-z]+)?$/$script,3p"#;

#[test]
fn lookahead_rules_are_unsupported() {
    let check = check_rule(RULE_672);
    assert!(!check.supported);
    assert_eq!(check.features, vec!["lookahead"]);

    let check = check_rule(RULE_729);
    assert!(!check.supported);
    assert_eq!(check.features, vec!["lookahead"]);
}

#[test]
fn plain_full_regex_is_supported() {
    let check = check_rule(r"/^https:\/\/f\.vimeocdn.*/$script,3p");
    assert!(check.supported);
    assert!(check.features.is_empty());
}

#[test]
fn non_regex_rule_has_no_regex_source() {
    // Not a complete regex (no slashes): the engine escapes the pattern itself,
    // so it can never fail to compile.
    assert!(source_of(r"||a.com^foo*bar^").is_none());
}

#[test]
fn feature_labels() {
    assert_eq!(unsupported_features("a(?=x)"), vec!["lookahead"]);
    assert_eq!(unsupported_features("a(?!x)"), vec!["negative lookahead"]);
    assert_eq!(unsupported_features("a(?<=x)"), vec!["lookbehind"]);
    assert_eq!(unsupported_features("a(?<!x)"), vec!["negative lookbehind"]);
    assert_eq!(unsupported_features(r"a(b)\1"), vec!["backreference"]);
    // multiple features, first-occurrence order, de-duplicated
    assert_eq!(
        unsupported_features(r"(?<=a)b(?=c)\1(?=d)"),
        vec!["lookbehind", "lookahead", "backreference"]
    );
    // literal occurrences inside character classes are not features
    assert!(unsupported_features("[a(?=b)]").is_empty());
    assert!(unsupported_features(r"[\1]").is_empty());
    // an escaped backslash is not a backreference; `(?<name>` is not a lookbehind
    assert_eq!(unsupported_features(r"a\\1(?=x)"), vec!["lookahead"]);
    assert!(unsupported_features("(?<name>a)b").is_empty());
}

#[test]
fn compile_failure_without_known_feature_falls_back() {
    // Invalid for the regex crate (`a{2,1}` is a reversed repetition range) but with
    // no known lookaround/backreference syntax.
    let check = check("a{2,1}");
    assert!(!check.supported);
    assert_eq!(check.features, vec!["unsupported syntax"]);
}

#[test]
fn valid_patterns_compile() {
    for pattern in [
        "",
        "(?:a|b)+",
        r"^https?://[a-z]+/\d{3}(?:\?q=[a-z]+)?$",
        "(?<name>a)b",
        r"a\/b",
    ] {
        let result = check(pattern);
        assert!(result.supported, "pattern should compile: {pattern}");
        assert!(result.features.is_empty());
    }
}

#[test]
fn unknown_escapes_lose_their_backslash() {
    // `\:` would not compile as it stands.
    assert!(check(r"https\:\/\/x").supported);
    // Unicode mode is off: a Unicode class does not compile.
    assert!(!check(r"\p{Greek}").supported);
}

#[test]
fn sources_are_what_stands_between_slashes() {
    let rule = |complete_regex: bool, pattern: Option<&str>| {
        regex_source(&NetworkRule {
            hostname: None,
            opt_domains: None,
            modifier_option: None,
            redirect: false,
            complete_regex,
            pattern: pattern.map(String::from),
        })
    };
    assert_eq!(rule(true, Some("/a.b/")), Some("a.b".to_string()));
    assert_eq!(rule(true, Some("//")), Some(String::new()));
    assert_eq!(rule(true, Some("/ü/")), Some("ü".to_string()));
    assert_eq!(rule(true, Some("/")), None);
    assert_eq!(rule(true, Some("a/")), None);
    assert_eq!(rule(true, Some("/a")), None);
    assert_eq!(rule(true, None), None);
    assert_eq!(rule(false, Some("/a.b/")), None);
}

#[test]
fn blame_depends_on_whether_the_pattern_compiles() {
    let fine = classify("(?=a)", true);
    assert!(fine.supported);
    assert!(fine.features.is_empty());
    let refused = classify(r"(?!a)\9\0[(?=]\", false);
    assert!(!refused.supported);
    assert_eq!(refused.features, vec!["negative lookahead", "backreference"]);
    assert_eq!(classify("x", false).features, vec![OTHER]);
    assert_eq!(REASON_PREFIX, "unsupported regex");
}

#[test]
fn features_are_pushed_once() {
    let mut features = vec!["lookahead"];
    push_once(&mut features, "lookbehind");
    push_once(&mut features, "lookahead");
    assert_eq!(features, vec!["lookahead", "lookbehind"]);
}
