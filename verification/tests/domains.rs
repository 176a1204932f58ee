//! How rules relate to domains.

use adblock::lists::{parse_filter, ParseOptions};
use adblock_rust_compat::domains::{
    cosmetic_separator, pattern_anchor_host, split_network_options, DomainMatcher, Relation,
};
use adblock_rust_compat::filters::{parse, CosmeticRule, NetworkRule, ParsedRule};

const YT: &[&str] = &[
    "youtube.com",
    "youtu.be",
    "youtube-nocookie.com",
    "ytimg.com",
    "googlevideo.com",
    "ggpht.com",
    "www.youtube.com",
    "m.youtube.com",
    "music.youtube.com",
    "i.ytimg.com",
];

fn matcher() -> DomainMatcher {
    DomainMatcher::new(YT)
}

fn parsed(rule: &str) -> ParsedRule {
    let (parsed, _, error) = parse(rule);
    parsed.unwrap_or_else(|| panic!("expected {rule:?} to parse, got {error:?}"))
}

fn rels_parsed(rule: &str) -> Vec<Relation> {
    matcher().relations_parsed(&parsed(rule))
}

fn rels_raw(rule: &str) -> Vec<Relation> {
    matcher().relations_raw(rule)
}

#[test]
fn host_matching_is_boundary_safe() {
    let m = matcher();
    assert!(m.host_in_set("youtube.com"));
    assert!(m.host_in_set("www.youtube.com"));
    assert!(m.host_in_set("r3---sn-abc.googlevideo.com"));
    assert!(m.host_in_set("i.ytimg.com"));
    assert!(!m.host_in_set("notyoutube.com"));
    assert!(!m.host_in_set("youtube.com.evil.com"));
    assert!(!m.host_in_set("example.com"));
}

#[test]
fn matcher_is_domain_agnostic() {
    let fb = DomainMatcher::new(&["facebook.com", "fbcdn.net"]);
    assert!(fb.host_in_set("static.fbcdn.net"));
    assert!(!fb.host_in_set("youtube.com"));
    assert_eq!(
        fb.relations_raw("||ads.example.com^$domain=facebook.com"),
        vec![Relation::Scope]
    );
}

#[test]
fn network_hostname_anchor_is_target() {
    assert_eq!(
        rels_parsed("||www.youtube.com/watch^"),
        vec![Relation::Target]
    );
    assert_eq!(rels_parsed("||ads.youtube.com^"), vec![Relation::Target]);
    assert_eq!(rels_parsed("||r3.googlevideo.com^"), vec![Relation::Target]);
}

#[test]
fn network_domain_option_is_scope_not_target() {
    assert_eq!(
        rels_parsed("||ads.example.com^$domain=youtube.com"),
        vec![Relation::Scope]
    );
}

#[test]
fn non_matching_network_rule_has_no_relations() {
    assert!(rels_parsed("||ads.example.com^").is_empty());
    assert!(rels_parsed("||doubleclick.net^$domain=cnn.com").is_empty());
}

#[test]
fn cosmetic_hostname_scope() {
    assert_eq!(
        rels_parsed("youtube.com##.ytp-ad-module"),
        vec![Relation::Scope]
    );
}

#[test]
fn cosmetic_entity_scope() {
    assert_eq!(rels_parsed("youtube.*##.ad"), vec![Relation::Scope]);
}

#[test]
fn cosmetic_excluded_domain_is_not_a_match() {
    assert!(rels_parsed("~youtube.com,~m.youtube.com##.ad").is_empty());
}

#[test]
fn generic_cosmetic_rule_is_not_a_match() {
    assert!(rels_parsed("##.ad-banner").is_empty());
}

#[test]
fn raw_replace_rule_targets_domain() {
    let rule = r#"||www.youtube.com/watch?$xhr,1p,replace=/"adPlacements"/"no_ads"/"#;
    assert!(parse_filter(rule, true, ParseOptions::default()).is_err());
    assert_eq!(rels_raw(rule), vec![Relation::Target]);
}

#[test]
fn raw_denyallow_domain_is_not_a_match() {
    let rule = "*$frame,denyallow=facebook.com|google.com|youtube.com,domain=foxseotools.com";
    assert!(rels_raw(rule).is_empty());
}

#[test]
fn raw_negated_domain_is_not_scope() {
    assert!(rels_raw("||ads.example.com^$domain=~youtube.com").is_empty());
}

#[test]
fn raw_cosmetic_scope_and_exclusion() {
    assert_eq!(
        rels_raw("m.youtube.com,www.youtube.com##.ad"),
        vec![Relation::Scope]
    );
    assert!(rels_raw("~youtube.com##.ad").is_empty());
}

#[test]
fn raw_network_domain_scope() {
    assert_eq!(
        rels_raw("||ads.example.com^$script,domain=youtube.com|other.com"),
        vec![Relation::Scope]
    );
}

#[test]
fn cosmetic_separator_detection() {
    assert_eq!(cosmetic_separator("youtube.com##.ad"), Some(11));
    assert_eq!(cosmetic_separator("youtube.com#@#.ad"), Some(11));
    assert_eq!(cosmetic_separator("youtube.com#$#scriptlet"), Some(11));
    assert_eq!(cosmetic_separator("||youtube.com^$third-party"), None);
}

#[test]
fn split_network_options_on_first_dollar() {
    assert_eq!(
        split_network_options("||a.com^$script,third-party"),
        ("||a.com^", "script,third-party")
    );
    assert_eq!(split_network_options("||a.com^"), ("||a.com^", ""));
}

#[test]
fn pattern_anchor_host_extraction() {
    assert_eq!(
        pattern_anchor_host("||www.youtube.com/watch?"),
        Some("www.youtube.com")
    );
    assert_eq!(pattern_anchor_host("||youtube.com^"), Some("youtube.com"));
    assert_eq!(pattern_anchor_host("||youtube.com"), Some("youtube.com"));
    assert_eq!(pattern_anchor_host("*"), None);
    assert_eq!(pattern_anchor_host("/ads/banner"), None);
}

#[test]
fn anchors_end_at_each_delimiter() {
    for end in ["^", "/", "*", "?", ":"] {
        assert_eq!(pattern_anchor_host(&format!("||ü.com{end}x")), Some("ü.com"));
    }
    assert_eq!(pattern_anchor_host("||^"), None);
    assert_eq!(pattern_anchor_host("||"), None);
    assert_eq!(pattern_anchor_host("|a.com"), None);
}

#[test]
fn separators_are_found_by_byte() {
    assert_eq!(cosmetic_separator("ü.com##.ad"), Some(6));
    assert_eq!(cosmetic_separator("日本.jp,a.com#@$?#.ad"), Some(15));
    assert_eq!(cosmetic_separator("##.ad"), Some(0));
    assert_eq!(cosmetic_separator(""), None);
    assert_eq!(split_network_options("ü$日$x"), ("ü", "日$x"));
}

#[test]
fn hosts_match_in_any_spelling_and_below() {
    let m = DomainMatcher::new(&[" Example.COM. ", "", "...", "b.example.org"]);
    assert!(m.host_in_set("example.com"));
    assert!(m.host_in_set("EXAMPLE.com.."));
    assert!(m.host_in_set("deep.down.Example.com"));
    assert!(!m.host_in_set("notexample.com"));
    assert!(!m.host_in_set("com"));
    assert!(!m.host_in_set(""));
    assert!(m.host_in_set("a.b.example.org"));
    assert!(!m.host_in_set("example.org"));
}

#[test]
fn tokens_match_hosts_and_entities() {
    let m = DomainMatcher::new(&["example.com", "b.example.org"]);
    assert!(m.token_matches(" Example.com "));
    assert!(m.token_matches("sub.example.com"));
    assert!(m.token_matches("example.*"));
    // The bare label hashes as the entity does.
    assert!(m.token_matches("example"));
    // A domain of three labels has no entity.
    assert!(!m.token_matches("b.*"));
    assert!(m.token_matches("b.example.org"));
    assert!(!m.token_matches("other.*"));
}

#[test]
fn target_comes_before_scope_and_stands_once() {
    assert_eq!(
        rels_raw("||youtube.com^$domain=youtube.com|m.youtube.com,domain=youtu.be,foo"),
        vec![Relation::Target, Relation::Scope]
    );
    assert_eq!(
        rels_parsed("||youtube.com^$domain=youtube.com|m.youtube.com"),
        vec![Relation::Target, Relation::Scope]
    );
}

#[test]
fn an_exclusion_outweighs_what_is_named() {
    assert!(rels_raw("youtube.com, ~ m.youtube.com ,a.com##.ad").is_empty());
    assert_eq!(rels_raw(" ,youtube.com,~a.com##.ad"), vec![Relation::Scope]);
    assert!(rels_raw("##.ad").is_empty());
    // An entry is read without the space around it, and an empty one names nothing.
    assert_eq!(
        rels_raw("/x$foo , domain= ~a.com | youtube.* |"),
        vec![Relation::Scope]
    );
    assert!(rels_raw("/x$Domain=youtube.com").is_empty());
}

#[test]
fn hashes_are_those_of_the_engine() {
    let m = DomainMatcher::new(&["example.com"]);
    let hash = adblock::utils::fast_hash("example.com");
    let label = adblock::utils::fast_hash("example");
    let network = |opt_domains: Option<Vec<u64>>| {
        m.relations_parsed(&ParsedRule::Network(NetworkRule {
            hostname: None,
            opt_domains,
            modifier_option: None,
            redirect: false,
            complete_regex: false,
            pattern: None,
        }))
    };
    assert_eq!(network(Some(vec![1, hash])), vec![Relation::Scope]);
    assert_eq!(network(Some(vec![label])), vec![Relation::Scope]);
    assert!(network(Some(vec![1, 2])).is_empty());
    assert!(network(None).is_empty());

    let cosmetic = |hostnames: Option<Vec<u64>>, not_entities: Option<Vec<u64>>| {
        m.relations_parsed(&ParsedRule::Cosmetic(CosmeticRule {
            hostnames,
            entities: None,
            not_hostnames: None,
            not_entities,
            script_inject: false,
        }))
    };
    assert_eq!(cosmetic(Some(vec![hash]), None), vec![Relation::Scope]);
    assert!(cosmetic(Some(vec![hash]), Some(vec![label])).is_empty());
    assert!(cosmetic(None, None).is_empty());
}

#[test]
fn every_domain_option_counts() {
    assert_eq!(
        rels_raw("||x.com^$redirect=/a,domain=youtube.com,rewrite=/"),
        vec![Relation::Scope]
    );
    assert_eq!(
        rels_raw("||a.com^$replace=/x,y/z,w/,domain=youtube.com"),
        vec![Relation::Scope]
    );
}
