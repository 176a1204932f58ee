//! Lists, rules and the reports on them.

use adblock_rust_compat::domains::{DomainMatcher, Relation};
use adblock_rust_compat::filters::{
    option_accepted, option_supported, parse, parts, ParseOutcome, ParsedRule,
};
use adblock_rust_compat::lists::{
    is_filter_line, list_rules, list_tokens, resolve_list, EASYLIST_URL, EASYPRIVACY_URL, UBO_URL,
};
use adblock_rust_compat::report::{
    collect_reports, report_rule, source_label, support, try_collect_reports, RuleReport, Source,
};
use adblock_rust_compat::resources::ResourceChecker;

/// A few resources in the format of the embedded list.
const RESOURCES: &str = r#"[
  {
    "name": "set-constant.js",
    "aliases": ["set.js"],
    "kind": {"mime": "application/javascript"},
    "content": "ZnVuY3Rpb24gc2V0Q29uc3RhbnQoKSB7fQ=="
  },
  {
    "name": "trusted-set-cookie.js",
    "aliases": [],
    "kind": {"mime": "application/javascript"},
    "content": "ZnVuY3Rpb24gdHJ1c3RlZFNldENvb2tpZSgpIHt9",
    "permission": 1
  }
]"#;

fn checker() -> ResourceChecker {
    ResourceChecker::from_embedded(RESOURCES).expect("the resources should be read")
}

fn source(name: &str, text: &str) -> Source {
    Source {
        name: name.into(),
        label: name.into(),
        text: text.into(),
    }
}

fn rules(reports: &[RuleReport]) -> Vec<&str> {
    reports.iter().map(|r| r.rule.as_str()).collect()
}

#[test]
fn resolve_list_presets_and_urls() {
    assert_eq!(resolve_list("ubo").unwrap(), UBO_URL);
    assert_eq!(resolve_list("easylist").unwrap(), EASYLIST_URL);
    assert_eq!(resolve_list("easyprivacy").unwrap(), EASYPRIVACY_URL);
    assert_eq!(
        resolve_list("https://example.com/list.txt").unwrap(),
        "https://example.com/list.txt"
    );
    assert!(resolve_list("nonsense").is_err());
    // A stray flag captured as a value (e.g. `--list --json`) is rejected.
    assert!(resolve_list("--json").is_err());
}

#[test]
fn sources_recorded_and_deduped_across_lists() {
    let resources = checker();
    let sources = vec![
        Source {
            name: "a".into(),
            label: "a".into(),
            text: "||x.com^\n||shared.com^\n".into(),
        },
        Source {
            name: "b".into(),
            label: "b".into(),
            text: "||shared.com^\n||y.com^\n".into(),
        },
    ];
    // No domain filter, no option filter: every unique rule is kept.
    let reports = collect_reports(&sources, None, None, false, &resources);
    assert_eq!(reports.len(), 3);

    let shared = reports.iter().find(|r| r.rule == "||shared.com^").unwrap();
    assert_eq!(shared.sources, vec!["a", "b"]); // present in both, in source order
    let x = reports.iter().find(|r| r.rule == "||x.com^").unwrap();
    assert_eq!(x.sources, vec!["a"]);
    let y = reports.iter().find(|r| r.rule == "||y.com^").unwrap();
    assert_eq!(y.sources, vec!["b"]);
}

#[test]
fn option_filter_keeps_only_matching_rules() {
    let resources = checker();
    let sources = vec![Source {
        name: "a".into(),
        label: "a".into(),
        text: "||a.com^$replace=/x/y/\n||b.com^$script\n||c.com^\nd.com##.ad\n".into(),
    }];
    let reports = collect_reports(&sources, None, Some("replace"), false, &resources);
    assert_eq!(reports.len(), 1);
    assert_eq!(reports[0].rule, "||a.com^$replace=/x/y/");
}

#[test]
fn probe_populates_unsupported_options() {
    let resources = checker();
    let sources = vec![Source {
        name: "a".into(),
        label: "a".into(),
        text: "||a.com^$popup,domain=x.com\n||b.com^$script\nc.com##.x {color:red}\n".into(),
    }];
    let reports = collect_reports(&sources, None, None, true, &resources);

    // unsupported network -> only the failing option (not `domain`)
    let popup = reports.iter().find(|r| r.rule.contains("popup")).unwrap();
    assert_eq!(popup.unsupported_options, vec!["popup"]);
    // supported network -> empty
    let script = reports
        .iter()
        .find(|r| r.rule == "||b.com^$script")
        .unwrap();
    assert!(script.unsupported_options.is_empty());
    // unsupported cosmetic -> its type
    let cosmetic = reports.iter().find(|r| r.rule.contains("##")).unwrap();
    assert_eq!(cosmetic.unsupported_options, vec!["style"]);
}

#[test]
fn no_probe_leaves_unsupported_options_empty() {
    let resources = checker();
    let sources = vec![Source {
        name: "a".into(),
        label: "a".into(),
        text: "||a.com^$popup\n".into(),
    }];
    let reports = collect_reports(&sources, None, None, false, &resources);
    assert!(reports[0].unsupported_options.is_empty());
}

#[test]
fn list_tokens_split_and_repeat() {
    // comma-separated, repeated, and a mix all expand to individual tokens
    assert_eq!(
        list_tokens(&["ubo,easylist".to_string()]),
        vec!["ubo", "easylist"]
    );
    assert_eq!(
        list_tokens(&["ubo".to_string(), "easylist".to_string()]),
        vec!["ubo", "easylist"]
    );
    assert_eq!(
        list_tokens(&[" ubo , easyprivacy ".to_string(), "easylist".to_string()]),
        vec!["ubo", "easyprivacy", "easylist"]
    );
    // empties and stray commas are dropped
    assert_eq!(list_tokens(&["ubo,,".to_string()]), vec!["ubo"]);
    assert!(list_tokens(&[]).is_empty());
}

#[test]
fn supported_network_rule() {
    let (parsed, ty, err) = parse("||ads.youtube.com^");
    assert!(parsed.is_some());
    assert_eq!(ty, Some("network"));
    assert!(err.is_none());
}

#[test]
fn supported_cosmetic_rule() {
    let (parsed, ty, err) = parse("youtube.com##.ytp-ad-module");
    assert!(parsed.is_some());
    assert_eq!(ty, Some("cosmetic"));
    assert!(err.is_none());
}

#[test]
fn rejected_replace_rule_reports_reason() {
    let rule = r#"||www.youtube.com/watch?$xhr,1p,replace=/"adPlacements"/"no_ads"/"#;
    let (parsed, ty, err) = parse(rule);
    assert!(parsed.is_none());
    assert_eq!(ty, Some("network"));
    assert!(
        err.as_deref().unwrap_or("").contains("Unrecognised"),
        "expected an UnrecognisedOption error, got {err:?}"
    );
}

#[test]
fn unsupported_when_scriptlet_resource_missing() {
    let resources = checker();
    let rule = "youtube.com##+js(this-scriptlet-does-not-exist-xyz)";
    let (parsed, _ty, parse_error) = parse(rule);
    assert!(parsed.is_some(), "rule should parse");
    let (supported, reason) = support(rule, &parsed, parse_error, &resources);
    assert!(!supported);
    assert_eq!(reason.as_deref(), Some("resource missing"));
}

#[test]
fn supported_when_parses_and_resource_resolves() {
    let resources = checker();
    let rule = "youtube.com##+js(set, foo, 1)";
    let (parsed, _ty, parse_error) = parse(rule);
    let (supported, reason) = support(rule, &parsed, parse_error, &resources);
    assert!(supported);
    assert!(reason.is_none());
}

#[test]
fn comment_and_header_lines_are_not_filters() {
    assert!(!is_filter_line("! a comment"));
    assert!(!is_filter_line("[Adblock Plus 2.0]"));
    assert!(!is_filter_line(""));
    assert!(is_filter_line("||youtube.com^"));
}

#[test]
fn option_supported_classifies_network_options() {
    // recognised options (valueless and value-taking)
    assert!(option_supported("script"));
    assert!(option_supported("third-party"));
    assert!(option_supported("1p"));
    assert!(option_supported("domain"));
    assert!(option_supported("redirect"));
    // unrecognised by the engine
    assert!(!option_supported("popup"));
    assert!(!option_supported("replace"));
    assert!(!option_supported("rewrite"));
}

#[test]
fn unknown_lists_are_named() {
    assert_eq!(
        resolve_list("nonsense"),
        Err(
            "unknown list 'nonsense': use ubo, easylist, easyprivacy, or an http(s) URL"
                .to_string()
        )
    );
    assert_eq!(resolve_list("http://x"), Ok("http://x".to_string()));
    assert!(resolve_list("ftp://x").is_err());
    assert!(resolve_list("UBO").is_err());
}

#[test]
fn tokens_are_the_same_repeated_or_joined() {
    let joined = list_tokens(&["a,b , c".to_string()]);
    let repeated = list_tokens(&["a".to_string(), "b ".to_string(), " c".to_string()]);
    assert_eq!(joined, repeated);
    assert_eq!(joined, vec!["a", "b", "c"]);
}

#[test]
fn rules_are_the_trimmed_lines() {
    assert_eq!(
        list_rules("[Adblock Plus]\r\n! note\r\n\r\n  ||a.com^ \r\n\u{3000}b.com##.ad\n!x\n||c.com^"),
        vec!["||a.com^", "b.com##.ad", "||c.com^"]
    );
    assert!(list_rules("").is_empty());
    assert!(list_rules("\n \n\t!\n").is_empty());
}

#[test]
fn the_parts_of_each_outcome() {
    let text = |o: ParseOutcome| {
        let (parsed, ty, reason) = parts(o);
        (parsed.is_some(), ty, reason)
    };
    assert_eq!(
        text(ParseOutcome::UnrecognisedOption),
        (false, Some("network"), Some("UnrecognisedOption".to_string()))
    );
    assert_eq!(
        text(ParseOutcome::NetworkError("X".to_string())),
        (false, Some("network"), Some("X".to_string()))
    );
    assert_eq!(
        text(ParseOutcome::CosmeticError("Y".to_string())),
        (false, Some("cosmetic"), Some("Y".to_string()))
    );
    assert_eq!(
        text(ParseOutcome::Unsupported),
        (false, None, Some("unsupported".to_string()))
    );
    assert_eq!(
        text(ParseOutcome::Empty),
        (false, None, Some("empty".to_string()))
    );
    assert!(!option_accepted(&ParseOutcome::UnrecognisedOption));
    assert!(option_accepted(&ParseOutcome::Empty));
}

#[test]
fn the_engine_names_its_errors() {
    let reason = |rule: &str| {
        let (parsed, ty, reason) = parse(rule);
        assert!(parsed.is_none());
        (ty, reason.unwrap())
    };
    assert_eq!(
        reason("||a.com^$popup"),
        (Some("network"), "UnrecognisedOption".to_string())
    );
    assert_eq!(
        reason("||a.com^$~important"),
        (Some("network"), "NegatedImportant".to_string())
    );
    assert_eq!(
        reason("a.com##^script"),
        (Some("cosmetic"), "HtmlFilteringUnsupported".to_string())
    );
    assert_eq!(reason("! comment"), (None, "unsupported".to_string()));
    assert_eq!(reason("  "), (None, "empty".to_string()));
}

#[test]
fn what_the_engine_reads_in_a_rule() {
    match parse("||a.com/x$redirect=noopjs:5,domain=b.com").0 {
        Some(ParsedRule::Network(n)) => {
            assert_eq!(n.hostname.as_deref(), Some("a.com"));
            assert_eq!(
                n.opt_domains,
                Some(vec![adblock::utils::fast_hash("b.com")])
            );
            assert_eq!(n.modifier_option.as_deref(), Some("noopjs:5"));
            assert!(n.redirect);
            assert!(!n.complete_regex);
        }
        _ => panic!("a network rule"),
    }
    match parse("/ad[0-9]/$match-case").0 {
        Some(ParsedRule::Network(n)) => {
            assert!(n.complete_regex);
            assert_eq!(n.pattern.as_deref(), Some("/ad[0-9]/"));
            assert!(!n.redirect);
        }
        _ => panic!("a network rule"),
    }
    match parse("a.com,~b.com,c.*,~d.*##+js(set, x, 1)").0 {
        Some(ParsedRule::Cosmetic(c)) => {
            assert_eq!(c.hostnames, Some(vec![adblock::utils::fast_hash("a.com")]));
            assert_eq!(c.not_hostnames, Some(vec![adblock::utils::fast_hash("b.com")]));
            assert_eq!(c.entities, Some(vec![adblock::utils::fast_hash("c")]));
            assert_eq!(c.not_entities, Some(vec![adblock::utils::fast_hash("d")]));
            assert!(c.script_inject);
        }
        _ => panic!("a cosmetic rule"),
    }
}

#[test]
fn reports_hang_together() {
    let resources = checker();
    let matcher = DomainMatcher::new(&["example.com"]);
    let list = "||example.com^\nexample.com##+js(nope)\nexample.com##+js(trusted-set-cookie, a)\n\
                ||other.com^\n||x.com^$popup,domain=example.com\n~example.com##.ad\n";
    let sources = vec![source("a", list), source("b", "||example.com^\n"), source("a", list)];
    let reports = collect_reports(&sources, Some(&matcher), None, true, &resources);
    assert_eq!(
        rules(&reports),
        vec![
            "||example.com^",
            "example.com##+js(nope)",
            "example.com##+js(trusted-set-cookie, a)",
            "||x.com^$popup,domain=example.com",
        ]
    );
    assert_eq!(reports[0].sources, vec!["a", "b"]);
    assert_eq!(reports[0].relations, vec![Relation::Target]);
    assert!(reports[0].supported);
    assert_eq!(reports[0].filter_type, Some("network"));
    assert_eq!(reports[0].reason, None);
    assert_eq!(reports[1].relations, vec![Relation::Scope]);
    assert_eq!(reports[1].reason.as_deref(), Some("resource missing"));
    assert_eq!(reports[1].unsupported_options, vec!["scriptlet"]);
    assert_eq!(
        reports[2].reason.as_deref(),
        Some("resource requires permission")
    );
    assert_eq!(reports[3].relations, vec![Relation::Scope]);
    assert_eq!(reports[3].reason.as_deref(), Some("UnrecognisedOption"));
    assert_eq!(reports[3].unsupported_options, vec!["popup"]);

    // Without filters every rule is there, with the same verdicts.
    let all = collect_reports(&sources, None, None, false, &resources);
    assert_eq!(all.len(), 6);
    assert!(all.iter().all(|r| r.relations.is_empty()));
    for r in &reports {
        let same = all.iter().find(|a| a.rule == r.rule).unwrap();
        assert_eq!(same.supported, r.supported);
        assert_eq!(same.reason, r.reason);
    }
}

/// What a report says, apart from its relations and what it blames.
fn gist(r: &RuleReport) -> (&str, &[String], bool, Option<&'static str>, Option<&str>) {
    (r.rule.as_str(), &r.sources, r.supported, r.filter_type, r.reason.as_deref())
}

#[test]
fn filters_choose_among_the_reports_in_order() {
    let resources = checker();
    let matcher = DomainMatcher::new(&["example.com"]);
    let sources = vec![
        source("a", "||z.com^$script\n||example.com^$popup\nexample.com##.ad\n||y.com^$popup"),
        source("b", "||y.com^$popup\n||example.com^$script,popup\n~example.com##.ad"),
    ];
    let all = collect_reports(&sources, None, None, true, &resources);

    let related = collect_reports(&sources, Some(&matcher), None, true, &resources);
    assert_eq!(
        rules(&related),
        vec!["||example.com^$popup", "example.com##.ad", "||example.com^$script,popup"]
    );
    for r in &related {
        let same = all.iter().find(|a| a.rule == r.rule).unwrap();
        assert_eq!(gist(same), gist(r));
        assert_eq!(same.unsupported_options, r.unsupported_options);
        assert!(same.relations.is_empty() && !r.relations.is_empty());
    }

    let popup = collect_reports(&sources, None, Some("popup"), true, &resources);
    let expected: Vec<&RuleReport> = all.iter().filter(|r| r.rule.contains("popup")).collect();
    assert_eq!(popup.len(), 3);
    for (r, e) in popup.iter().zip(expected) {
        assert_eq!(gist(r), gist(e));
        assert_eq!(r.unsupported_options, e.unsupported_options);
    }
    assert!(collect_reports(&sources, None, Some("Popup"), true, &resources).is_empty());
}

#[test]
fn probing_changes_only_what_is_blamed() {
    let resources = checker();
    let sources = vec![source("a", "||a.com^$popup\n||b.com^\nc.com##+js(nope)")];
    let plain = collect_reports(&sources, None, None, false, &resources);
    let probed = collect_reports(&sources, None, None, true, &resources);
    assert_eq!(plain.len(), probed.len());
    for (a, b) in plain.iter().zip(&probed) {
        assert_eq!(gist(a), gist(b));
        assert_eq!(a.relations, b.relations);
        assert!(a.unsupported_options.is_empty());
    }
    assert_eq!(probed[0].unsupported_options, vec!["popup"]);
    assert_eq!(probed[2].unsupported_options, vec!["scriptlet"]);
}

#[test]
fn more_sources_only_add() {
    let resources = checker();
    let first = vec![source("a", "||x.com^\n||y.com^")];
    let both = vec![source("a", "||x.com^\n||y.com^"), source("b", "||z.com^\n||y.com^")];
    let a = collect_reports(&first, None, None, false, &resources);
    let b = collect_reports(&both, None, None, false, &resources);
    assert_eq!(rules(&a), vec!["||x.com^", "||y.com^"]);
    assert_eq!(rules(&b), vec!["||x.com^", "||y.com^", "||z.com^"]);
    assert_eq!(b[1].sources, vec!["a", "b"]);
    assert_eq!(b[2].sources, vec!["b"]);
    assert_eq!(source_label(&both), "a, b");
    assert_eq!(source_label(&[]), "");
}

#[test]
fn an_outcome_decides_the_report() {
    let resources = checker();
    let report = |outcome: ParseOutcome, probe: bool| {
        report_rule("||a.com^$popup,xhr", outcome, None, None, probe, &resources)
    };
    let refused = report(ParseOutcome::UnrecognisedOption, true).unwrap();
    assert!(!refused.supported);
    assert_eq!(refused.unsupported_options, vec!["popup"]);
    assert!(refused.sources.is_empty());
    let typeless = report(ParseOutcome::Empty, true).unwrap();
    assert_eq!(typeless.filter_type, None);
    assert_eq!(typeless.unsupported_options, vec!["popup", "xhr"]);
    let quiet = report(ParseOutcome::NetworkError("E".to_string()), false).unwrap();
    assert_eq!(quiet.reason.as_deref(), Some("E"));
    assert!(quiet.unsupported_options.is_empty());
    assert!(report_rule("||a.com^", ParseOutcome::Empty, None, Some("xhr"), false, &resources)
        .is_none());
    let matcher = DomainMatcher::new(&["b.com"]);
    assert!(report_rule("||a.com^", ParseOutcome::Empty, Some(&matcher), None, false, &resources)
        .is_none());
    assert!(report_rule("||b.com^", ParseOutcome::Empty, Some(&matcher), None, false, &resources)
        .is_some());
}

#[test]
fn rules_that_cannot_be_looked_up_are_found_beforehand() {
    let resources = checker();
    let fine = vec![source("a", "a.com##+js(set, x, 1)\n||b.com^\n")];
    let reports = try_collect_reports(&fine, None, None, false, &resources).unwrap();
    assert_eq!(rules(&reports), vec!["a.com##+js(set, x, 1)", "||b.com^"]);
    // The text that is taken for the arguments starts before the separator.
    let odd = vec![source("a", "||b.com^\n+js('x,a.com##+js(set, x, 1)\n")];
    assert!(parse("+js('x,a.com##+js(set, x, 1)").0.is_some());
    assert!(try_collect_reports(&odd, None, None, false, &resources).is_none());
    // It does not matter where the scan does not keep the rule.
    assert!(try_collect_reports(&odd, None, Some("xhr"), false, &resources).is_some());
    let matcher = DomainMatcher::new(&["b.com"]);
    let kept = try_collect_reports(&odd, Some(&matcher), None, false, &resources).unwrap();
    assert_eq!(rules(&kept), vec!["||b.com^"]);
}
