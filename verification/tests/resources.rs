//! Whether the resources of rules resolve.

use adblock_rust_compat::filters::{parse, CosmeticRule, NetworkRule, ParsedRule};
use adblock_rust_compat::resources::{
    accepts_args, can_resolve, scriptlet_body, scriptlet_verdict, strip_priority, ResourceChecker,
    ResourceEntry, ResourceError, ResourceStatus,
};

/// A few resources in the format of the embedded list.
const RESOURCES: &str = r#"[
  {
    "name": "set-constant.js",
    "aliases": ["set.js"],
    "kind": {"mime": "application/javascript"},
    "content": "ZnVuY3Rpb24gc2V0Q29uc3RhbnQoKSB7fQ==",
    "dependencies": ["helper.fn"]
  },
  {
    "name": "helper.fn",
    "aliases": [],
    "kind": {"mime": "fn/javascript"},
    "content": "ZnVuY3Rpb24gaGVscGVyKCkge30="
  },
  {
    "name": "json-prune.js",
    "aliases": [],
    "kind": "template",
    "content": "KGZ1bmN0aW9uKCkgeyAne3sxfX0nOyB9KSgp"
  },
  {
    "name": "trusted-set-cookie.js",
    "aliases": [],
    "kind": {"mime": "application/javascript"},
    "content": "ZnVuY3Rpb24gdHJ1c3RlZFNldENvb2tpZSgpIHt9",
    "permission": 1
  },
  {
    "name": "noop-1s.mp4",
    "aliases": ["noopmp4-1s", "abp-resource:blank-mp4"],
    "kind": {"mime": "video/mp4"},
    "content": "AAAA"
  },
  {
    "name": "noop.js",
    "aliases": ["noopjs", "abp-resource:blank-js"],
    "kind": {"mime": "application/javascript"},
    "content": "KGZ1bmN0aW9uKCkge30pKCk="
  }
]"#;

fn checker() -> ResourceChecker {
    ResourceChecker::from_embedded(RESOURCES).expect("the resources should be read")
}

fn status(rule: &str) -> ResourceStatus {
    let (parsed, _, error) = parse(rule);
    let parsed = parsed.unwrap_or_else(|| panic!("expected {rule:?} to parse, got {error:?}"));
    assert!(can_resolve(&parsed, rule));
    checker().check_rule(&parsed, rule)
}

#[test]
fn embedded_resources_deserialize() {
    let _ = checker();
}

#[test]
fn known_scriptlet_resolves() {
    assert_eq!(
        status("youtube.com##+js(set, foo.bar, undefined)"),
        ResourceStatus::Resolved
    );
    assert_eq!(
        status("youtube.com##+js(json-prune, adPlacements)"),
        ResourceStatus::Resolved
    );
}

#[test]
fn unknown_scriptlet_is_missing() {
    assert_eq!(
        status("youtube.com##+js(this-scriptlet-does-not-exist-xyz, 1)"),
        ResourceStatus::Missing
    );
}

#[test]
fn known_redirect_resolves() {
    assert_eq!(
        status("||youtube.com/get_video$media,redirect=noopmp4-1s"),
        ResourceStatus::Resolved
    );
}

#[test]
fn abp_resource_redirect_resolves() {
    // `abp-resource:NAME` is an alias that the engine keeps verbatim; the colon is part
    // of the name and must not be stripped before the resource lookup. `$rewrite` is another
    // name for `$redirect`, which not every version of the engine knows.
    let rule = "||googlevideo.com/videoplayback?$rewrite=abp-resource:blank-mp4";
    let parsed = ParsedRule::Network(NetworkRule {
        hostname: Some("googlevideo.com".to_string()),
        opt_domains: None,
        modifier_option: Some("abp-resource:blank-mp4".to_string()),
        redirect: true,
        complete_regex: false,
        pattern: Some("/videoplayback?".to_string()),
    });
    assert_eq!(
        checker().check_rule(&parsed, rule),
        ResourceStatus::Resolved
    );
    assert_eq!(
        status("||googlevideo.com/videoplayback?$redirect=abp-resource:blank-mp4"),
        ResourceStatus::Resolved
    );
}

#[test]
fn redirect_with_numeric_priority_resolves() {
    assert_eq!(
        status("||x.com^$redirect=noopjs:5"),
        ResourceStatus::Resolved
    );
}

#[test]
fn unknown_redirect_is_missing() {
    assert_eq!(
        status("||x.com^$redirect=nonexistent-resource-xyz"),
        ResourceStatus::Missing
    );
}

#[test]
fn plain_rules_are_not_applicable() {
    assert_eq!(status("||ads.youtube.com^"), ResourceStatus::NotApplicable);
    assert_eq!(
        status("youtube.com##.ytp-ad-module"),
        ResourceStatus::NotApplicable
    );
}

#[test]
fn cosmetic_selector_mentioning_redirect_is_not_a_redirect_rule() {
    // The literal "redirect=" in a hide selector must not be treated as a redirect.
    assert_eq!(
        status(r#"youtube.com##a[href*="redirect="]"#),
        ResourceStatus::NotApplicable
    );
}

#[test]
fn scriptlet_body_extraction() {
    assert_eq!(
        scriptlet_body("youtube.com##+js(set, a, 1)"),
        Some("set, a, 1")
    );
    assert_eq!(scriptlet_body("||ads.youtube.com^"), None);
}

#[test]
fn scriptlet_bodies_at_the_edges() {
    assert_eq!(scriptlet_body("a.com##+js()"), Some(""));
    assert_eq!(scriptlet_body("a)##+js("), Some(""));
    assert_eq!(scriptlet_body("a.com##+js(x"), None);
    assert_eq!(scriptlet_body("a.com##+js(f(1), ü)) "), Some("f(1), ü)"));
    assert_eq!(scriptlet_body("+js(a)##+js(b)"), Some("a)##+js(b"));
}

#[test]
fn a_privileged_scriptlet_requires_permission() {
    assert_eq!(
        status("a.com##+js(trusted-set-cookie, x, 1)"),
        ResourceStatus::RequiresPermission
    );
}

#[test]
fn a_scriptlet_without_a_name_is_missing() {
    assert_eq!(status("a.com#@#+js()"), ResourceStatus::Missing);
    // A resource for dependencies is not injectable.
    assert_eq!(status("a.com##+js(helper.fn)"), ResourceStatus::Missing);
}

#[test]
fn only_scriptlets_and_redirects_need_resources() {
    let c = checker();
    let cosmetic = ParsedRule::Cosmetic(CosmeticRule {
        hostnames: None,
        entities: None,
        not_hostnames: None,
        not_entities: None,
        script_inject: false,
    });
    assert_eq!(
        c.check_rule(&cosmetic, "a.com##+js(set, a)"),
        ResourceStatus::NotApplicable
    );
    let network = |modifier_option: Option<String>, redirect: bool| {
        ParsedRule::Network(NetworkRule {
            hostname: None,
            opt_domains: None,
            modifier_option,
            redirect,
            complete_regex: false,
            pattern: None,
        })
    };
    assert_eq!(
        c.check_rule(&network(Some("nothing".to_string()), false), ""),
        ResourceStatus::NotApplicable
    );
    assert_eq!(c.check_rule(&network(None, true), ""), ResourceStatus::NotApplicable);
    assert_eq!(
        c.check_rule(&network(Some("noop.js".to_string()), true), ""),
        ResourceStatus::Resolved
    );
}

#[test]
fn priorities_are_stripped_if_they_are_numbers() {
    assert_eq!(strip_priority("noopjs:5"), "noopjs");
    assert_eq!(strip_priority("noopjs:100"), "noopjs");
    assert_eq!(strip_priority("noopjs:"), "noopjs:");
    assert_eq!(strip_priority("noopjs:5x"), "noopjs:5x");
    assert_eq!(strip_priority("abp-resource:blank-js"), "abp-resource:blank-js");
    assert_eq!(strip_priority("abp-resource:blank-js:7"), "abp-resource:blank-js");
    assert_eq!(strip_priority("a:1:2"), "a:1");
    assert_eq!(strip_priority("noopjs"), "noopjs");
    assert_eq!(
        status("||x.com^$redirect=abp-resource:blank-js:7"),
        ResourceStatus::Resolved
    );
}

#[test]
fn verdicts_on_scriptlets() {
    assert_eq!(scriptlet_verdict(true, true), ResourceStatus::Resolved);
    assert_eq!(scriptlet_verdict(true, false), ResourceStatus::Resolved);
    assert_eq!(
        scriptlet_verdict(false, true),
        ResourceStatus::RequiresPermission
    );
    assert_eq!(scriptlet_verdict(false, false), ResourceStatus::Missing);
}

#[test]
fn arguments_are_accepted_as_in_a_rule() {
    assert!(accepts_args("set, a, 1"));
    assert!(accepts_args(""));
    assert!(accepts_args("'quoted', x"));
    assert!(!accepts_args("'open"));
    assert!(!accepts_args("'a' b"));
}

#[test]
fn a_malformed_list_of_resources_is_refused() {
    for json in ["", "{}", "[{}]", "[1]"] {
        assert!(matches!(
            ResourceChecker::from_embedded(json),
            Err(ResourceError::Malformed)
        ));
    }
    assert!(ResourceChecker::from_embedded("[]").is_ok());
}

fn entry(name: &str, aliases: &[&str], dependencies: &[&str]) -> ResourceEntry {
    ResourceEntry {
        name: name.to_string(),
        aliases: aliases.iter().map(|s| s.to_string()).collect(),
        mime: Some("application/javascript".to_string()),
        content: "ZnVuY3Rpb24gZigpIHt9".to_string(),
        dependencies: dependencies.iter().map(|s| s.to_string()).collect(),
        permission: 0,
    }
}

fn status_among(entries: Vec<ResourceEntry>, rule: &str) -> ResourceStatus {
    let (parsed, _, _) = parse(rule);
    ResourceChecker::from_resources(entries)
        .unwrap_or_else(|e| panic!("{e:?}"))
        .check_rule(&parsed.unwrap(), rule)
}

#[test]
fn dependencies_are_followed() {
    // A circle of primary names is no hindrance.
    let circle = vec![entry("a.js", &["x.js"], &["b.js"]), entry("b.js", &[], &["a.js"])];
    assert_eq!(status_among(circle, "a.com##+js(x)"), ResourceStatus::Resolved);
    // An alias serves as a dependency, too.
    let alias = vec![
        entry("a.js", &["x.js"], &[]),
        entry("b.js", &["y.js"], &["x.js"]),
        entry("c.js", &[], &["y.js", "x.js"]),
    ];
    assert_eq!(status_among(alias, "a.com##+js(c)"), ResourceStatus::Resolved);
    // Half of a circle by aliases ends.
    let half = vec![entry("a.js", &["x.js"], &["b.js"]), entry("b.js", &["y.js"], &["x.js"])];
    assert_eq!(status_among(half, "a.com##+js(b)"), ResourceStatus::Resolved);
    let lost = vec![entry("a.js", &[], &["nowhere.js"])];
    assert_eq!(status_among(lost, "a.com##+js(a)"), ResourceStatus::Missing);
}

#[test]
fn circles_of_aliases_are_refused() {
    let itself = vec![entry("a.js", &["x.js"], &["x.js"])];
    let two = vec![
        entry("c.js", &[], &["x.js"]),
        entry("a.js", &["x.js"], &["y.js"]),
        entry("b.js", &["y.js"], &["x.js"]),
    ];
    let three = vec![
        entry("a.js", &["x.js"], &["y.js"]),
        entry("b.js", &["y.js"], &["z.js"]),
        entry("c.js", &["z.js"], &["a.js", "x.js"]),
    ];
    for entries in [itself, two, three] {
        assert!(matches!(
            ResourceChecker::from_resources(entries),
            Err(ResourceError::AliasCircle)
        ));
    }
}

#[test]
fn text_that_the_engine_did_not_accept_cannot_be_looked_up() {
    let (parsed, _, _) = parse("a.com##+js(set, a, 1)");
    let parsed = parsed.unwrap();
    assert!(can_resolve(&parsed, "a.com##+js(set, a, 1)"));
    assert!(!can_resolve(&parsed, "a.com##+js('open)"));
    assert!(can_resolve(&parsed, "no body"));
}
