//! Reports and explanations as text.

use adblock_rust_compat::chars;
use adblock_rust_compat::domains::Relation;
use adblock_rust_compat::explain::{
    explain_outcome, explain_rule, mark_option, try_explain_rule,
};
use adblock_rust_compat::filters::ParseOutcome;
use adblock_rust_compat::order::{sort_positions, SortKey};
use adblock_rust_compat::render::{
    markdown_lines, md_code, md_text, report_lines, source_prefix, table_lines, tag_prefix, tags,
};
use adblock_rust_compat::report::RuleReport;
use adblock_rust_compat::resources::ResourceChecker;

fn report(
    rule: &str,
    sources: &[&str],
    relations: &[Relation],
    filter_type: Option<&'static str>,
    reason: Option<&str>,
) -> RuleReport {
    RuleReport {
        rule: rule.to_string(),
        sources: sources.iter().map(|s| s.to_string()).collect(),
        relations: relations.to_vec(),
        supported: reason.is_none(),
        filter_type,
        reason: reason.map(String::from),
        unsupported_options: Vec::new(),
    }
}

fn sample() -> Vec<RuleReport> {
    vec![
        report("||z.com^", &["a"], &[Relation::Target], Some("network"), None),
        report("q$popup", &["a", "b"], &[Relation::Scope], Some("network"), Some("Unrecognised")),
        report("b|c", &["b"], &[Relation::Target, Relation::Scope], None, Some("empty")),
        report("a$popup", &["a"], &[Relation::Scope], Some("network"), Some("Unrecognised")),
        report("x##.ad", &["b"], &[Relation::Scope], Some("cosmetic"), None),
    ]
}

#[test]
fn tags_and_sources_before_rules() {
    let r = report("r", &["a", "b"], &[Relation::Target, Relation::Scope], None, None);
    assert_eq!(tags(&r), "target+scope");
    assert_eq!(tag_prefix(&r), "[target+scope] ");
    assert_eq!(source_prefix(&r, true), "<a+b> ");
    assert_eq!(source_prefix(&r, false), "");
    let bare = report("r", &[], &[], None, None);
    assert_eq!(tags(&bare), "");
    assert_eq!(tag_prefix(&bare), "");
    assert_eq!(source_prefix(&bare, true), "<> ");
}

#[test]
fn bars_are_escaped_in_cells() {
    assert_eq!(md_text("a|b||c"), "a\\|b\\|\\|c");
    assert_eq!(md_code("||a.com^"), "`\\|\\|a.com^`");
    assert_eq!(md_text(""), "");
}

#[test]
fn tables_have_a_rule_below_the_headers() {
    let headers = vec!["A".to_string(), "B".to_string()];
    let rows = vec![vec!["1".to_string(), "2".to_string()]];
    assert_eq!(table_lines(&headers, &rows), vec!["| A | B |", "|---|---|", "| 1 | 2 |"]);
    assert_eq!(table_lines(&[], &[]), vec!["|  |", "||"]);
}

#[test]
fn the_terminal_report() {
    assert_eq!(
        report_lines(&sample(), true, true, true),
        vec![
            "Matching rules: 5  (target: 2, scope: 4)",
            "Supported:      2",
            "Unsupported:    3",
            "",
            "=== UNSUPPORTED RULES ===",
            "<a> [scope] (Unrecognised) a$popup",
            "<a+b> [scope] (Unrecognised) q$popup",
            "<b> [target+scope] (empty) b|c",
            "",
            "=== SUPPORTED RULES ===",
            "<a> [target] [network] ||z.com^",
            "<b> [scope] [cosmetic] x##.ad",
        ]
    );
    assert_eq!(
        report_lines(&[], true, false, false),
        vec![
            "Rules checked:  0",
            "Supported:      0",
            "Unsupported:    0",
            "",
            "=== SUPPORTED RULES ===",
        ]
    );
    assert_eq!(
        report_lines(&sample()[..1], false, false, false),
        vec!["Rules checked:  1", "Supported:      1", "Unsupported:    0"]
    );
}

#[test]
fn the_markdown_report() {
    let domains = vec!["a.com".to_string(), "b|c".to_string()];
    assert_eq!(
        markdown_lines(&sample(), Some(&domains), "x|y", true, Some("popup")),
        vec![
            "# adblock-rust filter compatibility",
            "",
            "| | |",
            "|---|---|",
            "| Source | x\\|y |",
            "| Domains | a.com, b\\|c |",
            "| Option | popup |",
            "| adblock-rust | 0.12.x |",
            "| Tool | adblock-rust-compat v0.1.0 |",
            "",
            "**5 matching rules** - 2 supported, 3 unsupported (target: 2, scope: 4).",
            "",
            "## Unsupported (3)",
            "",
            "| Source | Tags | Reason | Rule |",
            "|---|---|---|---|",
            "| a | scope | Unrecognised | `a$popup` |",
            "| a+b | scope | Unrecognised | `q$popup` |",
            "| b | target+scope | empty | `b\\|c` |",
            "",
            "## Supported (2)",
            "",
            "| Source | Tags | Type | Rule |",
            "|---|---|---|---|",
            "| b | scope | cosmetic | `x##.ad` |",
            "| a | target | network | `\\|\\|z.com^` |",
        ]
    );
}

#[test]
fn the_markdown_report_ignores_the_order_of_reports() {
    let domains = vec!["a.com".to_string()];
    let lines = markdown_lines(&sample(), Some(&domains), "s", true, None);
    let mut other = sample();
    other.reverse();
    assert_eq!(markdown_lines(&other, Some(&domains), "s", true, None), lines);
    other.swap(0, 3);
    other.rotate_left(2);
    assert_eq!(markdown_lines(&other, Some(&domains), "s", true, None), lines);
}

#[test]
fn the_markdown_report_without_rules() {
    assert_eq!(
        markdown_lines(&[], None, "s", false, None),
        vec![
            "# adblock-rust filter compatibility",
            "",
            "| | |",
            "|---|---|",
            "| Source | s |",
            "| Domains | all (no domain filter) |",
            "| adblock-rust | 0.12.x |",
            "| Tool | adblock-rust-compat v0.1.0 |",
            "",
            "**0 rules checked** - 0 supported, 0 unsupported.",
            "",
            "## Unsupported (0)",
            "",
            "_None._",
            "",
            "## Supported (0)",
            "",
            "_None._",
        ]
    );
}

#[test]
fn positions_are_sorted_by_heading_rule_and_place() {
    let key = |heading: Option<&str>, rule: &str| SortKey {
        heading: heading.map(|h| h.chars().collect()),
        rule: rule.chars().collect(),
    };
    let keys = vec![
        key(Some("b"), "x"),
        key(Some("a"), "y"),
        key(None, "z"),
        key(Some("a"), "x"),
        key(Some("b"), "x"),
        key(Some("ab"), "a"),
        key(None, ""),
    ];
    assert_eq!(sort_positions(&keys, &[0, 1, 2, 3, 4, 5, 6]), vec![6, 2, 3, 1, 5, 0, 4]);
    assert_eq!(sort_positions(&keys, &[4, 2]), vec![2, 4]);
    assert!(sort_positions(&keys, &[]).is_empty());

    // As the standard library sorts.
    let many: Vec<SortKey> = (0..97usize)
        .map(|i| key(Some(&format!("{}", i * 31 % 7)), &format!("{}", i * 17 % 13)))
        .collect();
    let all: Vec<usize> = (0..97).collect();
    let mut expected = all.clone();
    expected.sort_by(|a, b| {
        (&many[*a].heading, &many[*a].rule).cmp(&(&many[*b].heading, &many[*b].rule))
    });
    assert_eq!(sort_positions(&many, &all), expected);
}

fn checker() -> ResourceChecker {
    ResourceChecker::from_embedded("[]").expect("the resources should be read")
}

#[test]
fn explanations_of_rules() {
    assert_eq!(
        explain_rule("  ||a.com^$script \n", false, &checker()),
        vec![
            "Rule:      ||a.com^$script",
            "Type:      network",
            "Supported: yes",
            "Options:   script",
        ]
    );
    assert_eq!(
        explain_rule("||a.com^$popup,script", true, &checker()),
        vec![
            "Rule:      ||a.com^$popup,script",
            "Type:      network",
            "Supported: no (UnrecognisedOption)",
            "Options:   popup (unsupported), script (ok)",
        ]
    );
    assert_eq!(
        explain_rule("a.com##+js(x)", true, &checker()),
        vec![
            "Rule:      a.com##+js(x)",
            "Type:      cosmetic",
            "Supported: no (resource missing)",
            "Options:   scriptlet",
            "Note:      --probe applies to network $options; cosmetic types aren't probed.",
        ]
    );
    assert_eq!(
        explain_rule("", false, &checker()),
        vec![
            "Rule:      ",
            "Type:      unknown",
            "Supported: no (empty)",
            "Options:   (none)",
        ]
    );
}

#[test]
fn explanations_of_outcomes() {
    assert_eq!(
        explain_outcome("a.com#@#.x", ParseOutcome::CosmeticError("E".to_string()), false, &checker()),
        vec![
            "Rule:      a.com#@#.x",
            "Type:      cosmetic",
            "Supported: no (E)",
            "Options:   elemhide, exception",
        ]
    );
    assert_eq!(mark_option("xhr", true), "xhr (ok)");
    assert_eq!(mark_option("popup", false), "popup (unsupported)");
}

#[test]
fn rules_that_cannot_be_looked_up_are_not_explained() {
    assert!(try_explain_rule("+js('x,a.com##+js(set, x, 1)", false, &checker()).is_none());
    assert_eq!(
        try_explain_rule(" ||a.com^", true, &checker()),
        Some(explain_rule("||a.com^", true, &checker()))
    );
}

#[test]
fn characters_as_in_the_standard_library() {
    for c in '\0'..=char::MAX {
        assert_eq!(chars::white_space(c), c.is_whitespace());
        assert_eq!(chars::lower_char(c), c.to_ascii_lowercase());
    }
}

#[test]
fn texts_as_in_the_standard_library() {
    let samples = [
        "", " ", "a", " a ", "\u{a0}x\u{2003}", "aXbXc", "XX", "日本X語", "abcabcab", "|a||b|", "\\/x\\/",
        "aaa", "=a=b", "..a..", "~~a",
    ];
    for s in samples {
        let v: Vec<char> = s.chars().collect();
        let text = |c: &[char]| c.iter().collect::<String>();
        assert_eq!(chars::chars_of(s), v);
        assert_eq!(chars::string_of(&v), s);
        assert_eq!(text(chars::trim(&v)), s.trim());
        assert_eq!(text(chars::strip_front(&v, '~')), s.trim_start_matches('~'));
        assert_eq!(text(chars::strip_back(&v, '.')), s.trim_end_matches('.'));
        assert_eq!(text(&chars::lower(&v)), s.to_ascii_lowercase());
        let pieces: Vec<String> = chars::split(&v, 'X').iter().map(|p| text(p)).collect();
        assert_eq!(pieces, s.split('X').collect::<Vec<_>>());
        assert_eq!(text(chars::before(&v, '=')), s.split('=').next().unwrap());
        let find = |p: &str| s.find(p).map(|i| s[..i].chars().count());
        for part in ["a", "ab", "", "cab", "語", "XX"] {
            let p: Vec<char> = part.chars().collect();
            assert_eq!(chars::find_text(&v, &p), find(part));
            assert_eq!(chars::occurs(&v, &p), s.contains(part));
            assert_eq!(chars::starts_with(&v, &p), s.starts_with(part));
            assert_eq!(chars::ends_with(&v, &p), s.ends_with(part));
            for other in samples {
                let o: Vec<char> = other.chars().collect();
                assert_eq!(chars::precedes(&v, &o), s < other);
                assert_eq!(chars::same(&v, &o), s == other);
                if !p.is_empty() {
                    assert_eq!(text(&chars::replace(&v, &p, &o)), s.replace(part, other));
                }
            }
        }
        assert_eq!(chars::rfind(&v, 'a'), s.rfind('a').map(|i| s[..i].chars().count()));
        assert_eq!(chars::contains(&v, 'X'), s.contains('X'));
    }
    for n in [0usize, 7, 10, 99, 100, 12345, usize::MAX] {
        assert_eq!(chars::string_of(&chars::decimal(n)), n.to_string());
    }
    let parts = vec!["a".to_string(), String::new(), "b".to_string()];
    assert_eq!(chars::string_of(&chars::join(&parts, ", ")), parts.join(", "));
    assert_eq!(chars::string_of(&chars::join(&[], ", ")), "");
}
