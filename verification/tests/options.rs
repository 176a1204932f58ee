//! The options and types that are read off rules.

use adblock_rust_compat::options::rule_options;

#[test]
fn network_modifiers() {
    assert_eq!(
        rule_options("||a.com^$script,third-party"),
        vec!["script", "third-party"]
    );
    // `~` negation stripped; option name only
    assert_eq!(rule_options("||a.com^$~third-party"), vec!["third-party"]);
    // `domain=` value dropped, name kept
    assert_eq!(
        rule_options("||a.com^$script,domain=x.com|y.com"),
        vec!["script", "domain"]
    );
    // a comma inside replace=/.../ doesn't produce a junk option
    assert_eq!(
        rule_options(r#"||a.com^$xhr,replace=/"a","b"/"#),
        vec!["xhr", "replace"]
    );
    // no options
    assert!(rule_options("||ads.com^").is_empty());
}

#[test]
fn cosmetic_kinds() {
    assert_eq!(rule_options("youtube.com##.ad"), vec!["elemhide"]);
    assert_eq!(
        rule_options("youtube.com##+js(set, a, 1)"),
        vec!["scriptlet"]
    );
    assert_eq!(
        rule_options("youtube.com#@#.ad"),
        vec!["elemhide", "exception"]
    );
    assert_eq!(rule_options("a.com#?#.x:has(.y)"), vec!["procedural"]);
    assert_eq!(rule_options("a.com#$#body { color: red }"), vec!["style"]);
    assert_eq!(rule_options("a.com#%#//scriptlet"), vec!["js"]);
}

#[test]
fn procedural_operators_in_hash_rules() {
    // Modern procedural cosmetics use `##` plus an operator, not the `#?#` separator.
    assert_eq!(
        rule_options(r#"facebook.com##.ego_section:if(a[href^="/ad_campaign"])"#),
        vec!["procedural"]
    );
    assert_eq!(rule_options("a.com##.x:has-text(Ad)"), vec!["procedural"]);
    assert_eq!(rule_options("a.com##.x:upward(2)"), vec!["procedural"]);
    // exception + procedural
    assert_eq!(
        rule_options("a.com#@#.x:matches-css(display: none)"),
        vec!["procedural", "exception"]
    );
    // native :has()/:not() are not procedural on their own
    assert_eq!(rule_options("a.com##.x:has(.y)"), vec!["elemhide"]);
    assert_eq!(rule_options("a.com##.x:not(.y)"), vec!["elemhide"]);
    // a style rule that is also procedural
    assert_eq!(
        rule_options("a.com#$?#.x:upward(1) { display: none }"),
        vec!["style", "procedural"]
    );
}

#[test]
fn style_injection_via_hash_block() {
    // `##selector { declarations }` is CSS injection, not element hiding.
    assert_eq!(
        rule_options("twitch.tv##.ad_lower-third {height:100% !important;}"),
        vec!["style"]
    );
    // exception form
    assert_eq!(
        rule_options("a.com#@#.x { display: none }"),
        vec!["style", "exception"]
    );
    // a scriptlet whose args contain braces is still a scriptlet, not style
    assert_eq!(rule_options("a.com##+js(set, x, {})"), vec!["scriptlet"]);
    // plain element hiding (no block) stays elemhide
    assert_eq!(rule_options("a.com##.ad"), vec!["elemhide"]);
}

#[test]
fn style_and_remove_actions() {
    // remove: both the `:remove()` and the ABP `{remove: true;}` forms
    assert_eq!(rule_options("a.com##.x:remove()"), vec!["remove"]);
    assert_eq!(rule_options("a.com##.x {remove: true;}"), vec!["remove"]);
    // style: `:style()` and the ABP `{css}` form (not mis-tagged procedural)
    assert_eq!(
        rule_options("a.com##.x:style(background: #fff !important;)"),
        vec!["style"]
    );
    assert_eq!(rule_options("a.com##.x {background: #fff;}"), vec!["style"]);
    // procedural matching + a remove action together
    assert_eq!(
        rule_options("a.com#?#div:-abp-properties(width: 46px):remove()"),
        vec!["remove", "procedural"]
    );
    // :remove-attr() / :remove-class() are matching-ish ops, not the remove action
    assert_eq!(
        rule_options("a.com##.x:remove-attr(foo)"),
        vec!["procedural"]
    );
}

#[test]
fn every_separator_is_found() {
    assert_eq!(rule_options("a.com#@$?#x {a:b}"), vec!["style", "procedural", "exception"]);
    assert_eq!(rule_options("a.com#@$#x {a:b}"), vec!["style", "exception"]);
    assert_eq!(rule_options("a.com#@?#x"), vec!["procedural", "exception"]);
    assert_eq!(rule_options("a.com#@%#x"), vec!["js", "exception"]);
    assert_eq!(rule_options("a.com#$?#x"), vec!["style", "procedural"]);
    assert_eq!(rule_options("a.com#%#x"), vec!["js"]);
    // a lone `#` is no separator
    assert!(rule_options("||a.com/#fragment").is_empty());
    assert!(rule_options("#").is_empty());
    // the first separator counts
    assert_eq!(rule_options("a.com##.x#@#.y"), vec!["elemhide"]);
}

#[test]
fn options_are_small_distinct_and_trimmed() {
    assert_eq!(
        rule_options("  ||a.com^$Script, ~SCRIPT ,third-party = x,script\t"),
        vec!["script", "third-party"]
    );
    // only the first `$` starts the options
    assert_eq!(rule_options("||a.com^$csp=a$b,xhr"), vec!["csp", "xhr"]);
    assert!(rule_options("||a.com^$").is_empty());
    assert!(rule_options("||a.com^$~,=x,a_b").is_empty());
}

#[test]
fn remove_blocks_are_read_loosely() {
    assert_eq!(rule_options("a.com##.x { Remove :\ttrue ;; }"), vec!["remove"]);
    assert_eq!(rule_options("a.com##.x }remove: true{"), vec!["style"]);
    assert_eq!(rule_options("a.com##.x {remove: true; color: red}"), vec!["style"]);
    assert_eq!(rule_options("a.com##+js(x, {remove: true})"), vec!["scriptlet"]);
}

#[test]
fn commas_in_values_between_slashes_add_no_option() {
    assert_eq!(rule_options("||a.com^$replace=/x,y,z/"), vec!["replace"]);
    assert_eq!(rule_options("||a.com^$xhr,replace=/x,y,z/gi,script"), vec!["xhr", "replace", "script"]);
    // pattern and replacement
    assert_eq!(rule_options("||a.com^$replace=/a/b,c,d/"), vec!["replace"]);
    assert_eq!(rule_options("||a.com^$replace=/a,b,c/d,e,f/g,1p"), vec!["replace", "1p"]);
    assert_eq!(rule_options("||a.com^$replace=/a/,b,c/,1p"), vec!["replace", "1p"]);
    assert_eq!(rule_options("||a.com^$uritransform=/a,b/c,d,e/"), vec!["uritransform"]);
    // an escaped slash is part of the value
    assert_eq!(rule_options(r"||a.com^$replace=/x\/,y,z/q,r,s/,1p"), vec!["replace", "1p"]);
    assert_eq!(rule_options(r"||a.com^$replace=/x\\/,y,z/,1p"), vec!["replace", "1p"]);
    // other options
    assert_eq!(rule_options("||a.com^$removeparam=/^a{1,b}/i,1p"), vec!["removeparam", "1p"]);
    assert_eq!(
        rule_options("||a.com^$removeparam=/x,y,z/,domain=/p,q,r/ , 3p"),
        vec!["removeparam", "domain", "3p"]
    );
    assert_eq!(
        rule_options("||a.com^$replace=/x,y,z/,removeparam=/q,r/"),
        vec!["replace", "removeparam"]
    );
}

#[test]
fn values_that_are_not_closed_end_at_the_comma() {
    assert_eq!(rule_options("||a.com^$replace=/x,y"), vec!["replace", "y"]);
    // a path is no pattern
    assert_eq!(
        rule_options("||a.com^$xmlprune=/a/b,script,domain=/re/"),
        vec!["xmlprune", "script", "domain"]
    );
    assert_eq!(
        rule_options("||a.com^$path=/foo,script,domain=/re/"),
        vec!["path", "script", "domain"]
    );
    assert_eq!(rule_options(r"||a.com^$replace=/x,y\"), vec!["replace"]);
    assert_eq!(rule_options("||a.com^$csp=x/y,z/"), vec!["csp"]);
}

#[test]
fn options_without_a_pattern_end_at_the_comma() {
    assert_eq!(
        rule_options("||x.com^$redirect=/a,domain=youtube.com,rewrite=/"),
        vec!["redirect", "domain", "rewrite"]
    );
    assert_eq!(rule_options("||x.com^$csp=/a,b,c/"), vec!["csp", "b"]);
    assert_eq!(rule_options("||x.com^$~Domain=/a,b,c/,1p"), vec!["domain", "1p"]);
}

#[test]
fn capitals_in_network_rules_do_not_count() {
    for rule in [
        "||a.com^$Script,~third-party,domain=x.com",
        "||a.com^$replace=/x,y,z/gi,1p",
        "||a.com^$urltransform=/a,b/c,d/G,Xhr",
        "||a.com^$replace=/a/b,c/d",
        "||a.com^",
    ] {
        let options = rule_options(rule);
        assert_eq!(rule_options(&rule.to_ascii_uppercase()), options);
        assert_eq!(rule_options(&rule.to_ascii_lowercase()), options);
    }
}
