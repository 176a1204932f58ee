//! The explanation of a single rule.

use vstd::prelude::*;

use crate::chars;
use crate::filters;
use crate::filters::ParseOutcome;
use crate::options;
use crate::render;
use crate::report;
use crate::resources;
use crate::resources::ResourceChecker;
use crate::text;

verus! {

/// An option with whether the engine knows it.
pub open spec fn marked_option(o: Seq<char>, known: bool) -> Seq<char> {
    o + " ("@ + (if known {
        "ok"@
    } else {
        "unsupported"@
    }) + ")"@
}

/// The options as they are shown: marked where they were probed.
pub open spec fn shown_options(opts: Seq<Seq<char>>, probed: bool) -> Seq<char> {
    if opts.len() == 0 {
        "(none)"@
    } else if probed {
        text::join(
            opts.map_values(|o: Seq<char>| marked_option(o, filters::option_known(o))),
            ", "@,
        )
    } else {
        text::join(opts, ", "@)
    }
}

/// The explanation of a rule, given what the engine says of it: its type, whether it is supported,
/// and the options it uses. With `probe`, the options of a network rule are marked.
pub open spec fn explanation(
    entries: Seq<resources::EntryView>,
    rule: Seq<char>,
    outcome: filters::OutcomeView,
    probe: bool,
) -> Seq<Seq<char>> {
    let (parsed, filter_type, parse_error) = filters::parts_of(outcome);
    let (supported, reason) = report::verdict(entries, rule, parsed, parse_error);
    let network = filter_type == Some("network"@);
    seq![
        "Rule:      "@ + rule,
        "Type:      "@ + render::text_or(filter_type, "unknown"@),
        if supported {
            "Supported: yes"@
        } else {
            "Supported: no ("@ + render::text_or(reason, "?"@) + ")"@
        },
        "Options:   "@ + shown_options(options::options_of(rule), probe && network),
    ] + (if probe && !network {
        seq!["Note:      --probe applies to network $options; cosmetic types aren't probed."@]
    } else {
        Seq::empty()
    })
}

/// Can the resource of a rule be looked up, as the engine reads the rule?
pub open spec fn explainable(rule: Seq<char>) -> bool {
    report::outcome_resolvable(rule, filters::filter_outcome(rule, true))
}

/// An option with whether the engine knows it.
pub fn mark_option(o: &str, known: bool) -> (r: String)
    ensures
        r@ == marked_option(o@, known),
{
    let mut out: Vec<char> = chars::chars_of(o);
    chars::append_str(&mut out, " (");
    let mark: &str = if known {
        "ok"
    } else {
        "unsupported"
    };
    chars::append_str(&mut out, mark);
    chars::append_str(&mut out, ")");
    chars::string_of(out.as_slice())
}

/// The options as they are shown.
fn options_line(opts: &Vec<String>, probed: bool) -> (r: Vec<char>)
    ensures
        r@ == shown_options(text::of_strings(opts@), probed),
{
    let ghost all = text::of_strings(opts@);
    assert(all.len() == opts@.len());
    if opts.len() == 0 {
        return chars::chars_of("(none)");
    }
    if !probed {
        return chars::join(opts.as_slice(), ", ");
    }
    let mut marked: Vec<String> = Vec::new();
    let ghost told = all.map_values(
        |o: Seq<char>| marked_option(o, filters::option_known(o)),
    );
    let n: usize = opts.len();
    let mut i: usize = 0;
    while i < n
        invariant
            i <= n == opts@.len() == told.len(),
            all == text::of_strings(opts@),
            told == all.map_values(|o: Seq<char>| marked_option(o, filters::option_known(o))),
            text::of_strings(marked@) == told.take(i as int),
        decreases n - i,
    {
        let ghost before = marked@;
        assert(all[i as int] == opts@[i as int]@);
        let known: bool = filters::option_supported(opts[i].as_str());
        let shown: String = mark_option(opts[i].as_str(), known);
        marked.push(shown);
        assert(text::of_strings(marked@) == text::of_strings(before).push(shown@));
        assert(told.take(i + 1) == told.take(i as int).push(shown@));
        i += 1;
    }
    assert(told.take(n as int) == told);
    chars::join(marked.as_slice(), ", ")
}

/// The explanation of a rule, given what the engine says of it, as lines.
pub fn explain_outcome(
    rule: &str,
    outcome: ParseOutcome,
    probe: bool,
    resources: &ResourceChecker,
) -> (r: Vec<String>)
    requires
        report::outcome_resolvable(rule@, outcome@),
    ensures
        text::of_strings(r@) == explanation(resources@, rule@, outcome@, probe),
{
    let ghost given = outcome@;
    let (parsed, filter_type, parse_error) = filters::parts(outcome);
    let ghost parts = filters::parts_of(given);
    assert(filters::view_of_parts((parsed, filter_type, parse_error)) == parts);
    let (supported, reason) = report::support(rule, &parsed, parse_error, resources);
    let network: bool = match filter_type {
        Some(t) => chars::same_str(t, "network"),
        None => false,
    };
    let opts: Vec<String> = options::rule_options(rule);

    let mut lines: Vec<String> = Vec::new();
    assert(text::of_strings(lines@) == Seq::<Seq<char>>::empty());
    let mut line: Vec<char> = chars::chars_of("Rule:      ");
    chars::append_str(&mut line, rule);
    render::push_line(&mut lines, line.as_slice());
    let mut line: Vec<char> = chars::chars_of("Type:      ");
    chars::append_str(&mut line, render::str_or(filter_type, "unknown"));
    render::push_line(&mut lines, line.as_slice());
    if supported {
        render::push_str_line(&mut lines, "Supported: yes");
    } else {
        let mut line: Vec<char> = chars::chars_of("Supported: no (");
        chars::append_str(&mut line, render::str_or(render::opt_str(&reason), "?"));
        chars::append_str(&mut line, ")");
        render::push_line(&mut lines, line.as_slice());
    }
    let mut line: Vec<char> = chars::chars_of("Options:   ");
    chars::append(&mut line, options_line(&opts, probe && network).as_slice());
    render::push_line(&mut lines, line.as_slice());
    if probe && !network {
        render::push_str_line(
            &mut lines,
            "Note:      --probe applies to network $options; cosmetic types aren't probed.",
        );
    }
    lines
}

/// The explanation of a rule, white space around it left out, as lines.
pub fn explain_rule(rule: &str, probe: bool, resources: &ResourceChecker) -> (r: Vec<String>)
    requires
        explainable(text::trim(rule@)),
    ensures
        text::of_strings(r@) == explanation(
            resources@,
            text::trim(rule@),
            filters::filter_outcome(text::trim(rule@), true),
            probe,
        ),
{
    let rule: String = chars::string_of(chars::trim(chars::chars_of(rule).as_slice()));
    let outcome: ParseOutcome = filters::parse_line(rule.as_str(), true);
    explain_outcome(rule.as_str(), outcome, probe, resources)
}

/// The explanation that [`explain_rule`] gives, or `None` if the resource of the rule cannot be
/// looked up.
pub fn try_explain_rule(rule: &str, probe: bool, resources: &ResourceChecker) -> (r: Option<
    Vec<String>,
>)
    ensures
        (if explainable(text::trim(rule@)) {
            r matches Some(lines) && text::of_strings(lines@) == explanation(
                resources@,
                text::trim(rule@),
                filters::filter_outcome(text::trim(rule@), true),
                probe,
            )
        } else {
            r is None
        }),
{
    let trimmed: String = chars::string_of(chars::trim(chars::chars_of(rule).as_slice()));
    let (parsed, filter_type, parse_error) = filters::parse(trimmed.as_str());
    let ghost parts = filters::parts_of(filters::filter_outcome(trimmed@, true));
    assert(filters::view_of_parts((parsed, filter_type, parse_error)) == parts);
    if let Some(p) = &parsed {
        if !resources::can_resolve(p, trimmed.as_str()) {
            return None;
        }
    }
    Some(explain_rule(rule, probe, resources))
}

/// The explanation of a rule gives the type and the verdict that a report on the rule gives.
pub proof fn explanations_agree_with_reports(
    scan: report::Scan,
    rule: Seq<char>,
    outcome: filters::OutcomeView,
    names: Seq<Seq<char>>,
    probe: bool,
)
    ensures
        ({
            let r = report::report_on(scan, rule, outcome, names);
            let lines = explanation(scan.entries, rule, outcome, probe);
            &&& lines[1] == "Type:      "@ + render::text_or(r.filter_type, "unknown"@)
            &&& lines[2] == (if r.supported {
                "Supported: yes"@
            } else {
                "Supported: no ("@ + render::text_or(r.reason, "?"@) + ")"@
            })
        }),
{
}

/// The explanation of a rule, line by line. Its type and the verdict on it are those that any
/// report on it gives; the options are all that it has, in their order, and those of a network
/// rule say whether the engine knows them if that is asked for; for another rule a note says that
/// they do not.
pub proof fn explanations_are_these_lines(
    scan: report::Scan,
    rule: Seq<char>,
    outcome: filters::OutcomeView,
    names: Seq<Seq<char>>,
    probe: bool,
)
    ensures
        ({
            let r = report::report_on(scan, rule, outcome, names);
            let lines = explanation(scan.entries, rule, outcome, probe);
            let opts = options::options_of(rule);
            let network = r.filter_type == Some("network"@);
            &&& lines.len() == (if probe && !network {
                5int
            } else {
                4int
            })
            &&& lines[0] == "Rule:      "@ + rule
            &&& lines[1] == "Type:      "@ + (match r.filter_type {
                Some(t) => t,
                None => "unknown"@,
            })
            &&& r.supported ==> lines[2] == "Supported: yes"@
            &&& !r.supported ==> lines[2] == "Supported: no ("@ + (match r.reason {
                Some(t) => t,
                None => "?"@,
            }) + ")"@
            &&& opts.len() == 0 ==> lines[3] == "Options:   (none)"@
            &&& opts.len() > 0 && !(probe && network) ==> lines[3] == "Options:   "@ + text::join(
                opts,
                ", "@,
            )
            &&& opts.len() > 0 && probe && network ==> lines[3] == "Options:   "@ + text::join(
                Seq::new(
                    opts.len(),
                    |k: int|
                        if filters::option_known(opts[k]) {
                            opts[k] + " (ok)"@
                        } else {
                            opts[k] + " (unsupported)"@
                        },
                ),
                ", "@,
            )
            &&& probe && !network ==> lines[4]
                == "Note:      --probe applies to network $options; cosmetic types aren't probed."@
        }),
{
    reveal_strlit("Options:   ");
    reveal_strlit("(none)");
    reveal_strlit("Options:   (none)");
    assert("Options:   "@ + "(none)"@ =~= "Options:   (none)"@);
    reveal_strlit(" (");
    reveal_strlit(")");
    reveal_strlit("ok");
    reveal_strlit("unsupported");
    reveal_strlit(" (ok)");
    reveal_strlit(" (unsupported)");
    assert(" ("@ + "ok"@ + ")"@ =~= " (ok)"@);
    assert(" ("@ + "unsupported"@ + ")"@ =~= " (unsupported)"@);
    let opts = options::options_of(rule);
    let marked = opts.map_values(|o: Seq<char>| marked_option(o, filters::option_known(o)));
    let told = Seq::new(
        opts.len(),
        |k: int|
            if filters::option_known(opts[k]) {
                opts[k] + " (ok)"@
            } else {
                opts[k] + " (unsupported)"@
            },
    );
    assert forall|k: int| 0 <= k < opts.len() implies marked[k] == told[k] by {
        let o = opts[k];
        assert(o + " ("@ + "ok"@ + ")"@ =~= o + (" ("@ + "ok"@ + ")"@));
        assert(o + " ("@ + "unsupported"@ + ")"@ =~= o + (" ("@ + "unsupported"@ + ")"@));
    }
    assert(marked =~= told);
}

/// A rule cannot be explained exactly if the engine parses it and its resource cannot be looked
/// up.
pub proof fn parsed_rules_need_their_resource(rule: Seq<char>)
    ensures
        !explainable(rule) <==> (filters::filter_outcome(
            rule,
            true,
        ) matches filters::OutcomeView::Parsed(p) && !resources::resolvable(p, rule)),
{
}

/// White space around a rule does not change its explanation.
pub proof fn rules_are_explained_without_space_around(
    rule: &str,
    other: &str,
    probe: bool,
    resources: &ResourceChecker,
    a: Vec<String>,
    b: Vec<String>,
)
    requires
        call_ensures(explain_rule, (rule, probe, resources), a),
        call_ensures(explain_rule, (other, probe, resources), b),
        text::trim(rule@) == text::trim(other@),
    ensures
        text::of_strings(a@) == text::of_strings(b@),
{
}

/// An explanation starts with the rule without the white space around it, and is given by either
/// function, or refused by the one that can refuse it exactly if the resource of the rule cannot
/// be looked up.
pub proof fn explanations_are_given_or_refused(
    rule: &str,
    probe: bool,
    resources: &ResourceChecker,
    a: Vec<String>,
    b: Option<Vec<String>>,
)
    requires
        call_ensures(explain_rule, (rule, probe, resources), a),
        call_ensures(try_explain_rule, (rule, probe, resources), b),
    ensures
        text::of_strings(a@)[0] == "Rule:      "@ + text::trim(rule@),
        b is None <==> !explainable(text::trim(rule@)),
        b matches Some(lines) ==> text::of_strings(lines@) == text::of_strings(a@),
{
}

} // verus!
