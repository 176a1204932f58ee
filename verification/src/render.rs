//! The reports as lines of text: for the terminal, as markdown, and the explanation of one rule.

use vstd::prelude::*;

use crate::chars;
use crate::domains::Relation;
use crate::order;
use crate::order::SortKey;
use crate::report;
use crate::report::{ReportView, RuleReport};
use crate::text;

verus! {

/// The version of the engine (keep in step with Cargo.toml).
pub const ADBLOCK_RUST_VERSION: &'static str = "0.12.x";

/// The name of the program.
pub const TOOL: &'static str = "adblock-rust-compat";

/// The version of the program (keep in step with Cargo.toml).
pub const TOOL_VERSION: &'static str = "0.1.0";

/// The text, or another in its place.
pub open spec fn text_or(t: Option<Seq<char>>, other: Seq<char>) -> Seq<char> {
    match t {
        Some(s) => s,
        None => other,
    }
}

pub open spec fn relation_name(r: Relation) -> Seq<char> {
    match r {
        Relation::Target => "target"@,
        Relation::Scope => "scope"@,
    }
}

/// The names of the relations with `+` between them.
pub open spec fn relation_names(r: ReportView) -> Seq<char> {
    text::join(r.relations.map_values(|rel: Relation| relation_name(rel)), "+"@)
}

/// The relations in brackets before a rule; nothing if there are none.
pub open spec fn relation_mark(r: ReportView) -> Seq<char> {
    if r.relations.len() == 0 {
        Seq::empty()
    } else {
        "["@ + relation_names(r) + "] "@
    }
}

/// The names of the sources with `+` between them.
pub open spec fn source_names(r: ReportView) -> Seq<char> {
    text::join(r.sources, "+"@)
}

/// The sources in angle brackets before a rule, where there is more than one source in all.
pub open spec fn source_mark(r: ReportView, multi_source: bool) -> Seq<char> {
    if multi_source {
        "<"@ + source_names(r) + "> "@
    } else {
        Seq::empty()
    }
}

/// A text as it is written in a cell of a markdown table.
pub open spec fn cell_text(s: Seq<char>) -> Seq<char> {
    text::replace(s, "|"@, "\\|"@)
}

/// A text as it is written as code in a cell of a markdown table.
pub open spec fn cell_code(s: Seq<char>) -> Seq<char> {
    "`"@ + cell_text(s) + "`"@
}

/// The string, or another in its place.
pub(crate) fn str_or<'a>(t: Option<&'a str>, other: &'a str) -> (r: &'a str)
    ensures
        r@ == text_or(text::of_opt_str(t), other@),
{
    match t {
        Some(s) => s,
        None => other,
    }
}

/// The string slice of an optional string.
pub(crate) fn opt_str(t: &Option<String>) -> (r: Option<&str>)
    ensures
        text::of_opt_str(r) == text::of_opt_string(*t),
{
    match t {
        Some(s) => Some(s.as_str()),
        None => None,
    }
}

/// The names of the report's relations with `+` between them.
pub fn tags(r: &RuleReport) -> (s: String)
    ensures
        s@ == relation_names(r@),
{
    let mut names: Vec<String> = Vec::new();
    let ghost all = r@.relations.map_values(|rel: Relation| relation_name(rel));
    let n: usize = r.relations.len();
    let mut i: usize = 0;
    while i < n
        invariant
            i <= n == r.relations@.len(),
            all == r@.relations.map_values(|rel: Relation| relation_name(rel)),
            text::of_strings(names@) == all.take(i as int),
        decreases n - i,
    {
        let ghost before = names@;
        let name: &str = match r.relations[i] {
            Relation::Target => "target",
            Relation::Scope => "scope",
        };
        names.push(name.to_string());
        assert(text::of_strings(names@) == text::of_strings(before).push(name@));
        assert(all.take(i + 1) == all.take(i as int).push(name@));
        i += 1;
    }
    assert(all.take(n as int) == all);
    chars::string_of(chars::join(names.as_slice(), "+").as_slice())
}

/// A `[tag+tag] ` prefix, or the empty text where the rule has no relations.
pub fn tag_prefix(r: &RuleReport) -> (s: String)
    ensures
        s@ == relation_mark(r@),
{
    if r.relations.len() == 0 {
        return String::new();
    }
    let mut out: Vec<char> = chars::chars_of("[");
    chars::append_str(&mut out, tags(r).as_str());
    chars::append_str(&mut out, "] ");
    chars::string_of(out.as_slice())
}

/// A `<src+src> ` prefix, or the empty text where there is one source only.
pub fn source_prefix(r: &RuleReport, multi_source: bool) -> (s: String)
    ensures
        s@ == source_mark(r@, multi_source),
{
    if !multi_source {
        return String::new();
    }
    let mut out: Vec<char> = chars::chars_of("<");
    chars::append(&mut out, chars::join(r.sources.as_slice(), "+").as_slice());
    chars::append_str(&mut out, "> ");
    chars::string_of(out.as_slice())
}

/// A text as it is written in a cell of a markdown table.
pub fn md_text(s: &str) -> (r: String)
    ensures
        r@ == cell_text(s@),
{
    proof {
        reveal_strlit("|");
    }
    let out: Vec<char> = chars::replace(
        chars::chars_of(s).as_slice(),
        chars::chars_of("|").as_slice(),
        chars::chars_of("\\|").as_slice(),
    );
    chars::string_of(out.as_slice())
}

/// A text as it is written as code in a cell of a markdown table.
pub fn md_code(s: &str) -> (r: String)
    ensures
        r@ == cell_code(s@),
{
    let mut out: Vec<char> = chars::chars_of("`");
    chars::append_str(&mut out, md_text(s).as_str());
    chars::append_str(&mut out, "`");
    chars::string_of(out.as_slice())
}

/// The positions of the reports on supported rules, or of those on the others.
pub open spec fn with_support(reports: Seq<ReportView>, supported: bool) -> Seq<usize>
    decreases reports.len(),
{
    if reports.len() == 0 {
        Seq::empty()
    } else {
        let earlier = with_support(reports.drop_last(), supported);
        if reports.last().supported == supported {
            earlier.push((reports.len() - 1) as usize)
        } else {
            earlier
        }
    }
}

/// The number of reports on rules with the relation.
pub open spec fn related(reports: Seq<ReportView>, relation: Relation) -> nat
    decreases reports.len(),
{
    if reports.len() == 0 {
        0
    } else {
        let earlier = related(reports.drop_last(), relation);
        if reports.last().relations.contains(relation) {
            earlier + 1
        } else {
            earlier
        }
    }
}

/// The reports at the given positions.
pub open spec fn at_positions(reports: Seq<ReportView>, positions: Seq<usize>) -> Seq<ReportView> {
    positions.map_values(|i: usize| reports[i as int])
}

/// What a report is listed under: the type of a supported rule, the reason against another.
pub open spec fn heading(r: ReportView, supported: bool) -> Option<Seq<char>> {
    if supported {
        r.filter_type
    } else {
        r.reason
    }
}

/// The key by which a report is listed.
pub open spec fn key_of(r: ReportView, supported: bool) -> order::KeyView {
    order::KeyView { heading: heading(r, supported), rule: r.rule }
}

/// The keys by which reports are listed.
pub open spec fn keys_of(reports: Seq<ReportView>, supported: bool) -> Seq<order::KeyView> {
    reports.map_values(|r: ReportView| key_of(r, supported))
}

/// The reports on supported rules, by type and rule, or those on the others, by reason and rule.
pub open spec fn listing(reports: Seq<ReportView>, supported: bool) -> Seq<ReportView> {
    at_positions(
        reports,
        order::listed(keys_of(reports, supported), with_support(reports, supported)),
    )
}

/// What [`with_support`] holds: positions in order, those of the reports asked for.
pub proof fn lemma_with_support(reports: Seq<ReportView>, supported: bool)
    requires
        reports.len() <= usize::MAX,
    ensures
        ({
            let p = with_support(reports, supported);
            &&& p.len() <= reports.len()
            &&& forall|k: int|
                0 <= k < p.len() ==> #[trigger] p[k] < reports.len() && reports[p[k] as int].supported
                    == supported
            &&& forall|i: usize|
                i < reports.len() && (#[trigger] reports[i as int]).supported == supported
                    ==> p.contains(i)
            &&& forall|j: int, k: int| 0 <= j < k < p.len() ==> #[trigger] p[j] < #[trigger] p[k]
        }),
    decreases reports.len(),
{
    if reports.len() > 0 {
        let shorter = reports.drop_last();
        lemma_with_support(shorter, supported);
        let earlier = with_support(shorter, supported);
        let p = with_support(reports, supported);
        let last = (reports.len() - 1) as usize;
        assert forall|k: int| 0 <= k < p.len() implies #[trigger] p[k] < reports.len()
            && reports[p[k] as int].supported == supported by {
            if k < earlier.len() {
                assert(earlier[k] < shorter.len());
                assert(shorter[earlier[k] as int].supported == supported);
            }
        }
        assert forall|i: usize|
            i < reports.len() && (#[trigger] reports[i as int]).supported
                == supported implies p.contains(i) by {
            if i < last {
                assert(shorter[i as int].supported == supported);
                let k = choose|k: int| 0 <= k < earlier.len() && earlier[k] == i;
                assert(p[k] == i);
            } else {
                assert(p[p.len() - 1] == i);
            }
        }
        assert forall|j: int, k: int| 0 <= j < k < p.len() implies #[trigger] p[j] < #[trigger]
        p[k] by {
            if k < earlier.len() {
                assert(earlier[j] < earlier[k]);
            } else {
                assert(earlier[j] < shorter.len());
            }
        }
    }
}

/// The positions of the reports on supported rules, or of those on the others.
fn positions(reports: &[RuleReport], supported: bool) -> (r: Vec<usize>)
    ensures
        r@ == with_support(report::reports_of(reports@), supported),
        r@.len() <= reports@.len(),
        forall|k: int| 0 <= k < r@.len() ==> #[trigger] r@[k] < reports@.len(),
{
    let mut out: Vec<usize> = Vec::new();
    let ghost all = report::reports_of(reports@);
    let n: usize = reports.len();
    let mut i: usize = 0;
    while i < n
        invariant
            i <= n == reports@.len(),
            all == report::reports_of(reports@),
            out@ == with_support(all.take(i as int), supported),
        decreases n - i,
    {
        assert(all.take(i + 1).drop_last() == all.take(i as int));
        assert(all[i as int] == reports@[i as int]@);
        if reports[i].supported == supported {
            out.push(i);
        }
        i += 1;
    }
    assert(all.take(n as int) == all);
    proof {
        lemma_with_support(all, supported);
    }
    out
}

/// Is the relation among those of the report?
fn has_relation(r: &RuleReport, relation: Relation) -> (b: bool)
    ensures
        b == r@.relations.contains(relation),
{
    let n: usize = r.relations.len();
    let mut i: usize = 0;
    while i < n
        invariant
            i <= n == r.relations@.len(),
            forall|j: int| 0 <= j < i ==> r.relations@[j] != relation,
        decreases n - i,
    {
        if r.relations[i] == relation {
            return true;
        }
        i += 1;
    }
    false
}

/// The number of reports on rules with the relation.
fn count_related(reports: &[RuleReport], relation: Relation) -> (r: usize)
    ensures
        r == related(report::reports_of(reports@), relation),
{
    let mut count: usize = 0;
    let ghost all = report::reports_of(reports@);
    let n: usize = reports.len();
    let mut i: usize = 0;
    while i < n
        invariant
            i <= n == reports@.len(),
            all == report::reports_of(reports@),
            count == related(all.take(i as int), relation),
            count <= i,
        decreases n - i,
    {
        assert(all.take(i + 1).drop_last() == all.take(i as int));
        assert(all[i as int] == reports@[i as int]@);
        if has_relation(&reports[i], relation) {
            count += 1;
        }
        i += 1;
    }
    assert(all.take(n as int) == all);
    count
}

/// What a report is listed under.
fn heading_of(r: &RuleReport, supported: bool) -> (h: Option<&str>)
    ensures
        text::of_opt_str(h) == heading(r@, supported),
{
    if supported {
        r.filter_type
    } else {
        opt_str(&r.reason)
    }
}

/// The positions of the reports of a listing, in its order.
fn listed_positions(reports: &[RuleReport], supported: bool) -> (r: Vec<usize>)
    ensures
        r@ == order::listed(
            keys_of(report::reports_of(reports@), supported),
            with_support(report::reports_of(reports@), supported),
        ),
        r@.len() == with_support(report::reports_of(reports@), supported).len(),
        forall|k: int| 0 <= k < r@.len() ==> #[trigger] r@[k] < reports@.len(),
{
    let mut keys: Vec<SortKey> = Vec::new();
    let ghost all = report::reports_of(reports@);
    let n: usize = reports.len();
    let mut i: usize = 0;
    while i < n
        invariant
            i <= n == reports@.len(),
            all == report::reports_of(reports@),
            order::keys_of(keys@) == keys_of(all.take(i as int), supported),
        decreases n - i,
    {
        let ghost before = keys@;
        let heading: Option<Vec<char>> = match heading_of(&reports[i], supported) {
            Some(t) => Some(chars::chars_of(t)),
            None => None,
        };
        let key = SortKey { heading, rule: chars::chars_of(reports[i].rule.as_str()) };
        assert(all[i as int] == reports@[i as int]@);
        assert(key@ == key_of(all[i as int], supported));
        keys.push(key);
        assert(order::keys_of(keys@) == order::keys_of(before).push(key@));
        assert(keys_of(all.take(i + 1), supported) == keys_of(
            all.take(i as int),
            supported,
        ).push(key@));
        i += 1;
    }
    assert(all.take(n as int) == all);
    assert(order::keys_of(keys@).len() == keys@.len());
    order::sort_positions(&keys, positions(reports, supported).as_slice())
}

/// Puts one more line behind the lines.
pub(crate) fn push_line(lines: &mut Vec<String>, line: &[char])
    ensures
        text::of_strings(final(lines)@) == text::of_strings(old(lines)@).push(line@),
{
    let ghost before = lines@;
    lines.push(chars::string_of(line));
    assert(text::of_strings(lines@) == text::of_strings(before).push(line@));
}

/// Puts one more line behind the lines.
pub(crate) fn push_str_line(lines: &mut Vec<String>, line: &str)
    ensures
        text::of_strings(final(lines)@) == text::of_strings(old(lines)@).push(line@),
{
    push_line(lines, chars::chars_of(line).as_slice());
}

/// Puts an empty line behind the lines.
fn push_empty_line(lines: &mut Vec<String>)
    ensures
        text::of_strings(final(lines)@) == text::of_strings(old(lines)@).push(Seq::empty()),
{
    let none: Vec<char> = Vec::new();
    push_line(lines, none.as_slice());
}

/// Puts more lines behind the lines.
fn push_lines(lines: &mut Vec<String>, more: Vec<String>)
    ensures
        text::of_strings(final(lines)@) == text::of_strings(old(lines)@) + text::of_strings(more@),
{
    let ghost start = lines@;
    let mut more = more;
    let ghost added = more@;
    lines.append(&mut more);
    assert(text::of_strings(lines@) == text::of_strings(start) + text::of_strings(added));
}

/// The line on a rule: what it is listed under stands in brackets before it, square ones if it is
/// supported.
pub open spec fn line_on(r: ReportView, supported: bool, multi_source: bool) -> Seq<char> {
    let said = text_or(heading(r, supported), "?"@);
    let marks = source_mark(r, multi_source) + relation_mark(r);
    if supported {
        marks + "["@ + said + "] "@ + r.rule
    } else {
        marks + "("@ + said + ") "@ + r.rule
    }
}

/// How many rules there are, and where domains were given, how many relate to them in which way.
pub open spec fn count_line(reports: Seq<ReportView>, domain_filtered: bool) -> Seq<char> {
    if domain_filtered {
        "Matching rules: "@ + text::decimal(reports.len()) + "  (target: "@ + text::decimal(
            related(reports, Relation::Target),
        ) + ", scope: "@ + text::decimal(related(reports, Relation::Scope)) + ")"@
    } else {
        "Rules checked:  "@ + text::decimal(reports.len())
    }
}

/// The report for the terminal: the counts, the unsupported rules by reason and rule, and where
/// asked for, the supported rules in the order of the lists.
pub open spec fn terminal_report(
    reports: Seq<ReportView>,
    show_supported: bool,
    domain_filtered: bool,
    multi_source: bool,
) -> Seq<Seq<char>> {
    let supported = with_support(reports, true);
    let unsupported = listing(reports, false);
    let counts = seq![
        count_line(reports, domain_filtered),
        "Supported:      "@ + text::decimal(supported.len()),
        "Unsupported:    "@ + text::decimal((reports.len() - supported.len()) as nat),
    ];
    let first = if unsupported.len() == 0 {
        Seq::empty()
    } else {
        seq![Seq::empty(), "=== UNSUPPORTED RULES ==="@] + unsupported.map_values(
            |r: ReportView| line_on(r, false, multi_source),
        )
    };
    let second = if show_supported {
        seq![Seq::empty(), "=== SUPPORTED RULES ==="@] + at_positions(
            reports,
            supported,
        ).map_values(|r: ReportView| line_on(r, true, multi_source))
    } else {
        Seq::empty()
    };
    counts + first + second
}

/// How many rules there are, and where domains were given, how many relate to them in which way.
fn counted(reports: &[RuleReport], domain_filtered: bool) -> (r: Vec<char>)
    ensures
        r@ == count_line(report::reports_of(reports@), domain_filtered),
{
    assert(report::reports_of(reports@).len() == reports@.len());
    if domain_filtered {
        let mut out: Vec<char> = chars::chars_of("Matching rules: ");
        chars::append(&mut out, chars::decimal(reports.len()).as_slice());
        chars::append_str(&mut out, "  (target: ");
        let targets: usize = count_related(reports, Relation::Target);
        chars::append(&mut out, chars::decimal(targets).as_slice());
        chars::append_str(&mut out, ", scope: ");
        let scopes: usize = count_related(reports, Relation::Scope);
        chars::append(&mut out, chars::decimal(scopes).as_slice());
        chars::append_str(&mut out, ")");
        out
    } else {
        let mut out: Vec<char> = chars::chars_of("Rules checked:  ");
        chars::append(&mut out, chars::decimal(reports.len()).as_slice());
        out
    }
}

/// A label and a number behind it.
fn labelled(label: &str, n: usize) -> (r: Vec<char>)
    ensures
        r@ == label@ + text::decimal(n as nat),
{
    let mut out: Vec<char> = chars::chars_of(label);
    chars::append(&mut out, chars::decimal(n).as_slice());
    out
}

/// The line on a rule.
fn rule_line(r: &RuleReport, supported: bool, multi_source: bool) -> (line: Vec<char>)
    ensures
        line@ == line_on(r@, supported, multi_source),
{
    let (left, right): (&str, &str) = if supported {
        ("[", "] ")
    } else {
        ("(", ") ")
    };
    let mut out: Vec<char> = chars::chars_of(source_prefix(r, multi_source).as_str());
    chars::append_str(&mut out, tag_prefix(r).as_str());
    chars::append_str(&mut out, left);
    chars::append_str(&mut out, str_or(heading_of(r, supported), "?"));
    chars::append_str(&mut out, right);
    chars::append_str(&mut out, r.rule.as_str());
    out
}

/// The lines on the rules at the given positions.
fn rule_lines(
    reports: &[RuleReport],
    listed: &Vec<usize>,
    supported: bool,
    multi_source: bool,
) -> (r: Vec<String>)
    requires
        forall|k: int| 0 <= k < listed@.len() ==> #[trigger] listed@[k] < reports@.len(),
    ensures
        text::of_strings(r@) == at_positions(report::reports_of(reports@), listed@).map_values(
            |r: ReportView| line_on(r, supported, multi_source),
        ),
{
    let mut lines: Vec<String> = Vec::new();
    let ghost shown = at_positions(report::reports_of(reports@), listed@);
    let ghost told = shown.map_values(|r: ReportView| line_on(r, supported, multi_source));
    let n: usize = listed.len();
    let mut i: usize = 0;
    while i < n
        invariant
            i <= n == listed@.len() == told.len() == shown.len(),
            shown == at_positions(report::reports_of(reports@), listed@),
            told == shown.map_values(|r: ReportView| line_on(r, supported, multi_source)),
            forall|k: int| 0 <= k < listed@.len() ==> #[trigger] listed@[k] < reports@.len(),
            text::of_strings(lines@) == told.take(i as int),
        decreases n - i,
    {
        let r: &RuleReport = &reports[listed[i]];
        assert(shown[i as int] == r@);
        let line: Vec<char> = rule_line(r, supported, multi_source);
        push_line(&mut lines, line.as_slice());
        assert(told.take(i + 1) == told.take(i as int).push(line@));
        i += 1;
    }
    assert(told.take(n as int) == told);
    lines
}

/// The report for the terminal, as lines.
pub fn report_lines(
    reports: &[RuleReport],
    show_supported: bool,
    domain_filtered: bool,
    multi_source: bool,
) -> (r: Vec<String>)
    ensures
        text::of_strings(r@) == terminal_report(
            report::reports_of(reports@),
            show_supported,
            domain_filtered,
            multi_source,
        ),
{
    let ghost all = report::reports_of(reports@);
    assert(all.len() == reports@.len());
    let supported: Vec<usize> = positions(reports, true);
    let unsupported: Vec<usize> = listed_positions(reports, false);
    let mut lines: Vec<String> = Vec::new();
    assert(text::of_strings(lines@) == Seq::<Seq<char>>::empty());
    push_line(&mut lines, counted(reports, domain_filtered).as_slice());
    push_line(&mut lines, labelled("Supported:      ", supported.len()).as_slice());
    push_line(
        &mut lines,
        labelled("Unsupported:    ", reports.len() - supported.len()).as_slice(),
    );
    let ghost counts = text::of_strings(lines@);
    if unsupported.len() > 0 {
        push_empty_line(&mut lines);
        push_str_line(&mut lines, "=== UNSUPPORTED RULES ===");
        let more: Vec<String> = rule_lines(reports, &unsupported, false, multi_source);
        let ghost told = text::of_strings(more@);
        push_lines(&mut lines, more);
        assert(text::of_strings(lines@) == counts + (seq![
            Seq::empty(),
            "=== UNSUPPORTED RULES ==="@,
        ] + told));
    }
    let ghost first = text::of_strings(lines@);
    if show_supported {
        push_empty_line(&mut lines);
        push_str_line(&mut lines, "=== SUPPORTED RULES ===");
        let more: Vec<String> = rule_lines(reports, &supported, true, multi_source);
        let ghost told = text::of_strings(more@);
        push_lines(&mut lines, more);
        assert(text::of_strings(lines@) == first + (seq![
            Seq::empty(),
            "=== SUPPORTED RULES ==="@,
        ] + told));
    }
    lines
}

/// A row of a markdown table.
pub open spec fn table_row(cells: Seq<Seq<char>>) -> Seq<char> {
    "| "@ + text::join(cells, " | "@) + " |"@
}

/// A markdown table.
pub open spec fn table(headers: Seq<Seq<char>>, rows: Seq<Seq<Seq<char>>>) -> Seq<Seq<char>> {
    seq![
        table_row(headers),
        "|"@ + text::join(Seq::new(headers.len(), |i: int| "---"@), "|"@) + "|"@,
    ] + rows.map_values(|row: Seq<Seq<char>>| table_row(row))
}

/// The texts of the cells of rows.
pub open spec fn rows_of(rows: Seq<Vec<String>>) -> Seq<Seq<Seq<char>>> {
    rows.map_values(|row: Vec<String>| text::of_strings(row@))
}

/// A row of a markdown table.
fn row_line(cells: &[String]) -> (r: Vec<char>)
    ensures
        r@ == table_row(text::of_strings(cells@)),
{
    let mut out: Vec<char> = chars::chars_of("| ");
    chars::append(&mut out, chars::join(cells, " | ").as_slice());
    chars::append_str(&mut out, " |");
    out
}

/// A markdown table, as lines.
pub fn table_lines(headers: &[String], rows: &[Vec<String>]) -> (r: Vec<String>)
    ensures
        text::of_strings(r@) == table(text::of_strings(headers@), rows_of(rows@)),
{
    let mut lines: Vec<String> = Vec::new();
    assert(text::of_strings(lines@) == Seq::<Seq<char>>::empty());
    push_line(&mut lines, row_line(headers).as_slice());

    let mut dashes: Vec<String> = Vec::new();
    let n: usize = headers.len();
    let mut i: usize = 0;
    while i < n
        invariant
            i <= n == headers@.len(),
            text::of_strings(dashes@) == Seq::new(i as nat, |k: int| "---"@),
        decreases n - i,
    {
        push_str_line(&mut dashes, "---");
        i += 1;
    }
    let mut rule: Vec<char> = chars::chars_of("|");
    chars::append(&mut rule, chars::join(dashes.as_slice(), "|").as_slice());
    chars::append_str(&mut rule, "|");
    push_line(&mut lines, rule.as_slice());

    let ghost head = text::of_strings(lines@);
    let ghost told = rows_of(rows@).map_values(|row: Seq<Seq<char>>| table_row(row));
    let m: usize = rows.len();
    let mut i: usize = 0;
    assert(head + told.take(0) == head);
    while i < m
        invariant
            i <= m == rows@.len() == told.len(),
            told == rows_of(rows@).map_values(|row: Seq<Seq<char>>| table_row(row)),
            text::of_strings(lines@) == head + told.take(i as int),
        decreases m - i,
    {
        let line: Vec<char> = row_line(rows[i].as_slice());
        assert(rows_of(rows@)[i as int] == text::of_strings(rows@[i as int]@));
        push_line(&mut lines, line.as_slice());
        assert(told.take(i + 1) == told.take(i as int).push(line@));
        assert(head + told.take(i + 1) == (head + told.take(i as int)).push(line@));
        i += 1;
    }
    assert(told.take(m as int) == told);
    lines
}

/// The headers of the table of rules: where the columns for sources and tags are wanted, they come
/// first.
pub open spec fn rule_headers(supported: bool, multi_source: bool, domain_filtered: bool) -> Seq<
    Seq<char>,
> {
    (if multi_source {
        seq!["Source"@]
    } else {
        Seq::empty()
    }) + (if domain_filtered {
        seq!["Tags"@]
    } else {
        Seq::empty()
    }) + seq![
        if supported {
            "Type"@
        } else {
            "Reason"@
        },
        "Rule"@,
    ]
}

/// The text in the column before the rule: its type, or the reason against it.
pub open spec fn heading_cell(r: ReportView, supported: bool) -> Seq<char> {
    let said = text_or(heading(r, supported), "?"@);
    if supported {
        said
    } else {
        cell_text(said)
    }
}

/// The cells of the row on a rule.
pub open spec fn rule_cells(
    r: ReportView,
    supported: bool,
    multi_source: bool,
    domain_filtered: bool,
) -> Seq<Seq<char>> {
    (if multi_source {
        seq![cell_text(source_names(r))]
    } else {
        Seq::empty()
    }) + (if domain_filtered {
        seq![relation_names(r)]
    } else {
        Seq::empty()
    }) + seq![heading_cell(r, supported), cell_code(r.rule)]
}

/// The table of supported rules, or of the others.
pub open spec fn rule_table(
    reports: Seq<ReportView>,
    supported: bool,
    multi_source: bool,
    domain_filtered: bool,
) -> Seq<Seq<char>> {
    table(
        rule_headers(supported, multi_source, domain_filtered),
        listing(reports, supported).map_values(
            |r: ReportView| rule_cells(r, supported, multi_source, domain_filtered),
        ),
    )
}

/// The headers of a table of rules.
fn headers(supported: bool, multi_source: bool, domain_filtered: bool) -> (r: Vec<String>)
    ensures
        text::of_strings(r@) == rule_headers(supported, multi_source, domain_filtered),
{
    let mut out: Vec<String> = Vec::new();
    assert(text::of_strings(out@) == Seq::<Seq<char>>::empty());
    if multi_source {
        push_str_line(&mut out, "Source");
    }
    if domain_filtered {
        push_str_line(&mut out, "Tags");
    }
    let kind: &str = if supported {
        "Type"
    } else {
        "Reason"
    };
    push_str_line(&mut out, kind);
    push_str_line(&mut out, "Rule");
    out
}

/// The cells of the row on a rule.
fn cells(r: &RuleReport, supported: bool, multi_source: bool, domain_filtered: bool) -> (row: Vec<
    String,
>)
    ensures
        text::of_strings(row@) == rule_cells(r@, supported, multi_source, domain_filtered),
{
    let mut out: Vec<String> = Vec::new();
    assert(text::of_strings(out@) == Seq::<Seq<char>>::empty());
    if multi_source {
        let names: String = chars::string_of(chars::join(r.sources.as_slice(), "+").as_slice());
        push_str_line(&mut out, md_text(names.as_str()).as_str());
    }
    if domain_filtered {
        push_str_line(&mut out, tags(r).as_str());
    }
    let said: &str = str_or(heading_of(r, supported), "?");
    if supported {
        push_str_line(&mut out, said);
    } else {
        push_str_line(&mut out, md_text(said).as_str());
    }
    push_str_line(&mut out, md_code(r.rule.as_str()).as_str());
    out
}

/// The table of the rules at the positions of a listing, as lines.
fn rule_table_lines(
    reports: &[RuleReport],
    listed: &Vec<usize>,
    supported: bool,
    multi_source: bool,
    domain_filtered: bool,
) -> (r: Vec<String>)
    requires
        listed@ == order::listed(
            keys_of(report::reports_of(reports@), supported),
            with_support(report::reports_of(reports@), supported),
        ),
        forall|k: int| 0 <= k < listed@.len() ==> #[trigger] listed@[k] < reports@.len(),
    ensures
        text::of_strings(r@) == rule_table(
            report::reports_of(reports@),
            supported,
            multi_source,
            domain_filtered,
        ),
{
    let ghost all = report::reports_of(reports@);
    let ghost shown = listing(all, supported);
    let ghost told = shown.map_values(
        |r: ReportView| rule_cells(r, supported, multi_source, domain_filtered),
    );
    let mut rows: Vec<Vec<String>> = Vec::new();
    let n: usize = listed.len();
    let mut i: usize = 0;
    while i < n
        invariant
            i <= n == listed@.len() == told.len() == shown.len(),
            all == report::reports_of(reports@),
            shown == at_positions(all, listed@),
            told == shown.map_values(
                |r: ReportView| rule_cells(r, supported, multi_source, domain_filtered),
            ),
            forall|k: int| 0 <= k < listed@.len() ==> #[trigger] listed@[k] < reports@.len(),
            rows_of(rows@) == told.take(i as int),
        decreases n - i,
    {
        let ghost before = rows@;
        let r: &RuleReport = &reports[listed[i]];
        assert(shown[i as int] == r@);
        let row: Vec<String> = cells(r, supported, multi_source, domain_filtered);
        rows.push(row);
        assert(rows_of(rows@) == rows_of(before).push(text::of_strings(row@)));
        assert(told.take(i + 1) == told.take(i as int).push(text::of_strings(row@)));
        i += 1;
    }
    assert(told.take(n as int) == told);
    table_lines(headers(supported, multi_source, domain_filtered).as_slice(), rows.as_slice())
}

/// A row of the table that a markdown report starts with.
pub open spec fn fact_row(name: Seq<char>, value: Seq<char>) -> Seq<char> {
    "| "@ + name + " | "@ + value + " |"@
}

/// The line of a markdown report that holds the counts.
pub open spec fn summary_line(reports: Seq<ReportView>, domain_filtered: bool) -> Seq<char> {
    let supported = with_support(reports, true).len();
    let unsupported = (reports.len() - supported) as nat;
    if domain_filtered {
        "**"@ + text::decimal(reports.len()) + " matching rules** - "@ + text::decimal(supported)
            + " supported, "@ + text::decimal(unsupported) + " unsupported (target: "@
            + text::decimal(related(reports, Relation::Target)) + ", scope: "@ + text::decimal(
            related(reports, Relation::Scope),
        ) + ")."@
    } else {
        "**"@ + text::decimal(reports.len()) + " rules checked** - "@ + text::decimal(supported)
            + " supported, "@ + text::decimal(unsupported) + " unsupported."@
    }
}

/// The heading of a section of a markdown report.
pub open spec fn section_heading(name: Seq<char>, count: nat) -> Seq<char> {
    "## "@ + name + " ("@ + text::decimal(count) + ")"@
}

/// The start of a markdown report: what it is a report on, and on whose behalf.
pub open spec fn markdown_head(
    domains: Option<Seq<Seq<char>>>,
    source: Seq<char>,
    option: Option<Seq<char>>,
) -> Seq<Seq<char>> {
    let domains_label = match domains {
        Some(d) => text::join(d, ", "@),
        None => "all (no domain filter)"@,
    };
    seq![
        "# adblock-rust filter compatibility"@,
        Seq::empty(),
        "| | |"@,
        "|---|---|"@,
        fact_row("Source"@, cell_text(source)),
        fact_row("Domains"@, cell_text(domains_label)),
    ] + (match option {
        Some(o) => seq![fact_row("Option"@, cell_text(o))],
        None => Seq::empty(),
    }) + seq![
        fact_row("adblock-rust"@, ADBLOCK_RUST_VERSION@),
        fact_row("Tool"@, TOOL@ + " v"@ + TOOL_VERSION@),
        Seq::empty(),
    ]
}

/// The markdown report. It depends on the reports, the domains, the sources and the option alone.
pub open spec fn markdown_report(
    reports: Seq<ReportView>,
    domains: Option<Seq<Seq<char>>>,
    source: Seq<char>,
    multi_source: bool,
    option: Option<Seq<char>>,
) -> Seq<Seq<char>> {
    let supported = with_support(reports, true).len();
    let unsupported = (reports.len() - supported) as nat;
    let domain_filtered = domains is Some;
    markdown_head(domains, source, option) + seq![
        summary_line(reports, domain_filtered),
        Seq::empty(),
        section_heading("Unsupported"@, unsupported),
        Seq::empty(),
    ] + (if listing(reports, false).len() == 0 {
        seq!["_None._"@]
    } else {
        rule_table(reports, false, multi_source, domain_filtered)
    }) + seq![Seq::empty(), section_heading("Supported"@, supported), Seq::empty()] + (
    if listing(reports, true).len() == 0 {
        seq!["_None._"@]
    } else {
        rule_table(reports, true, multi_source, domain_filtered)
    })
}

/// A row of the table that a markdown report starts with.
fn fact(name: &str, value: &str) -> (r: Vec<char>)
    ensures
        r@ == fact_row(name@, value@),
{
    let mut out: Vec<char> = chars::chars_of("| ");
    chars::append_str(&mut out, name);
    chars::append_str(&mut out, " | ");
    chars::append_str(&mut out, value);
    chars::append_str(&mut out, " |");
    out
}

/// The line of a markdown report that holds the counts.
fn summary(reports: &[RuleReport], supported: usize, domain_filtered: bool) -> (r: Vec<char>)
    requires
        supported == with_support(report::reports_of(reports@), true).len(),
        supported <= reports@.len(),
    ensures
        r@ == summary_line(report::reports_of(reports@), domain_filtered),
{
    assert(report::reports_of(reports@).len() == reports@.len());
    let mut out: Vec<char> = labelled("**", reports.len());
    let kind: &str = if domain_filtered {
        " matching rules** - "
    } else {
        " rules checked** - "
    };
    chars::append_str(&mut out, kind);
    chars::append(&mut out, chars::decimal(supported).as_slice());
    chars::append_str(&mut out, " supported, ");
    chars::append(&mut out, chars::decimal(reports.len() - supported).as_slice());
    if domain_filtered {
        chars::append_str(&mut out, " unsupported (target: ");
        let targets: usize = count_related(reports, Relation::Target);
        chars::append(&mut out, chars::decimal(targets).as_slice());
        chars::append_str(&mut out, ", scope: ");
        let scopes: usize = count_related(reports, Relation::Scope);
        chars::append(&mut out, chars::decimal(scopes).as_slice());
        chars::append_str(&mut out, ").");
    } else {
        chars::append_str(&mut out, " unsupported.");
    }
    out
}

/// The heading of a section of a markdown report.
fn section(name: &str, count: usize) -> (r: Vec<char>)
    ensures
        r@ == section_heading(name@, count as nat),
{
    let mut out: Vec<char> = chars::chars_of("## ");
    chars::append_str(&mut out, name);
    chars::append_str(&mut out, " (");
    chars::append(&mut out, chars::decimal(count).as_slice());
    chars::append_str(&mut out, ")");
    out
}

/// The texts of optional domains.
pub open spec fn domains_of(domains: Option<&[String]>) -> Option<Seq<Seq<char>>> {
    match domains {
        Some(d) => Some(text::of_strings(d@)),
        None => None,
    }
}

/// The start of a markdown report, as lines.
fn head_lines(domains: Option<&[String]>, source: &str, option_filter: Option<&str>) -> (r: Vec<
    String,
>)
    ensures
        text::of_strings(r@) == markdown_head(
            domains_of(domains),
            source@,
            text::of_opt_str(option_filter),
        ),
{
    let mut lines: Vec<String> = Vec::new();
    assert(text::of_strings(lines@) == Seq::<Seq<char>>::empty());
    push_str_line(&mut lines, "# adblock-rust filter compatibility");
    push_empty_line(&mut lines);
    push_str_line(&mut lines, "| | |");
    push_str_line(&mut lines, "|---|---|");
    push_line(&mut lines, fact("Source", md_text(source).as_str()).as_slice());
    let label: String = match domains {
        Some(d) => chars::string_of(chars::join(d, ", ").as_slice()),
        None => "all (no domain filter)".to_string(),
    };
    push_line(&mut lines, fact("Domains", md_text(label.as_str()).as_str()).as_slice());
    if let Some(o) = option_filter {
        push_line(&mut lines, fact("Option", md_text(o).as_str()).as_slice());
    }
    push_line(&mut lines, fact("adblock-rust", ADBLOCK_RUST_VERSION).as_slice());
    let mut tool: Vec<char> = chars::chars_of(TOOL);
    chars::append_str(&mut tool, " v");
    chars::append_str(&mut tool, TOOL_VERSION);
    push_line(&mut lines, fact("Tool", chars::string_of(tool.as_slice()).as_str()).as_slice());
    push_empty_line(&mut lines);
    lines
}

/// The markdown report, as lines.
pub fn markdown_lines(
    reports: &[RuleReport],
    domains: Option<&[String]>,
    source: &str,
    multi_source: bool,
    option_filter: Option<&str>,
) -> (r: Vec<String>)
    ensures
        text::of_strings(r@) == markdown_report(
            report::reports_of(reports@),
            domains_of(domains),
            source@,
            multi_source,
            text::of_opt_str(option_filter),
        ),
{
    let ghost all = report::reports_of(reports@);
    let total: usize = reports.len();
    assert(all.len() == total);
    let supported: Vec<usize> = listed_positions(reports, true);
    let unsupported: Vec<usize> = listed_positions(reports, false);
    proof {
        lemma_with_support(all, true);
    }
    let domain_filtered: bool = domains.is_some();
    let mut lines: Vec<String> = head_lines(domains, source, option_filter);
    let ghost head = text::of_strings(lines@);

    push_line(&mut lines, summary(reports, supported.len(), domain_filtered).as_slice());
    push_empty_line(&mut lines);
    push_line(&mut lines, section("Unsupported", total - supported.len()).as_slice());
    push_empty_line(&mut lines);
    let ghost first = text::of_strings(lines@);
    assert(first == head + seq![
        summary_line(all, domain_filtered),
        Seq::empty(),
        section_heading("Unsupported"@, (total - supported@.len()) as nat),
        Seq::empty(),
    ]);
    if unsupported.len() == 0 {
        push_str_line(&mut lines, "_None._");
        assert(text::of_strings(lines@) == first + seq!["_None._"@]);
    } else {
        push_lines(
            &mut lines,
            rule_table_lines(reports, &unsupported, false, multi_source, domain_filtered),
        );
    }

    let ghost second = text::of_strings(lines@);
    push_empty_line(&mut lines);
    push_line(&mut lines, section("Supported", supported.len()).as_slice());
    push_empty_line(&mut lines);
    let ghost third = text::of_strings(lines@);
    assert(third == second + seq![
        Seq::empty(),
        section_heading("Supported"@, supported@.len()),
        Seq::empty(),
    ]);
    if supported.len() == 0 {
        push_str_line(&mut lines, "_None._");
        assert(text::of_strings(lines@) == third + seq!["_None._"@]);
    } else {
        push_lines(
            &mut lines,
            rule_table_lines(reports, &supported, true, multi_source, domain_filtered),
        );
    }
    lines
}

/// The supported and the unsupported rules are all the rules.
pub proof fn counts_add_up(reports: Seq<ReportView>)
    ensures
        with_support(reports, true).len() + with_support(reports, false).len() == reports.len(),
    decreases reports.len(),
{
    if reports.len() > 0 {
        counts_add_up(reports.drop_last());
    }
}

/// The supported rules are listed by type, then by rule, and the others by reason, then by rule:
/// all of them, and no other.
pub proof fn rules_are_listed(reports: Seq<ReportView>, supported: bool)
    requires
        reports.len() <= usize::MAX,
    ensures
        ({
            let all = listing(reports, supported);
            &&& all.len() == with_support(reports, supported).len()
            &&& forall|r: ReportView| #[trigger]
                all.contains(r) == (reports.contains(r) && r.supported == supported)
            &&& forall|i: int, j: int|
                0 <= i < j < all.len() ==> !order::key_before(
                    key_of(#[trigger] all[j], supported),
                    key_of(#[trigger] all[i], supported),
                )
        }),
{
    let keys = keys_of(reports, supported);
    let chosen = with_support(reports, supported);
    let l = order::listed(keys, chosen);
    let all = listing(reports, supported);
    order::listings_are_in_order(keys, chosen);
    lemma_listing(reports, supported, l);
    assert forall|i: int, j: int| 0 <= i < j < all.len() implies !order::key_before(
        key_of(#[trigger] all[j], supported),
        key_of(#[trigger] all[i], supported),
    ) by {
        assert(!order::key_before(keys[l[j] as int], keys[l[i] as int]));
    }
}

/// A rearrangement of the chosen positions leads to the chosen reports.
proof fn lemma_listing(reports: Seq<ReportView>, supported: bool, positions: Seq<usize>)
    requires
        reports.len() <= usize::MAX,
        positions.to_multiset() == with_support(reports, supported).to_multiset(),
    ensures
        forall|k: int| 0 <= k < positions.len() ==> #[trigger] positions[k] < reports.len(),
        forall|r: ReportView| #[trigger]
            at_positions(reports, positions).contains(r) == (reports.contains(r) && r.supported
                == supported),
{
    broadcast use vstd::seq_lib::group_to_multiset_ensures;

    let chosen = with_support(reports, supported);
    let all = at_positions(reports, positions);
    lemma_with_support(reports, supported);
    assert forall|p: usize| #[trigger] positions.contains(p) == chosen.contains(p) by {
        assert(positions.to_multiset().count(p) == chosen.to_multiset().count(p));
    }
    assert forall|k: int| 0 <= k < positions.len() implies #[trigger] positions[k] < reports.len()
        && reports[positions[k] as int].supported == supported by {
        assert(positions.contains(positions[k]));
        let j = choose|j: int| 0 <= j < chosen.len() && chosen[j] == positions[k];
        assert(chosen[j] < reports.len());
    }
    assert forall|r: ReportView| #[trigger] all.contains(r) == (reports.contains(r) && r.supported
        == supported) by {
        if all.contains(r) {
            let k = choose|k: int| 0 <= k < all.len() && all[k] == r;
            assert(positions[k] < reports.len());
            assert(reports[positions[k] as int] == r);
        }
        if reports.contains(r) && r.supported == supported {
            let i = choose|i: int| 0 <= i < reports.len() && reports[i] == r;
            assert(reports[(i as usize) as int].supported == supported);
            assert(chosen.contains(i as usize));
            assert(positions.contains(i as usize));
            let k = choose|k: int| 0 <= k < positions.len() && positions[k] == i as usize;
            assert(all[k] == r);
        }
    }
}

/// A bar in a cell always has a backslash before it, so that it does not end the cell.
pub proof fn bars_in_cells_are_escaped(s: Seq<char>, i: int)
    requires
        0 <= i < cell_text(s).len(),
        cell_text(s)[i] == '|',
    ensures
        i > 0,
        cell_text(s)[i - 1] == '\\',
    decreases s.len(),
{
    reveal_strlit("|");
    reveal_strlit("\\|");
    let bar = "|"@;
    let escaped = "\\|"@;
    assert(escaped[0] == '\\' && escaped[1] == '|');
    if s.len() > 0 {
        if text::starts_with(s, bar) {
            let rest = s.skip(1);
            assert(cell_text(s) == escaped + cell_text(rest));
            if i >= 2 {
                bars_in_cells_are_escaped(rest, i - 2);
                assert(cell_text(s)[i - 1] == cell_text(rest)[i - 3]);
            }
        } else {
            let rest = s.skip(1);
            assert(cell_text(s) == seq![s.first()] + cell_text(rest));
            assert(s.first() != '|') by {
                if s.first() == '|' {
                    assert(s.subrange(0, 1) =~= bar);
                }
            }
            if i >= 1 {
                bars_in_cells_are_escaped(rest, i - 1);
            }
        }
    }
}

/// Does no rule have two reports?
pub open spec fn distinct_rules(reports: Seq<ReportView>) -> bool {
    forall|i: int, j: int|
        0 <= i < j < reports.len() ==> (#[trigger] reports[i]).rule != (#[trigger] reports[j]).rule
}

/// Does each report come before all that follow it?
spec fn strictly_listed(all: Seq<ReportView>, supported: bool) -> bool {
    forall|i: int, j: int|
        0 <= i < j < all.len() ==> order::key_before(
            key_of(#[trigger] all[i], supported),
            key_of(#[trigger] all[j], supported),
        )
}

proof fn lemma_strictly_listed(reports: Seq<ReportView>, supported: bool)
    requires
        reports.len() <= usize::MAX,
        distinct_rules(reports),
    ensures
        strictly_listed(listing(reports, supported), supported),
{
    let keys = keys_of(reports, supported);
    let chosen = with_support(reports, supported);
    let l = order::listed(keys, chosen);
    let all = listing(reports, supported);
    order::listings_are_in_order(keys, chosen);
    lemma_listing(reports, supported, l);
    lemma_with_support(reports, supported);
    assert(chosen.no_duplicates());
    chosen.lemma_multiset_has_no_duplicates();
    l.lemma_multiset_has_no_duplicates_conv();
    rules_are_listed(reports, supported);
    assert forall|i: int, j: int| 0 <= i < j < all.len() implies order::key_before(
        key_of(#[trigger] all[i], supported),
        key_of(#[trigger] all[j], supported),
    ) by {
        assert(l[i] != l[j]);
        assert(l[i] < reports.len() && l[j] < reports.len());
        assert(all[i] == reports[l[i] as int] && all[j] == reports[l[j] as int]);
        assert(all[i].rule != all[j].rule);
        order::lemma_key_before_total(key_of(all[i], supported), key_of(all[j], supported));
    }
}

/// Reports can be strictly listed in one way only.
proof fn lemma_one_listing(x: Seq<ReportView>, y: Seq<ReportView>, supported: bool)
    requires
        strictly_listed(x, supported),
        strictly_listed(y, supported),
        forall|r: ReportView| #[trigger] x.contains(r) == y.contains(r),
    ensures
        x == y,
    decreases x.len(),
{
    if x.len() == 0 {
        if y.len() > 0 {
            assert(x.contains(y[0]) == y.contains(y[0]));
        }
        assert(x =~= y);
    } else {
        let a = x.last();
        assert(x.contains(a));
        assert(y.contains(a));
        let b = y.last();
        assert(y.contains(b));
        assert(x.contains(b));
        order::lemma_key_before_total(key_of(a, supported), key_of(b, supported));
        order::lemma_key_before_total(key_of(a, supported), key_of(a, supported));
        let i = choose|i: int| 0 <= i < x.len() && x[i] == b;
        let j = choose|j: int| 0 <= j < y.len() && y[j] == a;
        assert(i < x.len() - 1 ==> order::key_before(
            key_of(x[i], supported),
            key_of(x[x.len() - 1], supported),
        ));
        assert(j < y.len() - 1 ==> order::key_before(
            key_of(y[j], supported),
            key_of(y[y.len() - 1], supported),
        ));
        assert(a == b);
        let xs = x.drop_last();
        let ys = y.drop_last();
        assert forall|r: ReportView| #[trigger] xs.contains(r) == ys.contains(r) by {
            lemma_without_last(x, r, supported);
            lemma_without_last(y, r, supported);
            assert(x.contains(r) == y.contains(r));
        }
        lemma_one_listing(xs, ys, supported);
        assert(x =~= xs.push(a));
        assert(y =~= ys.push(a));
    }
}

proof fn lemma_without_last(x: Seq<ReportView>, r: ReportView, supported: bool)
    requires
        x.len() > 0,
        strictly_listed(x, supported),
    ensures
        x.drop_last().contains(r) == (x.contains(r) && r != x.last()),
{
    let xs = x.drop_last();
    if xs.contains(r) {
        let k = choose|k: int| 0 <= k < xs.len() && xs[k] == r;
        assert(x[k] == r);
        assert(order::key_before(key_of(x[k], supported), key_of(x[x.len() - 1], supported)));
        order::lemma_key_before_total(key_of(r, supported), key_of(r, supported));
    }
    if x.contains(r) && r != x.last() {
        let k = choose|k: int| 0 <= k < x.len() && x[k] == r;
        assert(xs[k] == r);
    }
}

proof fn lemma_related_remove(reports: Seq<ReportView>, i: int, relation: Relation)
    requires
        0 <= i < reports.len(),
    ensures
        related(reports, relation) == related(reports.remove(i), relation) + (
        if reports[i].relations.contains(relation) {
            1nat
        } else {
            0nat
        }),
    decreases reports.len(),
{
    if i == reports.len() - 1 {
        assert(reports.remove(i) =~= reports.drop_last());
    } else {
        let shorter = reports.drop_last();
        lemma_related_remove(shorter, i, relation);
        assert(reports.remove(i).drop_last() =~= shorter.remove(i));
        assert(reports.remove(i).last() == reports.last());
    }
}

proof fn lemma_related_permuted(a: Seq<ReportView>, b: Seq<ReportView>, relation: Relation)
    requires
        a.to_multiset() == b.to_multiset(),
    ensures
        related(a, relation) == related(b, relation),
    decreases a.len(),
{
    broadcast use vstd::seq_lib::group_to_multiset_ensures;

    vstd::seq_lib::to_multiset_len(a);
    vstd::seq_lib::to_multiset_len(b);
    if a.len() > 0 {
        let x = a.last();
        assert(a.contains(x));
        assert(a.to_multiset().count(x) > 0);
        assert(b.contains(x));
        let i = choose|i: int| 0 <= i < b.len() && b[i] == x;
        let n = a.len() - 1;
        a.to_multiset_ensures();
        b.to_multiset_ensures();
        assert(a.remove(n).to_multiset() =~= b.remove(i).to_multiset());
        lemma_related_permuted(a.remove(n), b.remove(i), relation);
        lemma_related_remove(a, n, relation);
        lemma_related_remove(b, i, relation);
    }
}

proof fn lemma_permuted(a: Seq<ReportView>, b: Seq<ReportView>)
    requires
        a.to_multiset() == b.to_multiset(),
        distinct_rules(a),
    ensures
        a.len() == b.len(),
        forall|r: ReportView| #[trigger] a.contains(r) == b.contains(r),
        distinct_rules(b),
{
    vstd::seq_lib::to_multiset_len(a);
    vstd::seq_lib::to_multiset_len(b);
    assert forall|r: ReportView| #[trigger] a.contains(r) == b.contains(r) by {
        vstd::seq_lib::to_multiset_contains(a, r);
        vstd::seq_lib::to_multiset_contains(b, r);
    }
    assert(a.no_duplicates()) by {
        assert forall|i: int, j: int|
            0 <= i < a.len() && 0 <= j < a.len() && i != j implies a[i] != a[j] by {
            if i < j {
                assert(a[i].rule != a[j].rule);
            } else {
                assert(a[j].rule != a[i].rule);
            }
        }
    }
    a.lemma_multiset_has_no_duplicates();
    b.lemma_multiset_has_no_duplicates_conv();
    assert forall|i: int, j: int| 0 <= i < j < b.len() implies (#[trigger] b[i]).rule != (
    #[trigger] b[j]).rule by {
        assert(b[i] != b[j]);
        assert(b.contains(b[i]) && b.contains(b[j]));
        assert(a.contains(b[i]) && a.contains(b[j]));
        let p = choose|p: int| 0 <= p < a.len() && a[p] == b[i];
        let q = choose|q: int| 0 <= q < a.len() && a[q] == b[j];
        if p < q {
            assert(a[p].rule != a[q].rule);
        } else {
            assert(a[q].rule != a[p].rule);
        }
    }
}

/// The markdown report does not depend on the order of the reports, as long as no two are on one
/// rule: the same reports in another order give the same lines.
pub proof fn markdown_ignores_the_order_of_reports(
    a: Seq<ReportView>,
    b: Seq<ReportView>,
    domains: Option<Seq<Seq<char>>>,
    source: Seq<char>,
    multi_source: bool,
    option: Option<Seq<char>>,
)
    requires
        a.len() <= usize::MAX,
        a.to_multiset() == b.to_multiset(),
        distinct_rules(a),
    ensures
        markdown_report(a, domains, source, multi_source, option) == markdown_report(
            b,
            domains,
            source,
            multi_source,
            option,
        ),
{
    lemma_permuted(a, b);
    lemma_related_permuted(a, b, Relation::Target);
    lemma_related_permuted(a, b, Relation::Scope);
    lemma_same_listing(a, b, true);
    lemma_same_listing(a, b, false);
}

proof fn lemma_same_listing(a: Seq<ReportView>, b: Seq<ReportView>, supported: bool)
    requires
        a.len() == b.len() <= usize::MAX,
        forall|r: ReportView| #[trigger] a.contains(r) == b.contains(r),
        distinct_rules(a),
        distinct_rules(b),
    ensures
        listing(a, supported) == listing(b, supported),
        with_support(a, supported).len() == with_support(b, supported).len(),
{
    rules_are_listed(a, supported);
    rules_are_listed(b, supported);
    lemma_strictly_listed(a, supported);
    lemma_strictly_listed(b, supported);
    assert forall|r: ReportView| #[trigger] listing(a, supported).contains(r) == listing(
        b,
        supported,
    ).contains(r) by {
        assert(a.contains(r) == b.contains(r));
    }
    lemma_one_listing(listing(a, supported), listing(b, supported), supported);
}

/// Is the report on a rule that is supported, or on one that is not?
pub open spec fn of_support(supported: bool) -> spec_fn(ReportView) -> bool {
    |r: ReportView| r.supported == supported
}

/// Is the report on a rule with the relation?
pub open spec fn with_relation(relation: Relation) -> spec_fn(ReportView) -> bool {
    |r: ReportView| r.relations.contains(relation)
}

/// What is counted is the reports: those on supported rules, those on the others, and those on
/// rules with a relation, each once.
pub proof fn counts_are_of_reports(
    reports: Seq<ReportView>,
    supported: bool,
    relation: Relation,
)
    requires
        reports.len() <= usize::MAX,
    ensures
        with_support(reports, supported).len() == reports.filter(of_support(supported)).len(),
        at_positions(reports, with_support(reports, supported)) == reports.filter(
            of_support(supported),
        ),
        related(reports, relation) == reports.filter(with_relation(relation)).len(),
        listing(reports, supported).len() == reports.filter(of_support(supported)).len(),
    decreases reports.len(),
{
    reveal(Seq::filter);
    rules_are_listed(reports, supported);
    let all = with_support(reports, supported);
    if reports.len() > 0 {
        let shorter = reports.drop_last();
        counts_are_of_reports(shorter, supported, relation);
        lemma_with_support(shorter, supported);
        let earlier = with_support(shorter, supported);
        assert(at_positions(reports, earlier) =~= at_positions(shorter, earlier)) by {
            assert forall|k: int| 0 <= k < earlier.len() implies at_positions(reports, earlier)[k]
                == at_positions(shorter, earlier)[k] by {
                assert(earlier[k] < shorter.len());
            }
        }
        let last = (reports.len() - 1) as usize;
        assert(at_positions(reports, earlier.push(last)) =~= at_positions(reports, earlier).push(
            reports.last(),
        ));
    } else {
        assert(at_positions(reports, all) =~= reports.filter(of_support(supported)));
    }
}

/// The line of the markdown report that holds the counts: before ` supported` stands the number of
/// reports on supported rules, before ` unsupported` that of the others, whether or not domains
/// were given. The headings of the two sections hold the same numbers, and as many rows stand
/// under them.
pub proof fn markdown_counts_its_reports(
    reports: Seq<ReportView>,
    domains: Option<Seq<Seq<char>>>,
    source: Seq<char>,
    multi_source: bool,
    option: Option<Seq<char>>,
)
    requires
        reports.len() <= usize::MAX,
    ensures
        ({
            let lines = markdown_report(reports, domains, source, multi_source, option);
            let good = reports.filter(of_support(true)).len();
            let bad = reports.filter(of_support(false)).len();
            let targets = reports.filter(with_relation(Relation::Target)).len();
            let scopes = reports.filter(with_relation(Relation::Scope)).len();
            let at = if option is Some {
                10int
            } else {
                9int
            };
            let next = at + 4 + (if bad == 0 {
                1
            } else {
                2 + bad
            });
            &&& good + bad == reports.len()
            &&& domains is None ==> lines[at] == "**"@ + text::decimal(reports.len())
                + " rules checked** - "@ + text::decimal(good) + " supported, "@ + text::decimal(
                bad,
            ) + " unsupported."@
            &&& domains is Some ==> lines[at] == "**"@ + text::decimal(reports.len())
                + " matching rules** - "@ + text::decimal(good) + " supported, "@ + text::decimal(
                bad,
            ) + " unsupported (target: "@ + text::decimal(targets) + ", scope: "@ + text::decimal(
                scopes,
            ) + ")."@
            &&& lines[at + 1] == Seq::<char>::empty()
            &&& lines[at + 2] == "## Unsupported ("@ + text::decimal(bad) + ")"@
            &&& lines[at + 3] == Seq::<char>::empty()
            &&& bad == 0 ==> lines[at + 4] == "_None._"@
            &&& lines[next] == Seq::<char>::empty()
            &&& lines[next + 1] == "## Supported ("@ + text::decimal(good) + ")"@
            &&& lines[next + 2] == Seq::<char>::empty()
            &&& good == 0 ==> lines[next + 3] == "_None._"@
            &&& lines.len() == next + 3 + (if good == 0 {
                1
            } else {
                2 + good
            })
        }),
{
    let lines = markdown_report(reports, domains, source, multi_source, option);
    counts_are_of_reports(reports, true, Relation::Target);
    counts_are_of_reports(reports, false, Relation::Scope);
    counts_are_of_reports(reports, true, Relation::Scope);
    counts_add_up(reports);
    reveal_strlit("## ");
    reveal_strlit("Unsupported");
    reveal_strlit("Supported");
    reveal_strlit(" (");
    reveal_strlit("## Unsupported (");
    reveal_strlit("## Supported (");
    assert("## "@ + "Unsupported"@ + " ("@ =~= "## Unsupported ("@);
    assert("## "@ + "Supported"@ + " ("@ =~= "## Supported ("@);
    lemma_markdown_parts(reports, domains, source, multi_source, option);
}

/// Where the parts of the markdown report stand.
proof fn lemma_markdown_parts(
    reports: Seq<ReportView>,
    domains: Option<Seq<Seq<char>>>,
    source: Seq<char>,
    multi_source: bool,
    option: Option<Seq<char>>,
)
    requires
        reports.len() <= usize::MAX,
    ensures
        ({
            let lines = markdown_report(reports, domains, source, multi_source, option);
            let good = listing(reports, true).len();
            let bad = listing(reports, false).len();
            let at = if option is Some {
                10int
            } else {
                9int
            };
            let next = at + 4 + (if bad == 0 {
                1
            } else {
                2 + bad
            });
            let head = markdown_head(domains, source, option);
            let first = rule_table(reports, false, multi_source, domains is Some);
            let second = rule_table(reports, true, multi_source, domains is Some);
            &&& head.len() == at
            &&& first.len() == 2 + bad
            &&& second.len() == 2 + good
            &&& forall|k: int| 0 <= k < at ==> #[trigger] lines[k] == head[k]
            &&& lines[at] == summary_line(reports, domains is Some)
            &&& lines[at + 1] == Seq::<char>::empty()
            &&& lines[at + 2] == section_heading("Unsupported"@, bad)
            &&& lines[at + 3] == Seq::<char>::empty()
            &&& bad == 0 ==> lines[at + 4] == "_None._"@
            &&& bad > 0 ==> forall|k: int|
                0 <= k < 2 + bad ==> #[trigger] first[k] == lines[at + 4 + k]
            &&& lines[next] == Seq::<char>::empty()
            &&& lines[next + 1] == section_heading("Supported"@, good)
            &&& lines[next + 2] == Seq::<char>::empty()
            &&& good == 0 ==> lines[next + 3] == "_None._"@
            &&& good > 0 ==> forall|k: int|
                0 <= k < 2 + good ==> #[trigger] second[k] == lines[next + 3 + k]
            &&& lines.len() == next + 3 + (if good == 0 {
                1
            } else {
                2 + good
            })
        }),
{
    counts_are_of_reports(reports, true, Relation::Target);
    counts_are_of_reports(reports, false, Relation::Target);
    counts_add_up(reports);
    let head = markdown_head(domains, source, option);
    let good = listing(reports, true).len();
    let bad = listing(reports, false).len();
    let one = seq![
        summary_line(reports, domains is Some),
        Seq::empty(),
        section_heading("Unsupported"@, bad),
        Seq::empty(),
    ];
    let first = if bad == 0 {
        seq!["_None._"@]
    } else {
        rule_table(reports, false, multi_source, domains is Some)
    };
    let two = seq![Seq::empty(), section_heading("Supported"@, good), Seq::empty()];
    let second = if good == 0 {
        seq!["_None._"@]
    } else {
        rule_table(reports, true, multi_source, domains is Some)
    };
    let lines = markdown_report(reports, domains, source, multi_source, option);
    assert(lines == head + one + first + two + second);
    let at = head.len() as int;
    let next = at + 4 + first.len();
    assert(lines[at] == one[0] && lines[at + 1] == one[1] && lines[at + 2] == one[2] && lines[at
        + 3] == one[3]);
    assert forall|k: int| 0 <= k < first.len() implies #[trigger] first[k] == lines[at + 4 + k] by {}
    assert(first.len() > 0);
    assert(first[0] == lines[at + 4]);
    assert(lines[next] == two[0] && lines[next + 1] == two[1] && lines[next + 2] == two[2]);
    assert forall|k: int| 0 <= k < second.len() implies #[trigger] second[k] == lines[next + 3
        + k] by {}
    assert(second[0] == lines[next + 3]);
}

/// What the markdown report starts with.
pub proof fn markdown_says_what_it_is_on(
    reports: Seq<ReportView>,
    domains: Option<Seq<Seq<char>>>,
    source: Seq<char>,
    multi_source: bool,
    option: Option<Seq<char>>,
)
    requires
        reports.len() <= usize::MAX,
    ensures
        ({
            let lines = markdown_report(reports, domains, source, multi_source, option);
            let named = match domains {
                Some(d) => text::join(d, ", "@),
                None => "all (no domain filter)"@,
            };
            let last = if option is Some {
                7int
            } else {
                6int
            };
            &&& lines[0] == "# adblock-rust filter compatibility"@
            &&& lines[1] == Seq::<char>::empty()
            &&& lines[2] == "| | |"@
            &&& lines[3] == "|---|---|"@
            &&& lines[4] == "| Source | "@ + cell_text(source) + " |"@
            &&& lines[5] == "| Domains | "@ + cell_text(named) + " |"@
            &&& option matches Some(o) ==> lines[6] == "| Option | "@ + cell_text(o) + " |"@
            &&& lines[last] == "| adblock-rust | 0.12.x |"@
            &&& lines[last + 1] == "| Tool | adblock-rust-compat v0.1.0 |"@
            &&& lines[last + 2] == Seq::<char>::empty()
        }),
{
    lemma_markdown_parts(reports, domains, source, multi_source, option);
    let head = markdown_head(domains, source, option);
    let lines = markdown_report(reports, domains, source, multi_source, option);
    assert(lines[0] == head[0] && lines[1] == head[1] && lines[2] == head[2] && lines[3]
        == head[3] && lines[4] == head[4] && lines[5] == head[5] && lines[6] == head[6] && lines[7]
        == head[7] && lines[8] == head[8]);
    if option is Some {
        assert(lines[9] == head[9]);
    }
    reveal_strlit("| ");
    reveal_strlit(" | ");
    reveal_strlit(" |");
    reveal_strlit("Source");
    reveal_strlit("Domains");
    reveal_strlit("Option");
    reveal_strlit("adblock-rust");
    reveal_strlit("Tool");
    reveal_strlit("| Source | ");
    reveal_strlit("| Domains | ");
    reveal_strlit("| Option | ");
    reveal_strlit("0.12.x");
    reveal_strlit("adblock-rust-compat");
    reveal_strlit(" v");
    reveal_strlit("0.1.0");
    reveal_strlit("| adblock-rust | 0.12.x |");
    reveal_strlit("| Tool | adblock-rust-compat v0.1.0 |");
    assert("| "@ + "Source"@ + " | "@ =~= "| Source | "@);
    assert("| "@ + "Domains"@ + " | "@ =~= "| Domains | "@);
    assert("| "@ + "Option"@ + " | "@ =~= "| Option | "@);
    assert("| "@ + "adblock-rust"@ + " | "@ + "0.12.x"@ + " |"@ =~= "| adblock-rust | 0.12.x |"@);
    assert("| "@ + "Tool"@ + " | "@ + ("adblock-rust-compat"@ + " v"@ + "0.1.0"@) + " |"@
        =~= "| Tool | adblock-rust-compat v0.1.0 |"@);
}

/// A bar in a cell gets a backslash, wherever it stands, and nothing else changes.
pub proof fn cells_escape_bars_only(a: Seq<char>, b: Seq<char>)
    ensures
        cell_text(a + seq!['|'] + b) == cell_text(a) + seq!['\\', '|'] + cell_text(b),
        !a.contains('|') ==> cell_text(a) == a,
        cell_code(a) == seq!['`'] + cell_text(a) + seq!['`'],
    decreases a.len(),
{
    reveal_strlit("|");
    reveal_strlit("\\|");
    reveal_strlit("`");
    assert("|"@ =~= seq!['|']);
    assert("\\|"@ =~= seq!['\\', '|']);
    assert("`"@ =~= seq!['`']);
    let bar = seq!['|'];
    let out = seq!['\\', '|'];
    let all = a + bar + b;
    if a.len() == 0 {
        assert(all =~= bar + b);
        assert(all.subrange(0, 1) =~= bar);
        assert(all.skip(1) =~= b);
        assert(cell_text(a) =~= a);
        assert(cell_text(a) + out + cell_text(b) =~= out + cell_text(b));
    } else {
        let rest = a.skip(1);
        cells_escape_bars_only(rest, b);
        assert(all.skip(1) =~= rest + bar + b);
        assert(all.first() == a[0]);
        assert(all.subrange(0, 1)[0] == all[0] && a.subrange(0, 1)[0] == a[0]);
        if a[0] == '|' {
            assert(all.subrange(0, 1) =~= bar);
            assert(a.subrange(0, 1) =~= bar);
            assert(out + (cell_text(rest) + out + cell_text(b)) =~= (out + cell_text(rest)) + out
                + cell_text(b));
            assert(a.contains('|'));
        } else {
            let first = seq![a[0]];
            assert(first + (cell_text(rest) + out + cell_text(b)) =~= (first + cell_text(rest))
                + out + cell_text(b));
            if !a.contains('|') {
                assert forall|k: int| 0 <= k < rest.len() implies rest[k] != '|' by {
                    assert(a.contains(a[k + 1]));
                }
                assert(first + rest =~= a);
            }
        }
    }
}

/// How the relations of a report are named.
pub proof fn relations_are_named(r: ReportView)
    ensures
        r.relations == Seq::<Relation>::empty() ==> relation_names(r) == Seq::<char>::empty()
            && relation_mark(r) == Seq::<char>::empty(),
        r.relations == seq![Relation::Target] ==> relation_names(r) == "target"@ && relation_mark(r)
            == "[target] "@,
        r.relations == seq![Relation::Scope] ==> relation_names(r) == "scope"@ && relation_mark(r)
            == "[scope] "@,
        r.relations == seq![Relation::Target, Relation::Scope] ==> relation_names(r)
            == "target+scope"@ && relation_mark(r) == "[target+scope] "@,
{
    reveal_strlit("target");
    reveal_strlit("scope");
    reveal_strlit("+");
    reveal_strlit("target+scope");
    reveal_strlit("[");
    reveal_strlit("] ");
    reveal_strlit("[target] ");
    reveal_strlit("[scope] ");
    reveal_strlit("[target+scope] ");
    let names = r.relations.map_values(|rel: Relation| relation_name(rel));
    if r.relations == Seq::<Relation>::empty() {
        assert(names =~= Seq::<Seq<char>>::empty());
    }
    if r.relations == seq![Relation::Target] {
        assert(names =~= seq!["target"@]);
        assert("["@ + "target"@ + "] "@ =~= "[target] "@);
    }
    if r.relations == seq![Relation::Scope] {
        assert(names =~= seq!["scope"@]);
        assert("["@ + "scope"@ + "] "@ =~= "[scope] "@);
    }
    if r.relations == seq![Relation::Target, Relation::Scope] {
        assert(names =~= seq!["target"@].push("scope"@));
        text::parts_are_joined_in_order(seq!["target"@], "scope"@, "+"@);
        text::parts_are_joined_in_order(Seq::empty(), "target"@, "+"@);
        assert("target"@ + "+"@ + "scope"@ =~= "target+scope"@);
        assert("["@ + "target+scope"@ + "] "@ =~= "[target+scope] "@);
    }
}

/// The rows on the rules in the markdown report, one for each rule in the order of the listing:
/// the columns for sources and tags stand first, where there are several sources and where domains
/// were given; then the reason against the rule, or its type, and the rule itself as code.
pub proof fn markdown_has_a_row_for_each_rule(
    reports: Seq<ReportView>,
    domains: Option<Seq<Seq<char>>>,
    source: Seq<char>,
    multi_source: bool,
    option: Option<Seq<char>>,
    supported: bool,
    k: int,
)
    requires
        reports.len() <= usize::MAX,
        0 <= k < listing(reports, supported).len(),
    ensures
        ({
            let lines = markdown_report(reports, domains, source, multi_source, option);
            let bad = reports.filter(of_support(false)).len();
            let at = (if option is Some {
                14int
            } else {
                13int
            }) + (if !supported {
                0
            } else if bad == 0 {
                4
            } else {
                5 + bad
            });
            let r = listing(reports, supported)[k];
            let none = Seq::<char>::empty();
            &&& lines[at] == "| "@ + (if multi_source {
                "Source | "@
            } else {
                none
            }) + (if domains is Some {
                "Tags | "@
            } else {
                none
            }) + (if supported {
                "Type"@
            } else {
                "Reason"@
            }) + " | Rule |"@
            &&& lines[at + 1] == (if multi_source {
                "|---"@
            } else {
                none
            }) + (if domains is Some {
                "|---"@
            } else {
                none
            }) + "|---|---|"@
            &&& lines[at + 2 + k] == "| "@ + (if multi_source {
                cell_text(text::join(r.sources, "+"@)) + " | "@
            } else {
                none
            }) + (if domains is Some {
                relation_names(r) + " | "@
            } else {
                none
            }) + (if supported {
                match r.filter_type {
                    Some(t) => t,
                    None => "?"@,
                }
            } else {
                cell_text(
                    match r.reason {
                        Some(t) => t,
                        None => "?"@,
                    },
                )
            }) + " | "@ + cell_code(r.rule) + " |"@
        }),
{
    counts_are_of_reports(reports, false, Relation::Target);
    lemma_markdown_parts(reports, domains, source, multi_source, option);
    let filtered = domains is Some;
    let part = rule_table(reports, supported, multi_source, filtered);
    let all = listing(reports, supported);
    let rows = all.map_values(|r: ReportView| rule_cells(r, supported, multi_source, filtered));
    assert(part[0] == table_row(rule_headers(supported, multi_source, filtered)));
    assert(part[2 + k] == table_row(rows[k]));
    assert(rows[k] == rule_cells(all[k], supported, multi_source, filtered));
    lemma_row(all[k], supported, multi_source, filtered);
    lemma_header(supported, multi_source, filtered);
}

/// The line on a report, put together.
proof fn lemma_row(r: ReportView, supported: bool, multi_source: bool, domain_filtered: bool)
    ensures
        ({
            let none = Seq::<char>::empty();
            table_row(rule_cells(r, supported, multi_source, domain_filtered)) == "| "@ + (
            if multi_source {
                cell_text(source_names(r)) + " | "@
            } else {
                none
            }) + (if domain_filtered {
                relation_names(r) + " | "@
            } else {
                none
            }) + heading_cell(r, supported) + " | "@ + cell_code(r.rule) + " |"@
        }),
{
    let sep = " | "@;
    let a = cell_text(source_names(r));
    let b = relation_names(r);
    let c = heading_cell(r, supported);
    let d = cell_code(r.rule);
    lemma_joined(a, b, c, d, sep, multi_source, domain_filtered);
    let cells = rule_cells(r, supported, multi_source, domain_filtered);
    assert(cells =~= (if multi_source {
        seq![a]
    } else {
        Seq::empty()
    }) + (if domain_filtered {
        seq![b]
    } else {
        Seq::empty()
    }) + seq![c, d]);
    let none = Seq::<char>::empty();
    let x = if multi_source {
        a + sep
    } else {
        none
    };
    let y = if domain_filtered {
        b + sep
    } else {
        none
    };
    assert("| "@ + (x + y + c + sep + d) + " |"@ =~= "| "@ + x + y + c + sep + d + " |"@);
}

/// Up to four cells, joined.
proof fn lemma_joined(
    a: Seq<char>,
    b: Seq<char>,
    c: Seq<char>,
    d: Seq<char>,
    sep: Seq<char>,
    first: bool,
    second: bool,
)
    ensures
        text::join(
            (if first {
                seq![a]
            } else {
                Seq::empty()
            }) + (if second {
                seq![b]
            } else {
                Seq::empty()
            }) + seq![c, d],
            sep,
        ) == (if first {
            a + sep
        } else {
            Seq::empty()
        }) + (if second {
            b + sep
        } else {
            Seq::empty()
        }) + c + sep + d,
{
    let none = Seq::<Seq<char>>::empty();
    text::parts_are_joined_in_order(seq![c], d, sep);
    text::parts_are_joined_in_order(none, c, sep);
    assert(seq![c].push(d) =~= seq![c, d]);
    let last = c + sep + d;
    let x = if second {
        seq![b] + seq![c, d]
    } else {
        seq![c, d]
    };
    text::lemma_join_front(b, seq![c, d], sep);
    let told = if second {
        b + sep + last
    } else {
        last
    };
    assert(text::join(x, sep) == told);
    text::lemma_join_front(a, x, sep);
    let cells = (if first {
        seq![a]
    } else {
        none
    }) + (if second {
        seq![b]
    } else {
        none
    }) + seq![c, d];
    assert(cells =~= (if first {
        seq![a] + x
    } else {
        x
    }));
    let e = Seq::<char>::empty();
    let front = if first {
        a + sep
    } else {
        e
    };
    let back = if second {
        b + sep
    } else {
        e
    };
    assert(back + last =~= told);
    assert(front + (back + last) =~= front + back + c + sep + d);
    assert(text::join(cells, sep) =~= front + told);
}

/// The first two lines of a table of rules, put together.
proof fn lemma_header(supported: bool, multi_source: bool, domain_filtered: bool)
    ensures
        ({
            let none = Seq::<char>::empty();
            let names = rule_headers(supported, multi_source, domain_filtered);
            &&& table_row(names) == "| "@ + (if multi_source {
                "Source | "@
            } else {
                none
            }) + (if domain_filtered {
                "Tags | "@
            } else {
                none
            }) + (if supported {
                "Type"@
            } else {
                "Reason"@
            }) + " | Rule |"@
            &&& "|"@ + text::join(Seq::new(names.len(), |i: int| "---"@), "|"@) + "|"@ == (
            if multi_source {
                "|---"@
            } else {
                none
            }) + (if domain_filtered {
                "|---"@
            } else {
                none
            }) + "|---|---|"@
        }),
{
    reveal_strlit("Source");
    reveal_strlit("Tags");
    reveal_strlit("Rule");
    reveal_strlit(" | ");
    reveal_strlit("| ");
    reveal_strlit(" |");
    reveal_strlit("Source | ");
    reveal_strlit("Tags | ");
    reveal_strlit(" | Rule |");
    reveal_strlit("|");
    reveal_strlit("---");
    reveal_strlit("|---");
    reveal_strlit("|---|---|");
    let none = Seq::<char>::empty();
    let c = if supported {
        "Type"@
    } else {
        "Reason"@
    };
    lemma_joined("Source"@, "Tags"@, c, "Rule"@, " | "@, multi_source, domain_filtered);
    let names = rule_headers(supported, multi_source, domain_filtered);
    assert("Source"@ + " | "@ =~= "Source | "@);
    assert("Tags"@ + " | "@ =~= "Tags | "@);
    assert(" | "@ + "Rule"@ + " |"@ =~= " | Rule |"@);
    let x = if multi_source {
        "Source | "@
    } else {
        none
    };
    let y = if domain_filtered {
        "Tags | "@
    } else {
        none
    };
    assert("| "@ + (x + y + c + " | "@ + "Rule"@) + " |"@ =~= "| "@ + x + y + c + (" | "@ + "Rule"@
        + " |"@));

    let dash = "---"@;
    lemma_joined(dash, dash, dash, dash, "|"@, multi_source, domain_filtered);
    let dashes = Seq::new(names.len(), |i: int| "---"@);
    assert(dashes =~= (if multi_source {
        seq![dash]
    } else {
        Seq::empty()
    }) + (if domain_filtered {
        seq![dash]
    } else {
        Seq::empty()
    }) + seq![dash, dash]);
    let p = if multi_source {
        dash + "|"@
    } else {
        none
    };
    let q = if domain_filtered {
        dash + "|"@
    } else {
        none
    };
    let v = if multi_source {
        "|---"@
    } else {
        none
    };
    let w = if domain_filtered {
        "|---"@
    } else {
        none
    };
    assert("|"@ + (p + q + dash + "|"@ + dash) + "|"@ =~= v + w + "|---|---|"@);
}

/// The report for the terminal, line by line: the three counts; if there are unsupported rules,
/// those in the order of the listing, each with the reason against it; and where they are asked
/// for, the supported rules in the order of the reports, each with its type.
pub proof fn terminal_lines_are_these(
    reports: Seq<ReportView>,
    show_supported: bool,
    domain_filtered: bool,
    multi_source: bool,
)
    requires
        reports.len() <= usize::MAX,
    ensures
        ({
            let lines = terminal_report(reports, show_supported, domain_filtered, multi_source);
            let good = reports.filter(of_support(true));
            let bad = listing(reports, false);
            let targets = reports.filter(with_relation(Relation::Target)).len();
            let scopes = reports.filter(with_relation(Relation::Scope)).len();
            let next = 3 + (if bad.len() == 0 {
                0
            } else {
                2 + bad.len() as int
            });
            let none = Seq::<char>::empty();
            &&& domain_filtered ==> lines[0] == "Matching rules: "@ + text::decimal(reports.len())
                + "  (target: "@ + text::decimal(targets) + ", scope: "@ + text::decimal(scopes)
                + ")"@
            &&& !domain_filtered ==> lines[0] == "Rules checked:  "@ + text::decimal(reports.len())
            &&& lines[1] == "Supported:      "@ + text::decimal(good.len())
            &&& lines[2] == "Unsupported:    "@ + text::decimal(bad.len())
            &&& bad.len() == reports.filter(of_support(false)).len()
            &&& bad.len() > 0 ==> lines[3] == none && lines[4] == "=== UNSUPPORTED RULES ==="@
            &&& forall|k: int|
                0 <= k < bad.len() ==> lines[5 + k] == (if multi_source {
                    "<"@ + text::join(bad[k].sources, "+"@) + "> "@
                } else {
                    none
                }) + relation_mark(#[trigger] bad[k]) + "("@ + (match bad[k].reason {
                    Some(t) => t,
                    None => "?"@,
                }) + ") "@ + bad[k].rule
            &&& show_supported ==> lines.len() == next + 2 + good.len() && lines[next] == none
                && lines[next + 1] == "=== SUPPORTED RULES ==="@ && forall|k: int|
                0 <= k < good.len() ==> lines[next + 2 + k] == (if multi_source {
                    "<"@ + text::join(good[k].sources, "+"@) + "> "@
                } else {
                    none
                }) + relation_mark(#[trigger] good[k]) + "["@ + (match good[k].filter_type {
                    Some(t) => t,
                    None => "?"@,
                }) + "] "@ + good[k].rule
            &&& !show_supported ==> lines.len() == next
        }),
{
    counts_are_of_reports(reports, true, Relation::Target);
    counts_are_of_reports(reports, true, Relation::Scope);
    counts_are_of_reports(reports, false, Relation::Target);
    counts_add_up(reports);
    let lines = terminal_report(reports, show_supported, domain_filtered, multi_source);
    let good = reports.filter(of_support(true));
    let bad = listing(reports, false);
    let counts = seq![
        count_line(reports, domain_filtered),
        "Supported:      "@ + text::decimal(good.len()),
        "Unsupported:    "@ + text::decimal(bad.len()),
    ];
    let told = bad.map_values(|r: ReportView| line_on(r, false, multi_source));
    let first = if bad.len() == 0 {
        Seq::empty()
    } else {
        seq![Seq::empty(), "=== UNSUPPORTED RULES ==="@] + told
    };
    let shown = good.map_values(|r: ReportView| line_on(r, true, multi_source));
    let second = if show_supported {
        seq![Seq::empty(), "=== SUPPORTED RULES ==="@] + shown
    } else {
        Seq::empty()
    };
    assert(lines == counts + first + second);
    assert(lines[0] == counts[0] && lines[1] == counts[1] && lines[2] == counts[2]);
    let next = 3 + first.len() as int;
    if bad.len() > 0 {
        assert(lines[3] == first[0] && lines[4] == first[1]);
    }
    assert forall|k: int| 0 <= k < bad.len() implies lines[5 + k] == line_on(
        #[trigger] bad[k],
        false,
        multi_source,
    ) by {
        assert(first[2 + k] == told[k]);
        assert(lines[5 + k] == first[2 + k]);
    }
    if show_supported {
        assert(lines[next] == second[0] && lines[next + 1] == second[1]);
        assert forall|k: int| 0 <= k < good.len() implies lines[next + 2 + k] == line_on(
            #[trigger] good[k],
            true,
            multi_source,
        ) by {
            assert(second[2 + k] == shown[k]);
            assert(lines[next + 2 + k] == second[2 + k]);
        }
    }
}

/// The order of a listing: a rule without a heading stands before those with one, headings stand
/// in the order of their texts, and rules under one heading in the order of theirs; what is the
/// same in both stays in the order of the reports. The heading of a supported rule is its type,
/// that of another the reason against it.
pub proof fn listings_go_by_heading_and_rule(reports: Seq<ReportView>, supported: bool) -> (
    positions: Seq<usize>)
    requires
        reports.len() <= usize::MAX,
    ensures
        ({
            let all = listing(reports, supported);
            &&& positions.len() == all.len()
            &&& positions.no_duplicates()
            &&& forall|k: int|
                0 <= k < all.len() ==> #[trigger] positions[k] < reports.len() && all[k]
                    == reports[positions[k] as int]
            &&& forall|i: int, j: int|
                #![trigger positions[i], positions[j]]
                0 <= i < j < all.len() ==> ({
                    let a = if supported {
                        all[i].filter_type
                    } else {
                        all[i].reason
                    };
                    let b = if supported {
                        all[j].filter_type
                    } else {
                        all[j].reason
                    };
                    match (a, b) {
                        (None, Some(_)) => true,
                        (Some(_), None) => false,
                        (Some(x), Some(y)) => text::precedes(x, y) || (x == y && (text::precedes(
                            all[i].rule,
                            all[j].rule,
                        ) || (all[i].rule == all[j].rule && positions[i] < positions[j]))),
                        (None, None) => text::precedes(all[i].rule, all[j].rule) || (all[i].rule
                            == all[j].rule && positions[i] < positions[j]),
                    }
                })
        }),
{
    let keys = keys_of(reports, supported);
    let chosen = with_support(reports, supported);
    let l = order::listed(keys, chosen);
    let all = listing(reports, supported);
    lemma_with_support(reports, supported);
    order::listings_are_sorted(keys, chosen);
    order::listings_are_in_order(keys, chosen);
    assert(chosen.no_duplicates());
    chosen.lemma_multiset_has_no_duplicates();
    l.lemma_multiset_has_no_duplicates_conv();
    lemma_listing(reports, supported, l);
    assert forall|k: int| 0 <= k < l.len() implies #[trigger] l[k] < reports.len() by {
        vstd::seq_lib::to_multiset_contains(l, l[k]);
        vstd::seq_lib::to_multiset_contains(chosen, l[k]);
        assert(l.contains(l[k]));
        assert(chosen.contains(l[k]));
        let m = choose|m: int| 0 <= m < chosen.len() && chosen[m] == l[k];
        assert(chosen[m] < reports.len());
    }
    assert forall|i: int, j: int|
        #![trigger l[i], l[j]]
        0 <= i < j < all.len() implies order::key_before(
        key_of(all[i], supported),
        key_of(all[j], supported),
    ) || (key_of(all[i], supported) == key_of(all[j], supported) && l[i] < l[j]) by {
        assert(l[i] != l[j]);
        assert(keys[l[i] as int] == key_of(all[i], supported));
        assert(keys[l[j] as int] == key_of(all[j], supported));
    }
    l
}

/// A table holds the row of its headers, a row of dashes for each of them, and one row for each
/// that it was given, in order.
pub proof fn tables_have_a_line_for_each_row(
    headers: Seq<Seq<char>>,
    rows: Seq<Seq<Seq<char>>>,
    k: int,
)
    requires
        0 <= k < rows.len(),
    ensures
        ({
            let lines = table(headers, rows);
            &&& lines.len() == 2 + rows.len()
            &&& lines[0] == "| "@ + text::join(headers, " | "@) + " |"@
            &&& lines[1] == "|"@ + text::join(Seq::new(headers.len(), |i: int| "---"@), "|"@)
                + "|"@
            &&& lines[2 + k] == "| "@ + text::join(rows[k], " | "@) + " |"@
        }),
{
    assert(table(headers, rows)[2 + k] == table_row(rows[k]));
}

/// The lines of the markdown report and of that for the terminal agree on how many rules are
/// supported and how many are not.
pub proof fn reports_agree_on_their_counts(
    reports: &[RuleReport],
    source: &str,
    multi_source: bool,
    show_supported: bool,
    a: Vec<String>,
    b: Vec<String>,
)
    requires
        reports@.len() <= usize::MAX,
        call_ensures(markdown_lines, (reports, None, source, multi_source, None), a),
        call_ensures(report_lines, (reports, show_supported, false, multi_source), b),
    ensures
        ({
            let all = report::reports_of(reports@);
            let good = all.filter(of_support(true)).len();
            let bad = all.filter(of_support(false)).len();
            let markdown = text::of_strings(a@);
            let terminal = text::of_strings(b@);
            &&& markdown[9] == "**"@ + text::decimal(reports@.len()) + " rules checked** - "@
                + text::decimal(good) + " supported, "@ + text::decimal(bad) + " unsupported."@
            &&& terminal[0] == "Rules checked:  "@ + text::decimal(reports@.len())
            &&& terminal[1] == "Supported:      "@ + text::decimal(good)
            &&& terminal[2] == "Unsupported:    "@ + text::decimal(bad)
            &&& good + bad == reports@.len()
        }),
{
    let all = report::reports_of(reports@);
    assert(all.len() == reports@.len());
    markdown_counts_its_reports(all, None, source@, multi_source, None);
    terminal_lines_are_these(all, show_supported, false, multi_source);
}

/// Names of relations stand in the order of the relations, with a plus between them, and in square
/// brackets before a rule.
pub proof fn relations_are_named_in_order(r: ReportView, more: ReportView, last: Relation)
    requires
        more.relations == r.relations.push(last),
        r.relations.len() > 0,
    ensures
        relation_names(more) == relation_names(r) + "+"@ + (match last {
            Relation::Target => "target"@,
            Relation::Scope => "scope"@,
        }),
        relation_mark(more) == "["@ + relation_names(more) + "] "@,
        relation_mark(r) == "["@ + relation_names(r) + "] "@,
{
    let names = r.relations.map_values(|rel: Relation| relation_name(rel));
    assert(more.relations.map_values(|rel: Relation| relation_name(rel)) =~= names.push(
        relation_name(last),
    ));
    text::parts_are_joined_in_order(names, relation_name(last), "+"@);
}

} // verus!
