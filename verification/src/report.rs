//! The reports on the rules of filter lists: which are kept, where they come from, how they
//! relate to the domains, and whether the engine supports them.

use vstd::hash_map::StringHashMap;
use vstd::hash_set::StringHashSet;
use vstd::prelude::*;

use crate::chars;
use crate::domains;
use crate::domains::{DomainMatcher, Relation};
use crate::filters;
use crate::filters::{ParseOutcome, ParsedRule};
use crate::lists;
use crate::options;
use crate::resources;
use crate::resources::{ResourceChecker, ResourceStatus};
use crate::text;

verus! {

/// A filter list: `name` is the short label shown with each rule (such as `ubo`), `label` is the
/// resolved URL or path that the report is headed by, and `text` holds its contents.
pub struct Source {
    pub name: String,
    pub label: String,
    pub text: String,
}

/// What is reported of one rule.
pub struct RuleReport {
    pub rule: String,
    /// The names of the lists that the rule came from; it can stand in more than one.
    pub sources: Vec<String>,
    pub relations: Vec<Relation>,
    pub supported: bool,
    pub filter_type: Option<&'static str>,
    pub reason: Option<String>,
    /// Where probing was asked for, what is unsupported about an unsupported rule: for a network
    /// rule, the options that fail in isolation; for a cosmetic rule, its types.
    pub unsupported_options: Vec<String>,
}

/// The view of a [`Source`], as far as the reports depend on it.
pub struct SourceView {
    pub name: Seq<char>,
    pub text: Seq<char>,
}

/// The view of a [`RuleReport`].
pub struct ReportView {
    pub rule: Seq<char>,
    pub sources: Seq<Seq<char>>,
    pub relations: Seq<Relation>,
    pub supported: bool,
    pub filter_type: Option<Seq<char>>,
    pub reason: Option<Seq<char>>,
    pub unsupported_options: Seq<Seq<char>>,
}

impl View for Source {
    type V = SourceView;

    open spec fn view(&self) -> SourceView {
        SourceView { name: self.name@, text: self.text@ }
    }
}

impl View for RuleReport {
    type V = ReportView;

    open spec fn view(&self) -> ReportView {
        ReportView {
            rule: self.rule@,
            sources: text::of_strings(self.sources@),
            relations: self.relations@,
            supported: self.supported,
            filter_type: text::of_opt_str(self.filter_type),
            reason: text::of_opt_string(self.reason),
            unsupported_options: text::of_strings(self.unsupported_options@),
        }
    }
}

/// The views of sources.
pub open spec fn sources_of(v: Seq<Source>) -> Seq<SourceView> {
    v.map_values(|s: Source| s@)
}

/// The views of reports.
pub open spec fn reports_of(v: Seq<RuleReport>) -> Seq<ReportView> {
    v.map_values(|r: RuleReport| r@)
}

/// The labels of sources.
pub open spec fn labels_of(v: Seq<Source>) -> Seq<Seq<char>> {
    v.map_values(|s: Source| s.label@)
}

/// What is asked of a scan: the domains that a rule has to relate to, if any; the option that it
/// has to use, if any; whether unsupported options are looked for; and the resources.
pub struct Scan {
    pub domains: Option<Seq<Seq<char>>>,
    pub option: Option<Seq<char>>,
    pub probe: bool,
    pub entries: Seq<resources::EntryView>,
}

/// The scan that the arguments of [`collect_reports`] ask for.
pub open spec fn scan_of(
    matcher: Option<&DomainMatcher>,
    option_filter: Option<&str>,
    probe: bool,
    resources: &ResourceChecker,
) -> Scan {
    Scan {
        domains: match matcher {
            Some(m) => Some(m@),
            None => None,
        },
        option: text::of_opt_str(option_filter),
        probe,
        entries: resources@,
    }
}

/// Is a rule supported, and if not, why? It is only if the engine parses it and the resource that
/// it needs, if it needs one, resolves.
pub open spec fn verdict(
    entries: Seq<resources::EntryView>,
    rule: Seq<char>,
    parsed: Option<filters::ParsedView>,
    parse_error: Option<Seq<char>>,
) -> (bool, Option<Seq<char>>) {
    match parsed {
        None => (false, parse_error),
        Some(p) => match resources::status_of(entries, p, rule) {
            ResourceStatus::NotApplicable => (true, None),
            ResourceStatus::Resolved => (true, None),
            ResourceStatus::Missing => (false, Some("resource missing"@)),
            ResourceStatus::RequiresPermission => (false, Some("resource requires permission"@)),
        },
    }
}

/// How a rule relates to the domains: by what the engine read in it, or by its text where the
/// engine refused it.
pub open spec fn relations_of(
    domains: Seq<Seq<char>>,
    rule: Seq<char>,
    parsed: Option<filters::ParsedView>,
) -> Seq<Relation> {
    match parsed {
        Some(p) => domains::parsed_relations(domains, p),
        None => domains::raw_relations(domains, rule),
    }
}

/// The relations that a scan finds.
pub open spec fn scan_relations(
    scan: Scan,
    rule: Seq<char>,
    parsed: Option<filters::ParsedView>,
) -> Seq<Relation> {
    match scan.domains {
        Some(d) => relations_of(d, rule, parsed),
        None => Seq::empty(),
    }
}

/// Does the rule use the option that the scan asks for?
pub open spec fn has_option(scan: Scan, rule: Seq<char>) -> bool {
    scan.option matches Some(o) ==> options::options_of(rule).contains(o)
}

/// Does the scan keep a rule, given what the engine says of it?
pub open spec fn keeps(scan: Scan, rule: Seq<char>, outcome: filters::OutcomeView) -> bool {
    has_option(scan, rule) && (scan.domains is Some ==> scan_relations(
        scan,
        rule,
        filters::parts_of(outcome).0,
    ).len() > 0)
}

/// The options that the engine does not know, in order.
pub open spec fn unknown_options(opts: Seq<Seq<char>>) -> Seq<Seq<char>>
    decreases opts.len(),
{
    if opts.len() == 0 {
        Seq::empty()
    } else {
        let earlier = unknown_options(opts.drop_last());
        if filters::option_known(opts.last()) {
            earlier
        } else {
            earlier.push(opts.last())
        }
    }
}

/// What is unsupported about an unsupported rule of the given type.
pub open spec fn blamed_options(rule: Seq<char>, filter_type: Option<Seq<char>>) -> Seq<
    Seq<char>,
> {
    if filter_type == Some("network"@) {
        unknown_options(options::options_of(rule))
    } else {
        options::options_of(rule)
    }
}

/// The report on a rule, given what the engine says of it and the lists that it came from.
pub open spec fn report_on(
    scan: Scan,
    rule: Seq<char>,
    outcome: filters::OutcomeView,
    sources: Seq<Seq<char>>,
) -> ReportView {
    let (parsed, filter_type, parse_error) = filters::parts_of(outcome);
    let (supported, reason) = verdict(scan.entries, rule, parsed, parse_error);
    ReportView {
        rule,
        sources,
        relations: scan_relations(scan, rule, parsed),
        supported,
        filter_type,
        reason,
        unsupported_options: if scan.probe && !supported {
            blamed_options(rule, filter_type)
        } else {
            Seq::empty()
        },
    }
}

/// Can the resource that the outcome needs be looked up?
pub open spec fn outcome_resolvable(rule: Seq<char>, outcome: filters::OutcomeView) -> bool {
    filters::parts_of(outcome).0 matches Some(p) ==> resources::resolvable(p, rule)
}

/// Is a rule supported, and if not, why?
pub fn support(
    rule: &str,
    parsed: &Option<ParsedRule>,
    parse_error: Option<String>,
    resources: &ResourceChecker,
) -> (r: (bool, Option<String>))
    requires
        parsed matches Some(p) ==> resources::resolvable(p@, rule@),
    ensures
        (r.0, text::of_opt_string(r.1)) == verdict(
            resources@,
            rule@,
            match *parsed {
                Some(p) => Some(p@),
                None => None,
            },
            text::of_opt_string(parse_error),
        ),
{
    match parsed {
        None => (false, parse_error),
        Some(p) => match resources.check_rule(p, rule) {
            ResourceStatus::NotApplicable => (true, None),
            ResourceStatus::Resolved => (true, None),
            ResourceStatus::Missing => (false, Some("resource missing".to_string())),
            ResourceStatus::RequiresPermission => (
                false,
                Some("resource requires permission".to_string()),
            ),
        },
    }
}

/// Does the rule use the option, if one is given?
fn uses_option(rule: &str, option_filter: Option<&str>) -> (r: bool)
    ensures
        r == (text::of_opt_str(option_filter) matches Some(o) ==> options::options_of(
            rule@,
        ).contains(o)),
{
    match option_filter {
        Some(o) => chars::holds(&options::rule_options(rule), chars::chars_of(o).as_slice()),
        None => true,
    }
}

/// Does the cache hold true answers only?
spec fn cache_valid(cache: Map<Seq<char>, bool>) -> bool {
    forall|o: Seq<char>| #[trigger]
        cache.contains_key(o) ==> cache[o] == filters::option_known(o)
}

/// Is the option known, by the cache where it has the answer?
fn known_by_cache(cache: &mut StringHashMap<bool>, name: &str) -> (r: bool)
    requires
        cache_valid(old(cache)@),
    ensures
        r == filters::option_known(name@),
        cache_valid(final(cache)@),
{
    match cache.get(name) {
        Some(known) => *known,
        None => {
            let known: bool = filters::option_supported(name);
            cache.insert(name.to_string(), known);
            known
        },
    }
}

/// What is unsupported about an unsupported rule of the given type.
fn blame(rule: &str, filter_type: Option<&'static str>, cache: &mut StringHashMap<bool>) -> (r: Vec<
    String,
>)
    requires
        cache_valid(old(cache)@),
    ensures
        text::of_strings(r@) == blamed_options(rule@, text::of_opt_str(filter_type)),
        cache_valid(final(cache)@),
{
    let opts: Vec<String> = options::rule_options(rule);
    let network: bool = match filter_type {
        Some(t) => chars::same_str(t, "network"),
        None => false,
    };
    if !network {
        return opts;
    }
    let mut out: Vec<String> = Vec::new();
    let ghost all = text::of_strings(opts@);
    let n: usize = opts.len();
    let mut i: usize = 0;
    assert(text::of_strings(out@) == unknown_options(all.take(0)));
    while i < n
        invariant
            i <= n == opts@.len(),
            all == text::of_strings(opts@),
            text::of_strings(out@) == unknown_options(all.take(i as int)),
            cache_valid(cache@),
        decreases n - i,
    {
        assert(all.take(i + 1).drop_last() == all.take(i as int));
        assert(all[i as int] == opts@[i as int]@);
        let ghost before = out@;
        if !known_by_cache(cache, opts[i].as_str()) {
            out.push(opts[i].clone());
            assert(text::of_strings(out@) == text::of_strings(before).push(all[i as int]));
        }
        i += 1;
    }
    assert(all.take(n as int) == all);
    out
}

/// The report, with no source yet, on a rule that uses the option asked for; `None` if the rule
/// does not relate to the domains. The cache holds what is known of options.
fn examine(
    rule: &str,
    outcome: ParseOutcome,
    matcher: Option<&DomainMatcher>,
    option_filter: Option<&str>,
    probe: bool,
    resources: &ResourceChecker,
    cache: &mut StringHashMap<bool>,
) -> (r: Option<RuleReport>)
    requires
        has_option(scan_of(matcher, option_filter, probe, resources), rule@),
        keeps(scan_of(matcher, option_filter, probe, resources), rule@, outcome@)
            ==> outcome_resolvable(rule@, outcome@),
        cache_valid(old(cache)@),
    ensures
        ({
            let scan = scan_of(matcher, option_filter, probe, resources);
            if keeps(scan, rule@, outcome@) {
                r matches Some(report) && report@ == report_on(
                    scan,
                    rule@,
                    outcome@,
                    Seq::empty(),
                )
            } else {
                r is None
            }
        }),
        cache_valid(final(cache)@),
{
    let ghost given = outcome@;
    let (parsed, filter_type, parse_error) = filters::parts(outcome);
    let ghost parts = filters::parts_of(given);
    assert(filters::view_of_parts((parsed, filter_type, parse_error)) == parts);
    let relations: Vec<Relation> = match matcher {
        Some(m) => {
            let rels: Vec<Relation> = match &parsed {
                Some(p) => m.relations_parsed(p),
                None => m.relations_raw(rule),
            };
            if rels.len() == 0 {
                return None;
            }
            rels
        },
        None => Vec::new(),
    };
    let (supported, reason) = support(rule, &parsed, parse_error, resources);
    let unsupported_options: Vec<String> = if probe && !supported {
        blame(rule, filter_type, cache)
    } else {
        Vec::new()
    };
    let report = RuleReport {
        rule: rule.to_string(),
        sources: Vec::new(),
        relations,
        supported,
        filter_type,
        reason,
        unsupported_options,
    };
    proof {
        let scan = scan_of(matcher, option_filter, probe, resources);
        assert(report@.sources == Seq::<Seq<char>>::empty());
        assert(report@.relations == scan_relations(scan, rule@, parts.0));
        assert(report@.unsupported_options == report_on(
            scan,
            rule@,
            given,
            Seq::empty(),
        ).unsupported_options);
    }
    Some(report)
}

/// The report, with no source yet, on a rule, given what the engine says of it; `None` if the scan
/// does not keep the rule.
pub fn report_rule(
    rule: &str,
    outcome: ParseOutcome,
    matcher: Option<&DomainMatcher>,
    option_filter: Option<&str>,
    probe: bool,
    resources: &ResourceChecker,
) -> (r: Option<RuleReport>)
    requires
        keeps(scan_of(matcher, option_filter, probe, resources), rule@, outcome@)
            ==> outcome_resolvable(rule@, outcome@),
    ensures
        ({
            let scan = scan_of(matcher, option_filter, probe, resources);
            if keeps(scan, rule@, outcome@) {
                r matches Some(report) && report@ == report_on(
                    scan,
                    rule@,
                    outcome@,
                    Seq::empty(),
                )
            } else {
                r is None
            }
        }),
{
    if uses_option(rule, option_filter) {
        let mut cache: StringHashMap<bool> = StringHashMap::new();
        examine(rule, outcome, matcher, option_filter, probe, resources, &mut cache)
    } else {
        None
    }
}

/// Each rule of the sources, with the name of its source, in order.
pub open spec fn occurrences(sources: Seq<SourceView>) -> Seq<(Seq<char>, Seq<char>)>
    decreases sources.len(),
{
    if sources.len() == 0 {
        Seq::empty()
    } else {
        occurrences(sources.drop_last()) + tagged(
            sources.last().name,
            lists::rules_in(sources.last().text),
        )
    }
}

/// The rules, each with the name of the source that they stand in.
pub open spec fn tagged(name: Seq<char>, rules: Seq<Seq<char>>) -> Seq<(Seq<char>, Seq<char>)> {
    rules.map_values(|r: Seq<char>| (name, r))
}

/// Does the scan keep the rule?
pub open spec fn kept(scan: Scan, rule: Seq<char>) -> bool {
    keeps(scan, rule, filters::filter_outcome(rule, true))
}

/// The rules that the scan keeps, each once, in the order of their first occurrence.
pub open spec fn kept_rules(scan: Scan, occ: Seq<(Seq<char>, Seq<char>)>) -> Seq<Seq<char>>
    decreases occ.len(),
{
    if occ.len() == 0 {
        Seq::empty()
    } else {
        let earlier = kept_rules(scan, occ.drop_last());
        let rule = occ.last().1;
        if kept(scan, rule) && !earlier.contains(rule) {
            earlier.push(rule)
        } else {
            earlier
        }
    }
}

/// The names of the sources that the rule stands in, each once, in order.
pub open spec fn names_of(occ: Seq<(Seq<char>, Seq<char>)>, rule: Seq<char>) -> Seq<Seq<char>>
    decreases occ.len(),
{
    if occ.len() == 0 {
        Seq::empty()
    } else {
        let earlier = names_of(occ.drop_last(), rule);
        let (name, r) = occ.last();
        if r == rule && !earlier.contains(name) {
            earlier.push(name)
        } else {
            earlier
        }
    }
}

/// The report on a rule that stands where `occ` says.
pub open spec fn full_report(
    scan: Scan,
    occ: Seq<(Seq<char>, Seq<char>)>,
    rule: Seq<char>,
) -> ReportView {
    report_on(scan, rule, filters::filter_outcome(rule, true), names_of(occ, rule))
}

/// The reports on the rules that stand where `occ` says.
pub open spec fn occurrence_reports(scan: Scan, occ: Seq<(Seq<char>, Seq<char>)>) -> Seq<
    ReportView,
> {
    kept_rules(scan, occ).map_values(|rule: Seq<char>| full_report(scan, occ, rule))
}

/// The reports of a scan over the sources: one for each rule that it keeps, however often the
/// rule stands in the sources.
pub open spec fn expected_reports(scan: Scan, sources: Seq<SourceView>) -> Seq<ReportView> {
    occurrence_reports(scan, occurrences(sources))
}

/// Can the resources of all rules that the scan keeps be looked up?
pub open spec fn all_resolvable(scan: Scan, sources: Seq<SourceView>) -> bool {
    forall|k: int|
        0 <= k < occurrences(sources).len() ==> (#[trigger] rule_resolvable(
            scan,
            occurrences(sources)[k].1,
        ))
}

/// Can the resource of the rule be looked up, if the scan keeps the rule?
pub open spec fn rule_resolvable(scan: Scan, rule: Seq<char>) -> bool {
    kept(scan, rule) ==> outcome_resolvable(rule, filters::filter_outcome(rule, true))
}

/// A rule that is kept stands among the kept rules once it has occurred.
proof fn lemma_kept_rules_complete(scan: Scan, occ: Seq<(Seq<char>, Seq<char>)>, k: int)
    requires
        0 <= k < occ.len(),
        kept(scan, occ[k].1),
    ensures
        kept_rules(scan, occ).contains(occ[k].1),
    decreases occ.len(),
{
    let earlier = kept_rules(scan, occ.drop_last());
    let rule = occ.last().1;
    if k < occ.len() - 1 {
        lemma_kept_rules_complete(scan, occ.drop_last(), k);
        assert(earlier.contains(occ[k].1));
        text::lemma_push_contains(earlier, rule, occ[k].1);
    } else {
        text::lemma_push_contains(earlier, rule, rule);
    }
}

/// Kept rules are kept, and have occurred.
proof fn lemma_kept_rules_sound(scan: Scan, occ: Seq<(Seq<char>, Seq<char>)>, i: int)
    requires
        0 <= i < kept_rules(scan, occ).len(),
    ensures
        kept(scan, kept_rules(scan, occ)[i]),
        exists|k: int| 0 <= k < occ.len() && (#[trigger] occ[k]).1 == kept_rules(scan, occ)[i],
    decreases occ.len(),
{
    let earlier = kept_rules(scan, occ.drop_last());
    let rule = kept_rules(scan, occ)[i];
    if i < earlier.len() {
        lemma_kept_rules_sound(scan, occ.drop_last(), i);
        let k = choose|k: int|
            0 <= k < occ.drop_last().len() && (#[trigger] occ.drop_last()[k]).1 == earlier[i];
        assert(occ[k].1 == rule);
    } else {
        assert(occ[occ.len() - 1].1 == rule);
    }
}

/// No rule stands among the kept rules twice.
proof fn lemma_kept_rules_distinct(scan: Scan, occ: Seq<(Seq<char>, Seq<char>)>)
    ensures
        kept_rules(scan, occ).no_duplicates(),
    decreases occ.len(),
{
    if occ.len() > 0 {
        lemma_kept_rules_distinct(scan, occ.drop_last());
        let earlier = kept_rules(scan, occ.drop_last());
        let rule = occ.last().1;
        if kept(scan, rule) && !earlier.contains(rule) {
            let all = earlier.push(rule);
            assert forall|i: int, j: int|
                0 <= i < all.len() && 0 <= j < all.len() && i != j implies all[i] != all[j] by {
                if i < earlier.len() && j < earlier.len() {
                    assert(earlier[i] != earlier[j]);
                }
            }
        }
    }
}

/// A rule that has not occurred stands in no source.
proof fn lemma_names_of_absent(occ: Seq<(Seq<char>, Seq<char>)>, rule: Seq<char>)
    requires
        forall|k: int| 0 <= k < occ.len() ==> (#[trigger] occ[k]).1 != rule,
    ensures
        names_of(occ, rule) == Seq::<Seq<char>>::empty(),
    decreases occ.len(),
{
    if occ.len() > 0 {
        assert(occ[occ.len() - 1].1 != rule);
        assert forall|k: int| 0 <= k < occ.drop_last().len() implies (#[trigger]
        occ.drop_last()[k]).1 != rule by {
            assert(occ[k].1 != rule);
        }
        lemma_names_of_absent(occ.drop_last(), rule);
    }
}

/// What one more occurrence does to the reports.
proof fn lemma_reports_push(
    scan: Scan,
    occ: Seq<(Seq<char>, Seq<char>)>,
    name: Seq<char>,
    rule: Seq<char>,
)
    ensures
        ({
            let before = occurrence_reports(scan, occ);
            let after = occurrence_reports(scan, occ.push((name, rule)));
            let rules = kept_rules(scan, occ);
            if rules.contains(rule) {
                &&& kept_rules(scan, occ.push((name, rule))) == rules
                &&& forall|i: int|
                    0 <= i < rules.len() ==> #[trigger] after[i] == (if rules[i] == rule {
                        ReportView {
                            sources: if before[i].sources.contains(name) {
                                before[i].sources
                            } else {
                                before[i].sources.push(name)
                            },
                            ..before[i]
                        }
                    } else {
                        before[i]
                    })
            } else if kept(scan, rule) {
                &&& kept_rules(scan, occ.push((name, rule))) == rules.push(rule)
                &&& after == before.push(
                    report_on(scan, rule, filters::filter_outcome(rule, true), seq![name]),
                )
            } else {
                &&& kept_rules(scan, occ.push((name, rule))) == rules
                &&& after == before
            }
        }),
{
    let more = occ.push((name, rule));
    let before = occurrence_reports(scan, occ);
    let after = occurrence_reports(scan, more);
    let rules = kept_rules(scan, occ);
    assert(more.drop_last() == occ);
    assert(more.last() == (name, rule));
    assert forall|other: Seq<char>| other != rule implies #[trigger] names_of(more, other)
        == names_of(occ, other) by {}
    if rules.contains(rule) {
    } else {
        if kept(scan, rule) {
            assert forall|k: int| 0 <= k < occ.len() implies (#[trigger] occ[k]).1 != rule by {
                if occ[k].1 == rule {
                    lemma_kept_rules_complete(scan, occ, k);
                }
            }
            lemma_names_of_absent(occ, rule);
            assert(names_of(more, rule) == seq![name]);
        }
        assert forall|i: int| 0 <= i < rules.len() implies after[i] == before[i] by {
            assert(rules[i] != rule);
        }
        if kept(scan, rule) {
            assert(after == before.push(
                report_on(scan, rule, filters::filter_outcome(rule, true), seq![name]),
            ));
        } else {
            assert(after == before);
        }
    }
}

/// Merges the rules of all sources into reports. A rule that stands in more than one place is
/// reported once, with the names of all its sources, in their order. With a `matcher`, only rules
/// that relate to its domains are kept; with an `option_filter`, only rules that use that option.
pub fn collect_reports(
    sources: &[Source],
    matcher: Option<&DomainMatcher>,
    option_filter: Option<&str>,
    probe: bool,
    resources: &ResourceChecker,
) -> (r: Vec<RuleReport>)
    requires
        all_resolvable(scan_of(matcher, option_filter, probe, resources), sources_of(sources@)),
    ensures
        reports_of(r@) == expected_reports(
            scan_of(matcher, option_filter, probe, resources),
            sources_of(sources@),
        ),
{
    let ghost scan = scan_of(matcher, option_filter, probe, resources);
    let ghost all = sources_of(sources@);
    let mut reports: Vec<RuleReport> = Vec::new();
    let mut index: StringHashMap<usize> = StringHashMap::new();
    let mut seen_nonmatch: StringHashSet = StringHashSet::new();
    let mut option_cache: StringHashMap<bool> = StringHashMap::new();
    let ghost mut occ: Seq<(Seq<char>, Seq<char>)> = Seq::empty();

    assert(all.take(0) == Seq::<SourceView>::empty());
    assert(reports_of(reports@) == occurrence_reports(scan, occ));
    let n: usize = sources.len();
    let mut i: usize = 0;
    while i < n
        invariant
            i <= n == sources@.len(),
            scan == scan_of(matcher, option_filter, probe, resources),
            all == sources_of(sources@),
            all_resolvable(scan, all),
            occ == occurrences(all.take(i as int)),
            reports_of(reports@) == occurrence_reports(scan, occ),
            index_valid(index@, kept_rules(scan, occ)),
            forall|r: Seq<char>| #[trigger] seen_nonmatch@.contains(r) ==> !kept(scan, r),
            cache_valid(option_cache@),
        decreases n - i,
    {
        let src: &Source = &sources[i];
        let ghost start = occ;
        assert(all.take(i + 1).drop_last() == all.take(i as int));
        assert(all.take(i + 1).last() == src@);
        let rules: Vec<String> = lists::list_rules(src.text.as_str());
        let ghost lines = text::of_strings(rules@);
        assert(start + tagged(src@.name, lines.take(0)) == start);
        let m: usize = rules.len();
        let mut j: usize = 0;
        while j < m
            invariant
                i < n == sources@.len(),
                j <= m == rules@.len(),
                scan == scan_of(matcher, option_filter, probe, resources),
                all == sources_of(sources@),
                all_resolvable(scan, all),
                all.take(i + 1).drop_last() == all.take(i as int),
                all.take(i + 1).last() == src@,
                start == occurrences(all.take(i as int)),
                lines == text::of_strings(rules@),
                lines == lists::rules_in(src@.text),
                occ == start + tagged(src@.name, lines.take(j as int)),
                reports_of(reports@) == occurrence_reports(scan, occ),
                index_valid(index@, kept_rules(scan, occ)),
                forall|r: Seq<char>| #[trigger] seen_nonmatch@.contains(r) ==> !kept(scan, r),
                cache_valid(option_cache@),
            decreases m - j,
        {
            let rule: &str = rules[j].as_str();
            let ghost before = occ;
            proof {
                assert(rule@ == lines[j as int]);
                lemma_occurrence(all, i as int, j as int);
                let k = choose|k: int|
                    0 <= k < occurrences(all).len() && #[trigger] occurrences(all)[k] == (
                        all[i as int].name,
                        lists::rules_in(all[i as int].text)[j as int],
                    );
                assert(rule_resolvable(scan, occurrences(all)[k].1));
                assert(lines.take(j + 1) == lines.take(j as int).push(rule@));
                assert(tagged(src@.name, lines.take(j + 1)) == tagged(
                    src@.name,
                    lines.take(j as int),
                ).push((src@.name, rule@)));
                occ = occ.push((src@.name, rule@));
                assert(occ == start + tagged(src@.name, lines.take(j + 1)));
                lemma_reports_push(scan, before, src@.name, rule@);
                lemma_kept_rules_distinct(scan, before);
            }
            let ghost old_reports = reports@;
            assert(reports_of(reports@).len() == reports@.len());
            let known: Option<usize> = match index.get(rule) {
                Some(at) => Some(*at),
                None => None,
            };
            match known {
                // Already kept: just record this source, too.
                Some(at) => {
                    add_source(&mut reports, at, src.name.as_str());
                    assert(reports_of(reports@) == occurrence_reports(scan, occ));
                },
                None => {
                    let skip: bool = seen_nonmatch.contains(rule) || !uses_option(
                        rule,
                        option_filter,
                    );
                    let report: Option<RuleReport> = if skip {
                        None
                    } else {
                        examine(
                            rule,
                            filters::parse_line(rule, true),
                            matcher,
                            option_filter,
                            probe,
                            resources,
                            &mut option_cache,
                        )
                    };
                    match report {
                        Some(mut report) => {
                            report.sources.push(src.name.clone());
                            assert(report@.sources == seq![src@.name]);
                            index.insert(rule.to_string(), reports.len());
                            reports.push(report);
                            assert(reports_of(reports@) == reports_of(old_reports).push(report@));
                            assert(reports_of(reports@) == occurrence_reports(scan, occ));
                        },
                        None => {
                            seen_nonmatch.insert(rule.to_string());
                        },
                    }
                },
            }
            j += 1;
        }
        assert(lines.take(m as int) == lines);
        i += 1;
    }
    assert(all.take(n as int) == all);
    reports
}

/// Does the index know where each rule stands, and nothing else?
spec fn index_valid(index: Map<Seq<char>, usize>, rules: Seq<Seq<char>>) -> bool {
    &&& forall|r: Seq<char>| #[trigger]
        index.contains_key(r) ==> index[r] < rules.len() && rules[index[r] as int] == r
    &&& forall|k: int| 0 <= k < rules.len() ==> index.contains_key(#[trigger] rules[k])
}

/// Records one more source of the report at position `at`, if it is not recorded yet.
fn add_source(reports: &mut Vec<RuleReport>, at: usize, name: &str)
    requires
        at < old(reports)@.len(),
    ensures
        reports_of(final(reports)@) == reports_of(old(reports)@).update(
            at as int,
            ({
                let report = old(reports)@[at as int]@;
                ReportView {
                    sources: if report.sources.contains(name@) {
                        report.sources
                    } else {
                        report.sources.push(name@)
                    },
                    ..report
                }
            }),
        ),
{
    let ghost report = reports@[at as int]@;
    if !chars::holds(&reports[at].sources, chars::chars_of(name).as_slice()) {
        reports[at].sources.push(name.to_string());
        assert(reports@[at as int]@.sources == report.sources.push(name@));
    }
    assert(reports_of(reports@) == reports_of(old(reports)@).update(
        at as int,
        reports@[at as int]@,
    ));
}

/// What the report is headed by: the labels of all sources, with commas between them.
pub fn source_label(sources: &[Source]) -> (r: String)
    ensures
        r@ == text::join(labels_of(sources@), ", "@),
{
    let mut labels: Vec<String> = Vec::new();
    let ghost all = labels_of(sources@);
    let n: usize = sources.len();
    let mut i: usize = 0;
    while i < n
        invariant
            i <= n == sources@.len() == all.len(),
            all == labels_of(sources@),
            text::of_strings(labels@) == all.take(i as int),
        decreases n - i,
    {
        let ghost before = labels@;
        labels.push(sources[i].label.clone());
        assert(text::of_strings(labels@) == text::of_strings(before).push(all[i as int]));
        assert(all.take(i + 1) == all.take(i as int).push(all[i as int]));
        i += 1;
    }
    assert(all.take(n as int) == all);
    chars::string_of(chars::join(labels.as_slice(), ", ").as_slice())
}

/// Can the resource of the rule be looked up, if the scan keeps the rule?
fn can_report(
    rule: &str,
    matcher: Option<&DomainMatcher>,
    option_filter: Option<&str>,
    probe: bool,
    resources: &ResourceChecker,
) -> (r: bool)
    ensures
        r == rule_resolvable(scan_of(matcher, option_filter, probe, resources), rule@),
{
    if !uses_option(rule, option_filter) {
        return true;
    }
    let (parsed, filter_type, parse_error) = filters::parse(rule);
    let ghost parts = filters::parts_of(filters::filter_outcome(rule@, true));
    assert(filters::view_of_parts((parsed, filter_type, parse_error)) == parts);
    match &parsed {
        Some(p) => {
            if let Some(m) = matcher {
                if m.relations_parsed(p).len() == 0 {
                    return true;
                }
            }
            resources::can_resolve(p, rule)
        },
        None => true,
    }
}

/// The reports that [`collect_reports`] gives, or `None` if the resource of a rule that is kept
/// cannot be looked up.
pub fn try_collect_reports(
    sources: &[Source],
    matcher: Option<&DomainMatcher>,
    option_filter: Option<&str>,
    probe: bool,
    resources: &ResourceChecker,
) -> (r: Option<Vec<RuleReport>>)
    ensures
        ({
            let scan = scan_of(matcher, option_filter, probe, resources);
            if all_resolvable(scan, sources_of(sources@)) {
                r matches Some(reports) && reports_of(reports@) == expected_reports(
                    scan,
                    sources_of(sources@),
                )
            } else {
                r is None
            }
        }),
{
    let ghost scan = scan_of(matcher, option_filter, probe, resources);
    let ghost all = sources_of(sources@);
    let n: usize = sources.len();
    let mut i: usize = 0;
    assert(all.take(0) == Seq::<SourceView>::empty());
    while i < n
        invariant
            i <= n == sources@.len(),
            scan == scan_of(matcher, option_filter, probe, resources),
            all == sources_of(sources@),
            all_resolvable(scan, all.take(i as int)),
        decreases n - i,
    {
        let src: &Source = &sources[i];
        assert(all.take(i + 1).drop_last() == all.take(i as int));
        assert(all.take(i + 1).last() == src@);
        let rules: Vec<String> = lists::list_rules(src.text.as_str());
        let ghost lines = text::of_strings(rules@);
        let m: usize = rules.len();
        let mut j: usize = 0;
        while j < m
            invariant
                i < n == sources@.len(),
                j <= m == rules@.len(),
                scan == scan_of(matcher, option_filter, probe, resources),
                all == sources_of(sources@),
                all[i as int] == src@,
                lines == text::of_strings(rules@),
                lines == lists::rules_in(src@.text),
                forall|k: int| 0 <= k < j ==> rule_resolvable(scan, #[trigger] lines[k]),
            decreases m - j,
        {
            assert(lines[j as int] == rules@[j as int]@);
            if !can_report(rules[j].as_str(), matcher, option_filter, probe, resources) {
                proof {
                    lemma_occurrence(all, i as int, j as int);
                    let k = choose|k: int|
                        0 <= k < occurrences(all).len() && #[trigger] occurrences(all)[k] == (
                            all[i as int].name,
                            lists::rules_in(all[i as int].text)[j as int],
                        );
                    assert(!rule_resolvable(scan, occurrences(all)[k].1));
                }
                return None;
            }
            j += 1;
        }
        proof {
            let head = occurrences(all.take(i as int));
            let occ = occurrences(all.take(i + 1));
            assert forall|k: int| 0 <= k < occ.len() implies (#[trigger] rule_resolvable(
                scan,
                occ[k].1,
            )) by {
                if k < head.len() {
                    assert(rule_resolvable(scan, head[k].1));
                } else {
                    assert(rule_resolvable(scan, lines[k - head.len()]));
                }
            }
        }
        i += 1;
    }
    assert(all.take(n as int) == all);
    Some(collect_reports(sources, matcher, option_filter, probe, resources))
}

/// The rule on line `j` of source `i` is among the occurrences.
proof fn lemma_occurrence(sources: Seq<SourceView>, i: int, j: int)
    requires
        0 <= i < sources.len(),
        0 <= j < lists::rules_in(sources[i].text).len(),
    ensures
        exists|k: int|
            0 <= k < occurrences(sources).len() && #[trigger] occurrences(sources)[k] == (
                sources[i].name,
                lists::rules_in(sources[i].text)[j],
            ),
    decreases sources.len(),
{
    let head = occurrences(sources.drop_last());
    let tail = tagged(sources.last().name, lists::rules_in(sources.last().text));
    if i < sources.len() - 1 {
        lemma_occurrence(sources.drop_last(), i, j);
        let k = choose|k: int|
            0 <= k < head.len() && #[trigger] head[k] == (
                sources.drop_last()[i].name,
                lists::rules_in(sources.drop_last()[i].text)[j],
            );
        assert(occurrences(sources)[k] == head[k]);
    } else {
        assert(occurrences(sources)[head.len() + j] == tail[j]);
    }
}

/// The names that [`names_of`] gives are those of the sources that the rule stands in, each once.
proof fn lemma_names_of(occ: Seq<(Seq<char>, Seq<char>)>, rule: Seq<char>)
    ensures
        names_of(occ, rule).no_duplicates(),
        forall|name: Seq<char>| #[trigger]
            names_of(occ, rule).contains(name) == occ.contains((name, rule)),
    decreases occ.len(),
{
    if occ.len() > 0 {
        let shorter = occ.drop_last();
        lemma_names_of(shorter, rule);
        let earlier = names_of(shorter, rule);
        let (last, r) = occ.last();
        assert forall|name: Seq<char>| #[trigger] names_of(occ, rule).contains(name)
            == occ.contains((name, rule)) by {
            text::lemma_push_contains(earlier, last, name);
            if shorter.contains((name, rule)) {
                let k = choose|k: int| 0 <= k < shorter.len() && shorter[k] == (name, rule);
                assert(occ[k] == (name, rule));
            }
            if occ.contains((name, rule)) {
                let k = choose|k: int| 0 <= k < occ.len() && occ[k] == (name, rule);
                if k < shorter.len() {
                    assert(shorter[k] == (name, rule));
                } else {
                    assert(last == name && r == rule);
                }
            }
            if r == rule && last == name {
                assert(occ[occ.len() - 1] == (name, rule));
            }
        }
        if r == rule && !earlier.contains(last) {
            let all = earlier.push(last);
            assert forall|i: int, j: int|
                0 <= i < all.len() && 0 <= j < all.len() && i != j implies all[i] != all[j] by {
                if i < earlier.len() && j < earlier.len() {
                    assert(earlier[i] != earlier[j]);
                }
            }
        }
    }
}

/// Where an occurrence comes from: a source and one of its rules.
proof fn lemma_occurrence_origin(sources: Seq<SourceView>, k: int) -> (r: (int, int))
    requires
        0 <= k < occurrences(sources).len(),
    ensures
        0 <= r.0 < sources.len(),
        0 <= r.1 < lists::rules_in(sources[r.0].text).len(),
        occurrences(sources)[k] == (sources[r.0].name, lists::rules_in(sources[r.0].text)[r.1]),
    decreases sources.len(),
{
    let head = occurrences(sources.drop_last());
    if k < head.len() {
        let r = lemma_occurrence_origin(sources.drop_last(), k);
        assert(sources.drop_last()[r.0] == sources[r.0]);
        r
    } else {
        (sources.len() - 1, k - head.len())
    }
}

/// Does the rule stand in a source of that name?
pub open spec fn stands_in(sources: Seq<SourceView>, name: Seq<char>, rule: Seq<char>) -> bool {
    exists|i: int|
        0 <= i < sources.len() && (#[trigger] sources[i]).name == name && lists::rules_in(
            sources[i].text,
        ).contains(rule)
}

proof fn lemma_stands_in(sources: Seq<SourceView>, name: Seq<char>, rule: Seq<char>)
    ensures
        occurrences(sources).contains((name, rule)) == stands_in(sources, name, rule),
{
    let occ = occurrences(sources);
    if occ.contains((name, rule)) {
        let k = choose|k: int| 0 <= k < occ.len() && occ[k] == (name, rule);
        let (i, j) = lemma_occurrence_origin(sources, k);
        assert(lists::rules_in(sources[i].text)[j] == rule);
        assert(lists::rules_in(sources[i].text).contains(rule));
    }
    if stands_in(sources, name, rule) {
        let i = choose|i: int|
            0 <= i < sources.len() && (#[trigger] sources[i]).name == name && lists::rules_in(
                sources[i].text,
            ).contains(rule);
        let rules = lists::rules_in(sources[i].text);
        let j = choose|j: int| 0 <= j < rules.len() && rules[j] == rule;
        lemma_occurrence(sources, i, j);
        let k = choose|k: int|
            0 <= k < occ.len() && #[trigger] occ[k] == (
                sources[i].name,
                lists::rules_in(sources[i].text)[j],
            );
        assert(occ[k] == (name, rule));
    }
}

/// No rule is reported twice, however often it stands in the sources.
pub proof fn rules_are_reported_once(scan: Scan, sources: Seq<SourceView>, i: int, j: int)
    requires
        0 <= i < expected_reports(scan, sources).len(),
        0 <= j < expected_reports(scan, sources).len(),
        i != j,
    ensures
        expected_reports(scan, sources)[i].rule != expected_reports(scan, sources)[j].rule,
{
    lemma_kept_rules_distinct(scan, occurrences(sources));
}

/// Every rule of a source that the scan keeps is reported, and that source is among those that the
/// report names.
pub proof fn kept_rules_are_reported(
    scan: Scan,
    sources: Seq<SourceView>,
    name: Seq<char>,
    rule: Seq<char>,
)
    requires
        stands_in(sources, name, rule),
        kept(scan, rule),
    ensures
        exists|i: int|
            0 <= i < expected_reports(scan, sources).len() && (#[trigger] expected_reports(
                scan,
                sources,
            )[i]).rule == rule && expected_reports(scan, sources)[i].sources.contains(name),
{
    let occ = occurrences(sources);
    lemma_stands_in(sources, name, rule);
    let k = choose|k: int| 0 <= k < occ.len() && occ[k] == (name, rule);
    lemma_kept_rules_complete(scan, occ, k);
    let rules = kept_rules(scan, occ);
    let i = choose|i: int| 0 <= i < rules.len() && rules[i] == rule;
    lemma_names_of(occ, rule);
    assert(names_of(occ, rule).contains(name));
    assert(expected_reports(scan, sources)[i] == full_report(scan, occ, rule));
}

/// Only rules that the scan keeps are reported; a report names the sources that its rule stands
/// in, at least one, each once, and no other.
pub proof fn reports_name_their_sources(scan: Scan, sources: Seq<SourceView>, i: int)
    requires
        0 <= i < expected_reports(scan, sources).len(),
    ensures
        ({
            let r = expected_reports(scan, sources)[i];
            &&& kept(scan, r.rule)
            &&& r.sources.len() > 0
            &&& r.sources.no_duplicates()
            &&& forall|name: Seq<char>| #[trigger]
                r.sources.contains(name) == stands_in(sources, name, r.rule)
        }),
{
    let occ = occurrences(sources);
    let rules = kept_rules(scan, occ);
    let rule = rules[i];
    let r = expected_reports(scan, sources)[i];
    assert(r == full_report(scan, occ, rule));
    lemma_kept_rules_sound(scan, occ, i);
    lemma_names_of(occ, rule);
    let k = choose|k: int| 0 <= k < occ.len() && (#[trigger] occ[k]).1 == rule;
    assert(occ.contains((occ[k].0, rule)));
    assert(r.sources.contains(occ[k].0));
    assert forall|name: Seq<char>| #[trigger] r.sources.contains(name) == stands_in(
        sources,
        name,
        r.rule,
    ) by {
        lemma_stands_in(sources, name, rule);
    }
}

/// Without domains and without an option every rule is kept.
pub proof fn nothing_is_filtered_unasked(scan: Scan, rule: Seq<char>)
    requires
        scan.domains is None,
        scan.option is None,
    ensures
        kept(scan, rule),
{
}

/// A filter only takes rules away: what a scan keeps is also kept, and reported with the same
/// verdict, by a scan over the same resources that filters nothing.
pub proof fn filters_only_take_away(scan: Scan, all: Scan, rule: Seq<char>, names: Seq<Seq<char>>)
    requires
        all.domains is None,
        all.option is None,
        all.entries == scan.entries,
        kept(scan, rule),
    ensures
        kept(all, rule),
        ({
            let outcome = filters::filter_outcome(rule, true);
            let a = report_on(scan, rule, outcome, names);
            let b = report_on(all, rule, outcome, names);
            a.supported == b.supported && a.reason == b.reason && a.filter_type == b.filter_type
        }),
{
}

/// What a report says hangs together: a rule is supported exactly if there is no reason against
/// it; options are blamed only where probing was asked for and the rule is unsupported; and rules
/// relate to the domains exactly where domains were given.
pub proof fn reports_are_consistent(scan: Scan, sources: Seq<SourceView>, i: int)
    requires
        0 <= i < expected_reports(scan, sources).len(),
    ensures
        ({
            let r = expected_reports(scan, sources)[i];
            &&& r.supported == (r.reason is None)
            &&& r.supported || !scan.probe ==> r.unsupported_options.len() == 0
            &&& (r.relations.len() > 0) == (scan.domains is Some)
            &&& scan.option matches Some(o) ==> options::options_of(r.rule).contains(o)
        }),
{
    let occ = occurrences(sources);
    let rule = kept_rules(scan, occ)[i];
    lemma_kept_rules_sound(scan, occ, i);
    assert(expected_reports(scan, sources)[i] == full_report(scan, occ, rule));
}

/// A rule is supported exactly if the engine parses it and the resource that it needs, if it needs
/// one, resolves.
pub proof fn support_takes_parsing_and_resources(
    scan: Scan,
    rule: Seq<char>,
    outcome: filters::OutcomeView,
    names: Seq<Seq<char>>,
)
    ensures
        report_on(scan, rule, outcome, names).supported <==> (outcome matches
            filters::OutcomeView::Parsed(p) && (resources::status_of(scan.entries, p, rule)
            == ResourceStatus::NotApplicable || resources::status_of(scan.entries, p, rule)
            == ResourceStatus::Resolved)),
{
}

/// The options blamed in a network rule are those of its options that the engine does not know.
pub proof fn unknown_options_are_blamed(opts: Seq<Seq<char>>, o: Seq<char>)
    ensures
        unknown_options(opts).contains(o) == (opts.contains(o) && !filters::option_known(o)),
    decreases opts.len(),
{
    if opts.len() > 0 {
        let shorter = opts.drop_last();
        unknown_options_are_blamed(shorter, o);
        assert(opts == shorter.push(opts.last()));
        text::lemma_push_contains(shorter, opts.last(), o);
        text::lemma_push_contains(unknown_options(shorter), opts.last(), o);
    }
}

/// An occurrence that is there already changes nothing.
proof fn lemma_repeated_occurrence(
    scan: Scan,
    occ: Seq<(Seq<char>, Seq<char>)>,
    name: Seq<char>,
    rule: Seq<char>,
)
    requires
        occ.contains((name, rule)),
    ensures
        occurrence_reports(scan, occ.push((name, rule))) == occurrence_reports(scan, occ),
{
    lemma_reports_push(scan, occ, name, rule);
    lemma_names_of(occ, rule);
    let rules = kept_rules(scan, occ);
    let before = occurrence_reports(scan, occ);
    let after = occurrence_reports(scan, occ.push((name, rule)));
    if rules.contains(rule) {
        assert forall|i: int| 0 <= i < rules.len() implies #[trigger] after[i] == before[i] by {
            if rules[i] == rule {
                assert(before[i].sources == names_of(occ, rule));
                assert(before[i].sources.contains(name));
            }
        }
        assert(after =~= before);
    } else if kept(scan, rule) {
        let k = choose|k: int| 0 <= k < occ.len() && occ[k] == (name, rule);
        lemma_kept_rules_complete(scan, occ, k);
    }
}

proof fn lemma_repeated_occurrences(
    scan: Scan,
    occ: Seq<(Seq<char>, Seq<char>)>,
    name: Seq<char>,
    rules: Seq<Seq<char>>,
)
    requires
        forall|j: int| 0 <= j < rules.len() ==> occ.contains((name, #[trigger] rules[j])),
    ensures
        occurrence_reports(scan, occ + tagged(name, rules)) == occurrence_reports(scan, occ),
    decreases rules.len(),
{
    if rules.len() == 0 {
        assert(occ + tagged(name, rules) == occ);
    } else {
        let shorter = rules.drop_last();
        let last = rules.last();
        assert forall|j: int| 0 <= j < shorter.len() implies occ.contains(
            (name, #[trigger] shorter[j]),
        ) by {
            assert(occ.contains((name, rules[j])));
        }
        lemma_repeated_occurrences(scan, occ, name, shorter);
        let more = occ + tagged(name, shorter);
        assert(occ.contains((name, rules[rules.len() - 1])));
        let k = choose|k: int| 0 <= k < occ.len() && occ[k] == (name, last);
        assert(more[k] == (name, last));
        lemma_repeated_occurrence(scan, more, name, last);
        assert(more.push((name, last)) =~= occ + tagged(name, rules));
    }
}

/// To name a source twice changes nothing.
pub proof fn repeated_sources_change_nothing(scan: Scan, sources: Seq<SourceView>, i: int)
    requires
        0 <= i < sources.len(),
    ensures
        expected_reports(scan, sources.push(sources[i])) == expected_reports(scan, sources),
{
    let s = sources[i];
    let occ = occurrences(sources);
    let rules = lists::rules_in(s.text);
    assert(sources.push(s).drop_last() == sources);
    assert(occurrences(sources.push(s)) == occ + tagged(s.name, rules));
    assert forall|j: int| 0 <= j < rules.len() implies occ.contains((s.name, #[trigger] rules[j])) by {
        lemma_occurrence(sources, i, j);
    }
    lemma_repeated_occurrences(scan, occ, s.name, rules);
}

proof fn lemma_prefixes(
    scan: Scan,
    occ: Seq<(Seq<char>, Seq<char>)>,
    more: Seq<(Seq<char>, Seq<char>)>,
    rule: Seq<char>,
)
    ensures
        kept_rules(scan, occ).is_prefix_of(kept_rules(scan, occ + more)),
        names_of(occ, rule).is_prefix_of(names_of(occ + more, rule)),
    decreases more.len(),
{
    if more.len() == 0 {
        assert(occ + more == occ);
    } else {
        lemma_prefixes(scan, occ, more.drop_last(), rule);
        assert((occ + more).drop_last() == occ + more.drop_last());
    }
}

/// One more source leaves the reports in their order: it adds its name behind the sources of those
/// rules that stand in it, and reports on new rules behind the others.
pub proof fn later_sources_come_behind(
    scan: Scan,
    sources: Seq<SourceView>,
    more: SourceView,
    i: int,
)
    requires
        0 <= i < expected_reports(scan, sources).len(),
    ensures
        i < expected_reports(scan, sources.push(more)).len(),
        ({
            let a = expected_reports(scan, sources)[i];
            let b = expected_reports(scan, sources.push(more))[i];
            a.sources.is_prefix_of(b.sources) && b == (ReportView { sources: b.sources, ..a })
        }),
{
    let occ = occurrences(sources);
    let added = tagged(more.name, lists::rules_in(more.text));
    let rule = kept_rules(scan, occ)[i];
    assert(sources.push(more).drop_last() == sources);
    assert(occurrences(sources.push(more)) == occ + added);
    lemma_prefixes(scan, occ, added, rule);
    assert(kept_rules(scan, occ + added)[i] == rule);
    assert(expected_reports(scan, sources)[i] == full_report(scan, occ, rule));
    assert(expected_reports(scan, sources.push(more))[i] == full_report(scan, occ + added, rule));
}

/// An option that a rule is shown to use can be searched for: it is read from the arguments as it
/// is written, and a scan for it over all domains keeps the rule.
pub proof fn shown_options_can_be_searched_for(scan: Scan, rule: Seq<char>, o: Seq<char>)
    requires
        options::options_of(rule).contains(o),
        scan.domains is None,
        scan.option == Some(text::lower(text::trim(o))),
    ensures
        text::lower(text::trim(o)) == o,
        kept(scan, rule),
{
    options::options_are_small_tokens(rule, o);
    assert(o.len() > 0 ==> !text::white_space(o[0]) && !text::white_space(o[o.len() - 1]));
    text::lemma_trim_fixed(o);
}

/// How a rule relates to the domains, as the engine reads the rule.
pub open spec fn found_relations(domains: Seq<Seq<char>>, rule: Seq<char>) -> Seq<Relation> {
    relations_of(domains, rule, filters::parts_of(filters::filter_outcome(rule, true)).0)
}

/// Is the report on a rule that relates to the domains?
pub open spec fn on_related_rule(domains: Seq<Seq<char>>) -> spec_fn(ReportView) -> bool {
    |r: ReportView| found_relations(domains, r.rule).len() > 0
}

/// The report with the relations of its rule to the domains.
pub open spec fn with_relations(domains: Seq<Seq<char>>) -> spec_fn(ReportView) -> ReportView {
    |r: ReportView| ReportView { relations: found_relations(domains, r.rule), ..r }
}

/// Is the report on a rule that uses the option?
pub open spec fn on_rule_with_option(o: Seq<char>) -> spec_fn(ReportView) -> bool {
    |r: ReportView| options::options_of(r.rule).contains(o)
}

/// The report with no option blamed.
pub open spec fn without_blame() -> spec_fn(ReportView) -> ReportView {
    |r: ReportView| ReportView { unsupported_options: Seq::empty(), ..r }
}

/// Is the rule kept?
spec fn kept_by(scan: Scan) -> spec_fn(Seq<char>) -> bool {
    |rule: Seq<char>| kept(scan, rule)
}

/// A stricter scan keeps, in order, those of the rules that a laxer one keeps that it would keep.
proof fn lemma_kept_rules_filtered(scan: Scan, all: Scan, occ: Seq<(Seq<char>, Seq<char>)>)
    requires
        forall|rule: Seq<char>| #[trigger] kept(scan, rule) ==> kept(all, rule),
    ensures
        kept_rules(scan, occ) == kept_rules(all, occ).filter(kept_by(scan)),
    decreases occ.len(),
{
    reveal(Seq::filter);
    if occ.len() > 0 {
        let shorter = occ.drop_last();
        let rule = occ.last().1;
        let mine = kept_rules(scan, shorter);
        let lax = kept_rules(all, shorter);
        lemma_kept_rules_filtered(scan, all, shorter);
        if kept(all, rule) && !lax.contains(rule) {
            assert(lax.push(rule).drop_last() =~= lax);
            assert(lax.push(rule).last() == rule);
        }
        if kept(scan, rule) {
            assert(mine.contains(rule) == lax.contains(rule)) by {
                if mine.contains(rule) {
                    let k = choose|k: int| 0 <= k < mine.len() && mine[k] == rule;
                    lemma_kept_rules_sound(scan, shorter, k);
                    let m = choose|m: int|
                        0 <= m < shorter.len() && (#[trigger] shorter[m]).1 == mine[k];
                    lemma_kept_rules_complete(all, shorter, m);
                }
                if lax.contains(rule) {
                    let k = choose|k: int| 0 <= k < lax.len() && lax[k] == rule;
                    lemma_kept_rules_sound(all, shorter, k);
                    let m = choose|m: int|
                        0 <= m < shorter.len() && (#[trigger] shorter[m]).1 == lax[k];
                    lemma_kept_rules_complete(scan, shorter, m);
                }
            }
        }
    } else {
        assert(kept_rules(all, occ).filter(kept_by(scan)) =~= kept_rules(scan, occ));
    }
}

/// To choose among reports and change them is to choose among the rules and report on those.
proof fn lemma_choose_and_change(
    rules: Seq<Seq<char>>,
    chosen: spec_fn(Seq<char>) -> bool,
    report: spec_fn(Seq<char>) -> ReportView,
    fits: spec_fn(ReportView) -> bool,
    change: spec_fn(ReportView) -> ReportView,
    other: spec_fn(Seq<char>) -> ReportView,
)
    requires
        forall|k: int|
            0 <= k < rules.len() ==> fits(report(#[trigger] rules[k])) == chosen(rules[k]),
        forall|k: int|
            0 <= k < rules.len() && chosen(#[trigger] rules[k]) ==> change(report(rules[k]))
                == other(rules[k]),
    ensures
        rules.map_values(report).filter(fits).map_values(change) == rules.filter(
            chosen,
        ).map_values(other),
    decreases rules.len(),
{
    reveal(Seq::filter);
    if rules.len() > 0 {
        let shorter = rules.drop_last();
        assert forall|k: int| 0 <= k < shorter.len() implies fits(report(#[trigger] shorter[k]))
            == chosen(shorter[k]) by {
            assert(shorter[k] == rules[k]);
        }
        assert forall|k: int| 0 <= k < shorter.len() && chosen(#[trigger] shorter[k]) implies
            change(report(shorter[k])) == other(shorter[k]) by {
            assert(shorter[k] == rules[k]);
        }
        lemma_choose_and_change(shorter, chosen, report, fits, change, other);
        let all = rules.map_values(report);
        let last = rules[rules.len() - 1];
        assert(all.drop_last() =~= shorter.map_values(report));
        assert(all.last() == report(last));
        assert(fits(report(last)) == chosen(last));
        let a = shorter.map_values(report).filter(fits);
        let b = shorter.filter(chosen);
        assert(a.push(report(last)).map_values(change) =~= a.map_values(change).push(
            change(report(last)),
        ));
        assert(b.push(last).map_values(other) =~= b.map_values(other).push(other(last)));
    } else {
        assert(rules.map_values(report).filter(fits).map_values(change) =~= rules.filter(
            chosen,
        ).map_values(other));
    }
}

/// The reports of a scan as a function of the rules that it keeps.
spec fn reporter(scan: Scan, occ: Seq<(Seq<char>, Seq<char>)>) -> spec_fn(Seq<char>) -> ReportView {
    |rule: Seq<char>| full_report(scan, occ, rule)
}

proof fn lemma_reporter(scan: Scan, occ: Seq<(Seq<char>, Seq<char>)>)
    ensures
        occurrence_reports(scan, occ) == kept_rules(scan, occ).map_values(reporter(scan, occ)),
{
    assert(occurrence_reports(scan, occ) =~= kept_rules(scan, occ).map_values(
        reporter(scan, occ),
    ));
}

/// Domains only take reports away and fill in the relations: the reports are, in order, those
/// without domains on the rules that relate to them, with nothing else changed; and without
/// domains no report has relations.
pub proof fn domains_choose_among_the_reports(
    scan: Scan,
    domains: Seq<Seq<char>>,
    sources: Seq<SourceView>,
)
    requires
        scan.domains == Some(domains),
    ensures
        expected_reports(scan, sources) == expected_reports(
            Scan { domains: None, ..scan },
            sources,
        ).filter(on_related_rule(domains)).map_values(with_relations(domains)),
        forall|i: int|
            0 <= i < expected_reports(Scan { domains: None, ..scan }, sources).len() ==> (
            #[trigger] expected_reports(Scan { domains: None, ..scan }, sources)[i]).relations.len()
                == 0,
{
    let all = Scan { domains: None, ..scan };
    let occ = occurrences(sources);
    let rules = kept_rules(all, occ);
    lemma_kept_rules_filtered(scan, all, occ);
    lemma_reporter(scan, occ);
    lemma_reporter(all, occ);
    assert forall|k: int| 0 <= k < rules.len() implies on_related_rule(domains)(
        reporter(all, occ)(#[trigger] rules[k]),
    ) == kept_by(scan)(rules[k]) by {
        lemma_kept_rules_sound(all, occ, k);
    }
    lemma_choose_and_change(
        rules,
        kept_by(scan),
        reporter(all, occ),
        on_related_rule(domains),
        with_relations(domains),
        reporter(scan, occ),
    );
}

/// With an option the reports are, in order and unchanged, those without it on the rules that use
/// the option. Options are compared as they are, so that one with a capital finds nothing.
pub proof fn options_choose_among_the_reports(scan: Scan, o: Seq<char>, sources: Seq<SourceView>)
    requires
        scan.option == Some(o),
    ensures
        expected_reports(scan, sources) == expected_reports(
            Scan { option: None, ..scan },
            sources,
        ).filter(on_rule_with_option(o)),
        text::lower(o) != o ==> expected_reports(scan, sources).len() == 0,
{
    if expected_reports(scan, sources).len() > 0 {
        reports_are_consistent(scan, sources, 0);
        options::options_are_small_tokens(expected_reports(scan, sources)[0].rule, o);
    }
    let all = Scan { option: None, ..scan };
    let occ = occurrences(sources);
    let rules = kept_rules(all, occ);
    let same = |r: ReportView| r;
    lemma_kept_rules_filtered(scan, all, occ);
    lemma_reporter(scan, occ);
    lemma_reporter(all, occ);
    assert forall|k: int| 0 <= k < rules.len() implies on_rule_with_option(o)(
        reporter(all, occ)(#[trigger] rules[k]),
    ) == kept_by(scan)(rules[k]) by {
        lemma_kept_rules_sound(all, occ, k);
    }
    lemma_choose_and_change(
        rules,
        kept_by(scan),
        reporter(all, occ),
        on_rule_with_option(o),
        same,
        reporter(scan, occ),
    );
    let chosen = expected_reports(all, sources).filter(on_rule_with_option(o));
    assert(chosen.map_values(same) =~= chosen);
}

proof fn lemma_probe_keeps(
    plain: Scan,
    probing: Scan,
    occ: Seq<(Seq<char>, Seq<char>)>,
)
    requires
        plain == (Scan { probe: false, ..probing }),
    ensures
        kept_rules(plain, occ) == kept_rules(probing, occ),
    decreases occ.len(),
{
    if occ.len() > 0 {
        lemma_probe_keeps(plain, probing, occ.drop_last());
    }
}

/// Probing changes nothing but what is blamed: without it the reports are the same, with no option
/// blamed.
pub proof fn probing_only_adds_blame(scan: Scan, sources: Seq<SourceView>)
    ensures
        expected_reports(Scan { probe: false, ..scan }, sources) == expected_reports(
            Scan { probe: true, ..scan },
            sources,
        ).map_values(without_blame()),
{
    let probing = Scan { probe: true, ..scan };
    let plain = Scan { probe: false, ..scan };
    let occ = occurrences(sources);
    lemma_probe_keeps(plain, probing, occ);
    assert(expected_reports(plain, sources) =~= expected_reports(probing, sources).map_values(
        without_blame(),
    ));
}

/// What a scan over domains finds of a rule that the engine parsed is what the parsed rule says,
/// whatever the rule's text is. A network rule has the domains for its target exactly if its host
/// is one of them or below one, and is in their scope exactly if a hash of its `$domain=` list is.
/// A cosmetic rule is in their scope exactly if a hash that it names is and none that it excludes.
/// The scan keeps the rule exactly if it finds one of these, and the option that is asked for.
pub proof fn parsed_rules_relate_as_they_were_parsed(
    scan: Scan,
    domains: Seq<Seq<char>>,
    rule: Seq<char>,
    parsed: filters::ParsedView,
    names: Seq<Seq<char>>,
)
    requires
        scan.domains == Some(domains),
    ensures
        ({
            let outcome = filters::OutcomeView::Parsed(parsed);
            let found = report_on(scan, rule, outcome, names).relations;
            &&& parsed matches filters::ParsedView::Network(f) ==> {
                &&& found.contains(Relation::Target) <==> exists|host: Seq<char>|
                    f.hostname == Some(host) && #[trigger] domains::covers(domains, host)
                &&& found.contains(Relation::Scope) <==> exists|hashes: Seq<u64>, k: int|
                    f.opt_domains == Some(hashes) && 0 <= k < hashes.len() && domains::scope_hash(
                        domains,
                        #[trigger] hashes[k],
                    )
            }
            &&& parsed matches filters::ParsedView::Cosmetic(f) ==> ({
                let named = exists|hashes: Seq<u64>, k: int|
                    (f.hostnames == Some(hashes) || f.entities == Some(hashes)) && 0 <= k
                        < hashes.len() && domains::scope_hash(domains, #[trigger] hashes[k]);
                let excluded = exists|hashes: Seq<u64>, k: int|
                    (f.not_hostnames == Some(hashes) || f.not_entities == Some(hashes)) && 0 <= k
                        < hashes.len() && domains::scope_hash(domains, #[trigger] hashes[k]);
                &&& !found.contains(Relation::Target)
                &&& found.contains(Relation::Scope) <==> named && !excluded
            })
            &&& found.no_duplicates()
            &&& keeps(scan, rule, outcome) <==> (found.contains(Relation::Target)
                || found.contains(Relation::Scope)) && (scan.option matches Some(o)
                ==> options::options_of(rule).contains(o))
        }),
{
    let outcome = filters::OutcomeView::Parsed(parsed);
    let found = report_on(scan, rule, outcome, names).relations;
    assert(found == domains::parsed_relations(domains, parsed));
    match parsed {
        filters::ParsedView::Network(f) => {
            domains::network_rules_relate_by_host_and_list(domains, f, f);
        },
        filters::ParsedView::Cosmetic(f) => {
            domains::cosmetic_rules_relate_by_their_scope(domains, f);
        },
    }
    lemma_found(domains, parsed, rule);
}

/// Relations are there exactly if one of the two is.
proof fn lemma_found(domains: Seq<Seq<char>>, parsed: filters::ParsedView, rule: Seq<char>)
    ensures
        ({
            let found = domains::parsed_relations(domains, parsed);
            found.no_duplicates() && (found.len() > 0 <==> found.contains(Relation::Target)
                || found.contains(Relation::Scope))
        }),
        ({
            let found = domains::raw_relations(domains, rule);
            found.no_duplicates() && (found.len() > 0 <==> found.contains(Relation::Target)
                || found.contains(Relation::Scope))
        }),
{
    domains::rules_relate_in_order(domains, parsed, rule);
    assert forall|t: bool, s: bool| #[trigger] domains::relations(t, s).no_duplicates() && (
    domains::relations(t, s).len() > 0 <==> t || s) by {
        domains::relations_stand_once_and_in_order(t, s);
    }
}

/// The text of a rule is read for its relations only where the engine did not parse the rule: two
/// rules with one parse relate alike, and of a rule without a parse the text decides.
pub proof fn text_is_read_only_without_a_parse(
    scan: Scan,
    domains: Seq<Seq<char>>,
    rule: Seq<char>,
    other: Seq<char>,
    outcome: filters::OutcomeView,
    names: Seq<Seq<char>>,
)
    requires
        scan.domains == Some(domains),
    ensures
        outcome is Parsed ==> report_on(scan, rule, outcome, names).relations == report_on(
            scan,
            other,
            outcome,
            names,
        ).relations,
        outcome !is Parsed ==> ({
            let found = report_on(scan, rule, outcome, names).relations;
            &&& found == domains::raw_relations(domains, rule)
            &&& keeps(scan, rule, outcome) <==> (found.contains(Relation::Target)
                || found.contains(Relation::Scope)) && (scan.option matches Some(o)
                ==> options::options_of(rule).contains(o))
        }),
{
    let p = filters::ParsedView::Cosmetic(arbitrary());
    lemma_found(domains, p, rule);
}

/// Every report of a scan says what the scan says of the rule as the engine parses it, and a scan
/// without domains finds no relations.
pub proof fn reports_speak_of_the_parsed_rule(scan: Scan, sources: Seq<SourceView>, i: int)
    requires
        0 <= i < expected_reports(scan, sources).len(),
    ensures
        ({
            let r = expected_reports(scan, sources)[i];
            &&& r == report_on(scan, r.rule, filters::filter_outcome(r.rule, true), r.sources)
            &&& keeps(scan, r.rule, filters::filter_outcome(r.rule, true))
            &&& scan.domains is None ==> r.relations == Seq::<Relation>::empty()
        }),
{
    let occ = occurrences(sources);
    let rule = kept_rules(scan, occ)[i];
    lemma_kept_rules_sound(scan, occ, i);
    assert(expected_reports(scan, sources)[i] == full_report(scan, occ, rule));
}

/// What a scan keeps: every rule that uses the option asked for, if one is, and, if domains are
/// given, relates to them.
pub proof fn scans_keep_what_is_asked_for(scan: Scan, rule: Seq<char>)
    ensures
        kept(scan, rule) <==> (match scan.option {
            Some(o) => options::options_of(rule).contains(o),
            None => true,
        }) && (match scan.domains {
            Some(d) => (match filters::filter_outcome(rule, true) {
                filters::OutcomeView::Parsed(p) => domains::parsed_relations(d, p),
                _ => domains::raw_relations(d, rule),
            }).len() > 0,
            None => true,
        }),
{
}

/// What a report says of a rule: its own text and the sources that it was given; its type and the
/// engine's reason where the engine refused it; and of a parsed rule, that it is supported unless
/// its resource is missing or requires permission, which then is the reason.
pub proof fn reports_say_type_and_reason(
    scan: Scan,
    rule: Seq<char>,
    n: filters::NetworkView,
    c: filters::CosmeticView,
    e: Seq<char>,
    names: Seq<Seq<char>>,
)
    ensures
        ({
            let p = filters::ParsedView::Network(n);
            let r = report_on(scan, rule, filters::OutcomeView::Parsed(p), names);
            r.rule == rule && r.sources == names && r.filter_type == Some("network"@) && (
            r.supported, r.reason) == (match resources::status_of(scan.entries, p, rule) {
                ResourceStatus::Missing => (false, Some("resource missing"@)),
                ResourceStatus::RequiresPermission => (
                    false,
                    Some("resource requires permission"@),
                ),
                _ => (true, None),
            })
        }),
        ({
            let p = filters::ParsedView::Cosmetic(c);
            let r = report_on(scan, rule, filters::OutcomeView::Parsed(p), names);
            r.rule == rule && r.sources == names && r.filter_type == Some("cosmetic"@) && (
            r.supported, r.reason) == (match resources::status_of(scan.entries, p, rule) {
                ResourceStatus::Missing => (false, Some("resource missing"@)),
                ResourceStatus::RequiresPermission => (
                    false,
                    Some("resource requires permission"@),
                ),
                _ => (true, None),
            })
        }),
        ({
            let r = report_on(scan, rule, filters::OutcomeView::UnrecognisedOption, names);
            r.rule == rule && r.sources == names && r.filter_type == Some("network"@)
                && !r.supported && r.reason == Some("UnrecognisedOption"@)
        }),
        ({
            let r = report_on(scan, rule, filters::OutcomeView::NetworkError(e), names);
            r.rule == rule && r.sources == names && r.filter_type == Some("network"@)
                && !r.supported && r.reason == Some(e)
        }),
        ({
            let r = report_on(scan, rule, filters::OutcomeView::CosmeticError(e), names);
            r.rule == rule && r.sources == names && r.filter_type == Some("cosmetic"@)
                && !r.supported && r.reason == Some(e)
        }),
        ({
            let r = report_on(scan, rule, filters::OutcomeView::Unsupported, names);
            r.rule == rule && r.sources == names && r.filter_type is None && !r.supported
                && r.reason == Some("unsupported"@)
        }),
        ({
            let r = report_on(scan, rule, filters::OutcomeView::Empty, names);
            r.rule == rule && r.sources == names && r.filter_type is None && !r.supported
                && r.reason == Some("empty"@)
        }),
{
}

/// Where probing is asked for, an unsupported network rule is blamed for those of its options that
/// the engine does not know, in their order, and any other unsupported rule for all that it has.
pub proof fn blame_falls_on_options(
    scan: Scan,
    rule: Seq<char>,
    outcome: filters::OutcomeView,
    names: Seq<Seq<char>>,
)
    ensures
        ({
            let r = report_on(scan, rule, outcome, names);
            r.unsupported_options == (if r.supported || !scan.probe {
                Seq::empty()
            } else if r.filter_type == Some("network"@) {
                options::options_of(rule).filter(|o: Seq<char>| !filters::option_known(o))
            } else {
                options::options_of(rule)
            })
        }),
{
    lemma_unknown_options(options::options_of(rule));
}

proof fn lemma_unknown_options(opts: Seq<Seq<char>>)
    ensures
        unknown_options(opts) == opts.filter(|o: Seq<char>| !filters::option_known(o)),
    decreases opts.len(),
{
    reveal(Seq::filter);
    if opts.len() > 0 {
        lemma_unknown_options(opts.drop_last());
    }
}

/// One more line at the end of the last list. A rule that is kept and was not reported yet is
/// reported behind all others, with that list for its source; one that was reported already only
/// gets the list as one more source, unless it has it; and any other line changes nothing.
pub proof fn reports_follow_the_lines(
    scan: Scan,
    sources: Seq<SourceView>,
    name: Seq<char>,
    list: Seq<char>,
    line: Seq<char>,
)
    requires
        !line.contains('\n'),
    ensures
        ({
            let a = expected_reports(scan, sources.push(SourceView { name, text: list }));
            let b = expected_reports(
                scan,
                sources.push(SourceView { name, text: list + seq!['\n'] + line }),
            );
            let rule = text::trim(line);
            let reported = exists|i: int| 0 <= i < a.len() && (#[trigger] a[i]).rule == rule;
            if rule.len() == 0 || rule[0] == '!' || rule[0] == '[' || !kept(scan, rule) {
                b == a
            } else if !reported {
                b == a.push(
                    report_on(scan, rule, filters::filter_outcome(rule, true), seq![name]),
                )
            } else {
                b.len() == a.len() && forall|i: int|
                    0 <= i < a.len() ==> #[trigger] b[i] == (if a[i].rule == rule
                        && !a[i].sources.contains(name) {
                        ReportView { sources: a[i].sources.push(name), ..a[i] }
                    } else {
                        a[i]
                    })
            }
        }),
{
    let short = sources.push(SourceView { name, text: list });
    let long = sources.push(SourceView { name, text: list + seq!['\n'] + line });
    assert(short.drop_last() =~= sources && long.drop_last() =~= sources);
    lists::lists_are_read_line_by_line(list, line);
    let rule = text::trim(line);
    let occ = occurrences(short);
    let a = expected_reports(scan, short);
    let b = expected_reports(scan, long);
    let old_rules = lists::rules_in(list);
    if rule.len() == 0 || rule[0] == '!' || rule[0] == '[' {
        assert(old_rules + Seq::<Seq<char>>::empty() =~= old_rules);
    } else {
        assert(old_rules + seq![rule] =~= old_rules.push(rule));
        assert(tagged(name, old_rules.push(rule)) =~= tagged(name, old_rules).push((name, rule)));
        let all = occ.push((name, rule));
        assert(occurrences(long) =~= all);
        assert(all.drop_last() =~= occ);
        let rules = kept_rules(scan, occ);
        assert forall|r: Seq<char>| r != rule implies #[trigger] names_of(all, r) == names_of(
            occ,
            r,
        ) by {}
        if !kept(scan, rule) {
            assert forall|i: int| 0 <= i < a.len() implies a[i] == b[i] by {
                lemma_kept_rules_sound(scan, occ, i);
            }
            assert(b =~= a);
        } else if rules.contains(rule) {
            let k = choose|k: int| 0 <= k < rules.len() && rules[k] == rule;
            assert(a[k].rule == rule);
            assert forall|i: int| 0 <= i < a.len() implies #[trigger] b[i] == (if a[i].rule == rule
                && !a[i].sources.contains(name) {
                ReportView { sources: a[i].sources.push(name), ..a[i] }
            } else {
                a[i]
            }) by {
                assert(a[i] == full_report(scan, occ, rules[i]));
                assert(b[i] == full_report(scan, all, rules[i]));
            }
        } else {
            assert forall|i: int| 0 <= i < a.len() implies a[i].rule != rule by {
                assert(rules.contains(rules[i]));
            }
            lemma_kept_and_absent(scan, occ, rule);
            lemma_names_of_absent(occ, rule);
            assert(names_of(all, rule) =~= seq![name]);
            let last = report_on(scan, rule, filters::filter_outcome(rule, true), seq![name]);
            assert forall|i: int| 0 <= i < b.len() implies b[i] == a.push(last)[i] by {
                if i < a.len() {
                    assert(a[i] == full_report(scan, occ, rules[i]));
                    assert(b[i] == full_report(scan, all, rules[i]));
                }
            }
            assert(b =~= a.push(last));
        }
    }
}

/// A rule that would be kept, but is not among the kept rules, has not occurred.
proof fn lemma_kept_and_absent(scan: Scan, occ: Seq<(Seq<char>, Seq<char>)>, rule: Seq<char>)
    requires
        kept(scan, rule),
        !kept_rules(scan, occ).contains(rule),
    ensures
        forall|k: int| 0 <= k < occ.len() ==> (#[trigger] occ[k]).1 != rule,
{
    assert forall|k: int| 0 <= k < occ.len() implies (#[trigger] occ[k]).1 != rule by {
        if occ[k].1 == rule {
            lemma_kept_rules_complete(scan, occ, k);
        }
    }
}

/// Without a source, and for a list without a rule, there is nothing to report.
pub proof fn reports_start_empty(scan: Scan, sources: Seq<SourceView>, name: Seq<char>)
    ensures
        expected_reports(scan, Seq::empty()) == Seq::<ReportView>::empty(),
        expected_reports(scan, sources.push(SourceView { name, text: Seq::empty() }))
            == expected_reports(scan, sources),
{
    let nothing = Seq::<char>::empty();
    lists::lists_are_read_line_by_line(nothing, nothing);
    text::lemma_trim_fixed(nothing);
    let all = sources.push(SourceView { name, text: nothing });
    assert(all.drop_last() =~= sources);
    assert(tagged(name, Seq::empty()) =~= Seq::<(Seq<char>, Seq<char>)>::empty());
    assert(occurrences(all) =~= occurrences(sources));
    assert(expected_reports(scan, Seq::empty()) =~= Seq::<ReportView>::empty());
}

/// A scan can be made exactly if the resource of every rule that it keeps, as far as the engine
/// parses the rule, can be looked up.
pub proof fn scans_need_the_resources_of_kept_rules(scan: Scan, sources: Seq<SourceView>)
    ensures
        all_resolvable(scan, sources) <==> forall|name: Seq<char>, rule: Seq<char>| #[trigger]
            stands_in(sources, name, rule) && kept(scan, rule) ==> (filters::filter_outcome(
                rule,
                true,
            ) matches filters::OutcomeView::Parsed(p) ==> resources::resolvable(p, rule)),
{
    let occ = occurrences(sources);
    if all_resolvable(scan, sources) {
        assert forall|name: Seq<char>, rule: Seq<char>| #[trigger]
            stands_in(sources, name, rule) && kept(scan, rule) implies (filters::filter_outcome(
            rule,
            true,
        ) matches filters::OutcomeView::Parsed(p) ==> resources::resolvable(p, rule)) by {
            lemma_stands_in(sources, name, rule);
            let k = choose|k: int| 0 <= k < occ.len() && occ[k] == (name, rule);
            assert(rule_resolvable(scan, occ[k].1));
        }
    }
    if forall|name: Seq<char>, rule: Seq<char>| #[trigger]
        stands_in(sources, name, rule) && kept(scan, rule) ==> (filters::filter_outcome(
            rule,
            true,
        ) matches filters::OutcomeView::Parsed(p) ==> resources::resolvable(p, rule)) {
        assert forall|k: int| 0 <= k < occ.len() implies (#[trigger] rule_resolvable(
            scan,
            occ[k].1,
        )) by {
            lemma_stands_in(sources, occ[k].0, occ[k].1);
            assert(occ.contains((occ[k].0, occ[k].1)));
            assert(stands_in(sources, occ[k].0, occ[k].1));
        }
    }
}

/// A scan asks for what it was given: the domains as they are matched, the option as it is, and
/// the resources of the checker.
pub proof fn scans_hold_what_was_given(
    matcher: &DomainMatcher,
    option: &str,
    probe: bool,
    checker: &ResourceChecker,
)
    ensures
        scan_of(Some(matcher), Some(option), probe, checker) == (Scan {
            domains: Some(matcher@),
            option: Some(option@),
            probe,
            entries: checker@,
        }),
        scan_of(None, None, probe, checker) == (Scan {
            domains: None,
            option: None,
            probe,
            entries: checker@,
        }),
{
}

/// One source heads the report with its own label; of several, the labels stand in order, with a
/// comma and a blank between them.
pub proof fn sources_head_the_report(sources: &[Source], more: &[Source], a: String, b: String)
    requires
        sources@.len() > 0,
        more@.len() == sources@.len() + 1,
        more@.drop_last() == sources@,
        call_ensures(source_label, (sources,), a),
        call_ensures(source_label, (more,), b),
    ensures
        sources@.len() == 1 ==> a@ == sources@[0].label@,
        b@ == a@ + ", "@ + more@.last().label@,
{
    let labels = labels_of(sources@);
    text::parts_are_joined_in_order(labels, more@.last().label@, ", "@);
    assert(labels_of(more@) =~= labels.push(more@.last().label@));
    if sources@.len() == 1 {
        assert(labels =~= seq![sources@[0].label@]);
        text::parts_are_joined_in_order(Seq::empty(), sources@[0].label@, ", "@);
    }
}

/// A scan over domains keeps and relates two rules alike if the engine parsed them alike, whatever
/// their texts are, as long as no option is asked for.
pub proof fn rules_with_one_parse_are_reported_alike(
    rule: &str,
    other: &str,
    f: ParseOutcome,
    g: ParseOutcome,
    matcher: &DomainMatcher,
    probe: bool,
    checker: &ResourceChecker,
    a: Option<RuleReport>,
    b: Option<RuleReport>,
)
    requires
        call_ensures(report_rule, (rule, f, Some(matcher), None, probe, checker), a),
        call_ensures(report_rule, (other, g, Some(matcher), None, probe, checker), b),
        f@ == g@,
        f@ is Parsed,
    ensures
        a is Some == b is Some,
        a is Some ==> a->0@.relations == b->0@.relations && a->0@.relations.len() > 0,
        a is Some ==> a->0@.filter_type == b->0@.filter_type,
{
}

/// The reports of a scan are collected exactly if the resources of all kept rules can be looked
/// up; and each is on a rule that the scan keeps, and names a source.
pub proof fn reports_are_collected_or_refused(
    sources: &[Source],
    matcher: Option<&DomainMatcher>,
    option: Option<&str>,
    probe: bool,
    checker: &ResourceChecker,
    r: Option<Vec<RuleReport>>,
)
    requires
        call_ensures(try_collect_reports, (sources, matcher, option, probe, checker), r),
    ensures
        ({
            let scan = scan_of(matcher, option, probe, checker);
            &&& r is Some <==> all_resolvable(scan, sources_of(sources@))
            &&& r matches Some(reports) ==> reports_of(reports@) == expected_reports(
                scan,
                sources_of(sources@),
            )
            &&& r matches Some(reports) ==> forall|i: int|
                0 <= i < reports@.len() ==> kept(scan, (#[trigger] reports@[i]).rule@)
                    && reports@[i].sources@.len() > 0
        }),
{
    let scan = scan_of(matcher, option, probe, checker);
    let all = sources_of(sources@);
    if let Some(reports) = r {
        assert forall|i: int| 0 <= i < reports@.len() implies kept(
            scan,
            (#[trigger] reports@[i]).rule@,
        ) && reports@[i].sources@.len() > 0 by {
            assert(reports_of(reports@)[i] == reports@[i]@);
            reports_name_their_sources(scan, all, i);
            assert(text::of_strings(reports@[i].sources@).len() == reports@[i].sources@.len());
        }
    }
}

} // verus!
