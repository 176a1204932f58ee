//! Filter rules as the adblock engine parses them.

use adblock::filters::cosmetic::CosmeticFilterMask;
use adblock::filters::network::{NetworkFilterError, NetworkFilterMaskHelper};
use adblock::lists::FilterParseError::{Empty, Unsupported};
use adblock::lists::{parse_filter, FilterParseError, ParseOptions, ParsedFilter};
use vstd::prelude::*;

use crate::chars;
use crate::text;

verus! {

/// What a network filter says that the reports depend on.
pub struct NetworkRule {
    /// The host of a `||host` pattern.
    pub hostname: Option<String>,
    /// Hashes of the domains that `$domain=` lists.
    pub opt_domains: Option<Vec<u64>>,
    /// The value of `$redirect`, `$redirect-rule`, `$csp` or `$removeparam`.
    pub modifier_option: Option<String>,
    /// Is it a `$redirect` or `$redirect-rule` filter?
    pub redirect: bool,
    /// Is the pattern a regular expression between slashes?
    pub complete_regex: bool,
    /// The pattern that is matched against a URL, where there is one.
    pub pattern: Option<String>,
}

/// What a cosmetic filter says that the reports depend on.
pub struct CosmeticRule {
    /// Hashes of the host names before the separator.
    pub hostnames: Option<Vec<u64>>,
    /// Hashes of the entities (`name.*`) before the separator.
    pub entities: Option<Vec<u64>>,
    /// Hashes of the negated host names.
    pub not_hostnames: Option<Vec<u64>>,
    /// Hashes of the negated entities.
    pub not_entities: Option<Vec<u64>>,
    /// Does it inject a scriptlet?
    pub script_inject: bool,
}

/// A rule that the engine could parse.
pub enum ParsedRule {
    Network(NetworkRule),
    Cosmetic(CosmeticRule),
}

/// What the engine says of one line: a filter of either kind, or why there is none.
pub enum ParseOutcome {
    Network {
        hostname: Option<String>,
        opt_domains: Option<Vec<u64>>,
        modifier_option: Option<String>,
        redirect: bool,
        complete_regex: bool,
        pattern: Option<String>,
    },
    Cosmetic {
        hostnames: Option<Vec<u64>>,
        entities: Option<Vec<u64>>,
        not_hostnames: Option<Vec<u64>>,
        not_entities: Option<Vec<u64>>,
        script_inject: bool,
    },
    /// A network rule with an option that the engine does not know.
    UnrecognisedOption,
    /// A network rule that is wrong in another way, which the text names.
    NetworkError(String),
    /// A cosmetic rule that is wrong in the way that the text names.
    CosmeticError(String),
    Unsupported,
    Empty,
}

/// The view of a [`NetworkRule`].
pub struct NetworkView {
    pub hostname: Option<Seq<char>>,
    pub opt_domains: Option<Seq<u64>>,
    pub modifier_option: Option<Seq<char>>,
    pub redirect: bool,
    pub complete_regex: bool,
    pub pattern: Option<Seq<char>>,
}

/// The view of a [`CosmeticRule`].
pub struct CosmeticView {
    pub hostnames: Option<Seq<u64>>,
    pub entities: Option<Seq<u64>>,
    pub not_hostnames: Option<Seq<u64>>,
    pub not_entities: Option<Seq<u64>>,
    pub script_inject: bool,
}

/// The view of a [`ParsedRule`].
pub enum ParsedView {
    Network(NetworkView),
    Cosmetic(CosmeticView),
}

/// The view of a [`ParseOutcome`].
pub enum OutcomeView {
    Parsed(ParsedView),
    UnrecognisedOption,
    NetworkError(Seq<char>),
    CosmeticError(Seq<char>),
    Unsupported,
    Empty,
}

/// The hashes of an optional list.
pub open spec fn hashes_of(v: Option<Vec<u64>>) -> Option<Seq<u64>> {
    match v {
        Some(h) => Some(h@),
        None => None,
    }
}

impl View for NetworkRule {
    type V = NetworkView;

    open spec fn view(&self) -> NetworkView {
        NetworkView {
            hostname: text::of_opt_string(self.hostname),
            opt_domains: hashes_of(self.opt_domains),
            modifier_option: text::of_opt_string(self.modifier_option),
            redirect: self.redirect,
            complete_regex: self.complete_regex,
            pattern: text::of_opt_string(self.pattern),
        }
    }
}

impl View for CosmeticRule {
    type V = CosmeticView;

    open spec fn view(&self) -> CosmeticView {
        CosmeticView {
            hostnames: hashes_of(self.hostnames),
            entities: hashes_of(self.entities),
            not_hostnames: hashes_of(self.not_hostnames),
            not_entities: hashes_of(self.not_entities),
            script_inject: self.script_inject,
        }
    }
}

impl View for ParsedRule {
    type V = ParsedView;

    open spec fn view(&self) -> ParsedView {
        match *self {
            ParsedRule::Network(n) => ParsedView::Network(n@),
            ParsedRule::Cosmetic(c) => ParsedView::Cosmetic(c@),
        }
    }
}

impl View for ParseOutcome {
    type V = OutcomeView;

    open spec fn view(&self) -> OutcomeView {
        match *self {
            ParseOutcome::Network {
                hostname,
                opt_domains,
                modifier_option,
                redirect,
                complete_regex,
                pattern,
            } => OutcomeView::Parsed(
                ParsedView::Network(
                    NetworkView {
                        hostname: text::of_opt_string(hostname),
                        opt_domains: hashes_of(opt_domains),
                        modifier_option: text::of_opt_string(modifier_option),
                        redirect,
                        complete_regex,
                        pattern: text::of_opt_string(pattern),
                    },
                ),
            ),
            ParseOutcome::Cosmetic {
                hostnames,
                entities,
                not_hostnames,
                not_entities,
                script_inject,
            } => OutcomeView::Parsed(
                ParsedView::Cosmetic(
                    CosmeticView {
                        hostnames: hashes_of(hostnames),
                        entities: hashes_of(entities),
                        not_hostnames: hashes_of(not_hostnames),
                        not_entities: hashes_of(not_entities),
                        script_inject,
                    },
                ),
            ),
            ParseOutcome::UnrecognisedOption => OutcomeView::UnrecognisedOption,
            ParseOutcome::NetworkError(e) => OutcomeView::NetworkError(e@),
            ParseOutcome::CosmeticError(e) => OutcomeView::CosmeticError(e@),
            ParseOutcome::Unsupported => OutcomeView::Unsupported,
            ParseOutcome::Empty => OutcomeView::Empty,
        }
    }
}

/// What the engine says of a line of filter-list text, in the standard format, with rules of
/// every type read and no permission granted; `debug` asks the engine to keep the line's text.
pub uninterp spec fn filter_outcome(line: Seq<char>, debug: bool) -> OutcomeView;

/// `adblock::lists::parse_filter`, with the engine's default options: standard format, rules of
/// every type, no permission. The contract claims that what the engine says of a line, as far as
/// an outcome records it, is a function of the line's text and of `debug`; it says nothing else
/// of which lines parse. The text of an error is the engine's own debug text for it. (The engine
/// descends into the brackets of a selector by recursion, and so needs stack for their depth.)
#[verifier::external_body]
pub(crate) fn parse_line(line: &str, debug: bool) -> (r: ParseOutcome)
    ensures
        r@ == filter_outcome(line@, debug),
{
    match parse_filter(line, debug, ParseOptions::default()) {
        Ok(ParsedFilter::Network(f)) => ParseOutcome::Network {
            redirect: f.is_redirect(), complete_regex: f.is_complete_regex(),
            pattern: f.filter.string_view(), hostname: f.hostname, opt_domains: f.opt_domains,
            modifier_option: f.modifier_option },
        Ok(ParsedFilter::Cosmetic(f)) => ParseOutcome::Cosmetic {
            script_inject: f.mask.contains(CosmeticFilterMask::SCRIPT_INJECT),
            hostnames: f.hostnames, entities: f.entities, not_hostnames: f.not_hostnames,
            not_entities: f.not_entities },
        Err(FilterParseError::Network(NetworkFilterError::UnrecognisedOption)) => ParseOutcome::UnrecognisedOption,
        Err(FilterParseError::Network(e)) => ParseOutcome::NetworkError(format!("{e:?}")),
        Err(FilterParseError::Cosmetic(e)) => ParseOutcome::CosmeticError(format!("{e:?}")),
        Err(Unsupported) => ParseOutcome::Unsupported,
        Err(Empty) => ParseOutcome::Empty }
}

/// The rule, its type and the reason for a refusal, as [`parse`] gives them for an outcome.
pub open spec fn parts_of(outcome: OutcomeView) -> (
    Option<ParsedView>,
    Option<Seq<char>>,
    Option<Seq<char>>,
) {
    match outcome {
        OutcomeView::Parsed(p) => (Some(p), Some(kind_name(p)), None),
        OutcomeView::UnrecognisedOption => (None, Some("network"@), Some("UnrecognisedOption"@)),
        OutcomeView::NetworkError(e) => (None, Some("network"@), Some(e)),
        OutcomeView::CosmeticError(e) => (None, Some("cosmetic"@), Some(e)),
        OutcomeView::Unsupported => (None, None, Some("unsupported"@)),
        OutcomeView::Empty => (None, None, Some("empty"@)),
    }
}

/// The name of a parsed rule's type.
pub open spec fn kind_name(p: ParsedView) -> Seq<char> {
    match p {
        ParsedView::Network(_) => "network"@,
        ParsedView::Cosmetic(_) => "cosmetic"@,
    }
}

/// The view of what [`parse`] returns.
pub open spec fn view_of_parts(
    parts: (Option<ParsedRule>, Option<&'static str>, Option<String>),
) -> (Option<ParsedView>, Option<Seq<char>>, Option<Seq<char>>) {
    (
        match parts.0 {
            Some(p) => Some(p@),
            None => None,
        },
        text::of_opt_str(parts.1),
        text::of_opt_string(parts.2),
    )
}

/// The parsed rule, where there is one; the rule's type, where it is known; and why it was
/// refused, where it was.
pub fn parts(outcome: ParseOutcome) -> (r: (
    Option<ParsedRule>,
    Option<&'static str>,
    Option<String>,
))
    ensures
        view_of_parts(r) == parts_of(outcome@),
{
    match outcome {
        ParseOutcome::Network {
            hostname,
            opt_domains,
            modifier_option,
            redirect,
            complete_regex,
            pattern,
        } => {
            let rule = NetworkRule {
                hostname,
                opt_domains,
                modifier_option,
                redirect,
                complete_regex,
                pattern,
            };
            (Some(ParsedRule::Network(rule)), Some("network"), None)
        },
        ParseOutcome::Cosmetic {
            hostnames,
            entities,
            not_hostnames,
            not_entities,
            script_inject,
        } => {
            let rule = CosmeticRule {
                hostnames,
                entities,
                not_hostnames,
                not_entities,
                script_inject,
            };
            (Some(ParsedRule::Cosmetic(rule)), Some("cosmetic"), None)
        },
        ParseOutcome::UnrecognisedOption => (
            None,
            Some("network"),
            Some("UnrecognisedOption".to_string()),
        ),
        ParseOutcome::NetworkError(e) => (None, Some("network"), Some(e)),
        ParseOutcome::CosmeticError(e) => (None, Some("cosmetic"), Some(e)),
        ParseOutcome::Unsupported => (None, None, Some("unsupported".to_string())),
        ParseOutcome::Empty => (None, None, Some("empty".to_string())),
    }
}

/// Parses one rule: see [`parts`].
pub fn parse(rule: &str) -> (r: (Option<ParsedRule>, Option<&'static str>, Option<String>))
    ensures
        view_of_parts(r) == parts_of(filter_outcome(rule@, true)),
{
    parts(parse_line(rule, true))
}

/// The two rules on which an option is tried: without a value and with one.
pub open spec fn probe_rules(name: Seq<char>) -> (Seq<char>, Seq<char>) {
    ("||example.com^$"@ + name, "||example.com^$"@ + name + "=example.com"@)
}

/// Does the engine know the option that the outcomes on its two probe rules speak of?
pub open spec fn recognised(plain: OutcomeView, valued: OutcomeView) -> bool {
    plain !is UnrecognisedOption || valued !is UnrecognisedOption
}

/// Does the engine know the network option `name`?
pub open spec fn option_known(name: Seq<char>) -> bool {
    recognised(
        filter_outcome(probe_rules(name).0, false),
        filter_outcome(probe_rules(name).1, false),
    )
}

/// Was the line refused for something other than an unknown option, or not refused at all?
pub fn option_accepted(outcome: &ParseOutcome) -> (r: bool)
    ensures
        r == (outcome@ !is UnrecognisedOption),
{
    match outcome {
        ParseOutcome::UnrecognisedOption => false,
        _ => true,
    }
}

/// Is a network option recognised by the engine? It is tried in isolation, without a value and
/// with one: only if both are refused as an unrecognised option is it unsupported. Any other
/// outcome means that the option is known (it may just need a valid value).
pub fn option_supported(name: &str) -> (r: bool)
    ensures
        r == option_known(name@),
{
    let mut probe: Vec<char> = chars::chars_of("||example.com^$");
    chars::append_str(&mut probe, name);
    let plain: String = chars::string_of(probe.as_slice());
    if option_accepted(&parse_line(plain.as_str(), false)) {
        return true;
    }
    chars::append_str(&mut probe, "=example.com");
    let valued: String = chars::string_of(probe.as_slice());
    option_accepted(&parse_line(valued.as_str(), false))
}

/// A rule that the engine parsed is handed on as it was parsed, with the name of its type and
/// nothing against it; of every other line it is said why, and of which type it is where the
/// engine got so far.
pub proof fn outcomes_say_type_and_reason(n: NetworkView, c: CosmeticView, e: Seq<char>)
    ensures
        parts_of(OutcomeView::Parsed(ParsedView::Network(n))) == (
            Some(ParsedView::Network(n)),
            Some("network"@),
            None::<Seq<char>>,
        ),
        parts_of(OutcomeView::Parsed(ParsedView::Cosmetic(c))) == (
            Some(ParsedView::Cosmetic(c)),
            Some("cosmetic"@),
            None::<Seq<char>>,
        ),
        parts_of(OutcomeView::UnrecognisedOption) == (
            None::<ParsedView>,
            Some("network"@),
            Some("UnrecognisedOption"@),
        ),
        parts_of(OutcomeView::NetworkError(e)) == (None::<ParsedView>, Some("network"@), Some(e)),
        parts_of(OutcomeView::CosmeticError(e)) == (None::<ParsedView>, Some("cosmetic"@), Some(e)),
        parts_of(OutcomeView::Unsupported) == (
            None::<ParsedView>,
            None::<Seq<char>>,
            Some("unsupported"@),
        ),
        parts_of(OutcomeView::Empty) == (None::<ParsedView>, None::<Seq<char>>, Some("empty"@)),
{
}

/// The engine does not know an option exactly if it refuses it as unrecognised both without a
/// value and with one.
pub proof fn options_are_tried_without_and_with_a_value(name: Seq<char>)
    ensures
        !option_known(name) <==> filter_outcome("||example.com^$"@ + name, false)
            == OutcomeView::UnrecognisedOption && filter_outcome(
            "||example.com^$"@ + name + "=example.com"@,
            false,
        ) == OutcomeView::UnrecognisedOption,
{
}

} // verus!
