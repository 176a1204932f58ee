//! Decides whether a filter rule relates to a configured set of domains, and how:
//!   - `target`: the rule blocks a request to one of the domains.
//!   - `scope`:  the rule runs while browsing one of the domains (cosmetic or `$domain=`).
//!
//! Parsed rules are matched by what the engine read in them; rules that it rejects are split as
//! text, by the roles of the parts, so that incidental mentions (such as an allowlisted
//! `denyallow=` entry) do not count.

use std::collections::HashSet;

use vstd::prelude::*;
use vstd::slice::slice_subrange;
use vstd::string::StrSliceExecFns;

use crate::chars;
use crate::filters;
use crate::filters::{CosmeticRule, NetworkRule, ParsedRule};
use crate::options;
use crate::text;

verus! {

/// The engine's hash of a text.
pub uninterp spec fn fast_hash_of(input: Seq<char>) -> u64;

/// `adblock::utils::fast_hash` hashes a string's bytes with SeaHash and its fixed seed. The
/// contract claims that the hash is a function of the text alone, and names it.
pub assume_specification[ adblock::utils::fast_hash ](input: &str) -> (h: adblock::utils::Hash)
    ensures
        h == fast_hash_of(input@),
;

/// How a rule relates to a set of domains.
#[derive(Debug, Clone, Copy, PartialEq, Eq, Structural)]
pub enum Relation {
    Target,
    Scope,
}

/// The relations of a rule, `Target` before `Scope`.
pub open spec fn relations(target: bool, scope: bool) -> Seq<Relation> {
    (if target {
        seq![Relation::Target]
    } else {
        Seq::empty()
    }) + (if scope {
        seq![Relation::Scope]
    } else {
        Seq::empty()
    })
}

/// A configured domain as it is matched: trimmed, without dots at its end, in small letters.
pub open spec fn normal(domain: Seq<char>) -> Seq<char> {
    text::lower(text::strip_back(text::trim(domain), '.'))
}

/// The configured domains as they are matched, without those that are empty then.
pub open spec fn normal_domains(domains: Seq<Seq<char>>) -> Seq<Seq<char>>
    decreases domains.len(),
{
    if domains.len() == 0 {
        Seq::empty()
    } else {
        let earlier = normal_domains(domains.drop_last());
        let last = normal(domains.last());
        if last.len() == 0 {
            earlier
        } else {
            earlier.push(last)
        }
    }
}

/// Is `domain` made of two labels, as `example.com` is? Its first label then is an entity.
pub open spec fn two_labels(domain: Seq<char>) -> bool {
    text::split(domain, '.').len() == 2
}

/// Is `h` the hash of one of the domains, or of the entity label of one?
pub open spec fn scope_hash(domains: Seq<Seq<char>>, h: u64) -> bool {
    exists|i: int|
        0 <= i < domains.len() && (h == fast_hash_of(#[trigger] domains[i]) || (two_labels(
            domains[i],
        ) && h == fast_hash_of(text::before(domains[i], '.'))))
}

/// Is `host` the domain itself, or does it end with a dot and the domain?
pub open spec fn under(host: Seq<char>, domain: Seq<char>) -> bool {
    host == domain || text::ends_with(host, seq!['.'] + domain)
}

/// A host as it is matched: without dots at its end, in small letters.
pub open spec fn normal_host(host: Seq<char>) -> Seq<char> {
    text::lower(text::strip_back(host, '.'))
}

/// Is `host` one of the domains or below one of them?
pub open spec fn covers(domains: Seq<Seq<char>>, host: Seq<char>) -> bool {
    exists|i: int| 0 <= i < domains.len() && under(normal_host(host), #[trigger] domains[i])
}

/// A token without the `.*` of an entity.
pub open spec fn token_label(token: Seq<char>) -> Seq<char> {
    let t = text::lower(text::trim(token));
    if text::ends_with(t, seq!['.', '*']) {
        t.take(t.len() - 2)
    } else {
        t
    }
}

/// Does a raw token, such as `example.com`, `sub.example.com` or `example.*`, name a domain?
pub open spec fn token_hits(domains: Seq<Seq<char>>, token: Seq<char>) -> bool {
    covers(domains, token_label(token)) || scope_hash(domains, fast_hash_of(token_label(token)))
}

/// Is one of the hashes that of a domain or of an entity label?
pub open spec fn any_hash(domains: Seq<Seq<char>>, hashes: Option<Seq<u64>>) -> bool {
    hashes matches Some(v) && exists|i: int|
        0 <= i < v.len() && scope_hash(domains, #[trigger] v[i])
}

/// How a parsed network rule relates to the domains.
pub open spec fn network_relations(domains: Seq<Seq<char>>, f: filters::NetworkView) -> Seq<
    Relation,
> {
    relations(
        f.hostname matches Some(host) && covers(domains, host),
        any_hash(domains, f.opt_domains),
    )
}

/// How a parsed cosmetic rule relates to the domains: an excluded scope does not count.
pub open spec fn cosmetic_relations(domains: Seq<Seq<char>>, f: filters::CosmeticView) -> Seq<
    Relation,
> {
    let excluded = any_hash(domains, f.not_hostnames) || any_hash(domains, f.not_entities);
    let named = any_hash(domains, f.hostnames) || any_hash(domains, f.entities);
    relations(false, named && !excluded)
}

/// How a parsed rule relates to the domains.
pub open spec fn parsed_relations(domains: Seq<Seq<char>>, parsed: filters::ParsedView) -> Seq<
    Relation,
> {
    match parsed {
        filters::ParsedView::Network(f) => network_relations(domains, f),
        filters::ParsedView::Cosmetic(f) => cosmetic_relations(domains, f),
    }
}

/// Does a piece of a scope list name a domain, without negation?
pub open spec fn piece_names(domains: Seq<Seq<char>>, piece: Seq<char>) -> bool {
    let part = text::trim(piece);
    part.len() > 0 && part.first() != '~' && token_hits(domains, part)
}

/// Does a piece of a scope list exclude a domain?
pub open spec fn piece_excludes(domains: Seq<Seq<char>>, piece: Seq<char>) -> bool {
    let part = text::trim(piece);
    part.len() > 0 && part.first() == '~' && token_hits(domains, part.skip(1))
}

/// How the scope list of an unparsed cosmetic rule relates to the domains.
pub open spec fn raw_cosmetic_relations(domains: Seq<Seq<char>>, scope: Seq<char>) -> Seq<
    Relation,
> {
    let pieces = text::split(scope, ',');
    let named = exists|i: int| 0 <= i < pieces.len() && piece_names(domains, #[trigger] pieces[i]);
    let excluded = exists|i: int|
        0 <= i < pieces.len() && piece_excludes(domains, #[trigger] pieces[i]);
    relations(false, named && !excluded)
}

/// The pattern and the options of a network rule: what stands before and behind the first `$`.
pub open spec fn pattern_and_options(rule: Seq<char>) -> (Seq<char>, Seq<char>) {
    match text::find(rule, '$') {
        Some(i) => (rule.take(i), rule.skip(i + 1)),
        None => (rule, Seq::empty()),
    }
}

/// The characters that end the host of a pattern.
pub open spec fn host_end(c: char) -> bool {
    c == '^' || c == '/' || c == '*' || c == '?' || c == ':'
}

/// How many characters of `s` stand before the first that ends a host.
pub open spec fn host_len(s: Seq<char>) -> int
    decreases s.len(),
{
    if s.len() == 0 || host_end(s.first()) {
        0
    } else {
        1 + host_len(s.skip(1))
    }
}

/// The host of a `||host...` pattern.
pub open spec fn anchor_host(pattern: Seq<char>) -> Option<Seq<char>> {
    if !text::starts_with(pattern, seq!['|', '|']) {
        None
    } else {
        let rest = pattern.skip(2);
        let host = rest.take(host_len(rest));
        if host.len() == 0 {
            None
        } else {
            Some(host)
        }
    }
}

/// Does one entry of a `domain=` list name a domain, without negation?
pub open spec fn domain_entry_names(domains: Seq<Seq<char>>, entry: Seq<char>) -> bool {
    let dom = text::trim(entry);
    !text::starts_with(dom, seq!['~']) && token_hits(domains, dom)
}

/// Is the option a `domain=` list with an entry that names a domain?
pub open spec fn option_names_domain(domains: Seq<Seq<char>>, piece: Seq<char>) -> bool {
    let opt = text::trim(piece);
    let entries = text::split(opt.skip("domain="@.len() as int), '|');
    text::starts_with(opt, "domain="@) && exists|j: int|
        0 <= j < entries.len() && domain_entry_names(domains, #[trigger] entries[j])
}

/// How an unparsed network rule relates to the domains: by the host that its pattern is anchored
/// to, and by the entries of `domain=` that are not negated.
pub open spec fn raw_network_relations(domains: Seq<Seq<char>>, rule: Seq<char>) -> Seq<
    Relation,
> {
    let (pattern, opts) = pattern_and_options(rule);
    let pieces = text::split(opts, ',');
    relations(
        anchor_host(pattern) matches Some(host) && covers(domains, host),
        exists|i: int|
            0 <= i < pieces.len() && option_names_domain(domains, #[trigger] pieces[i]),
    )
}

/// How an unparsed rule relates to the domains.
pub open spec fn raw_relations(domains: Seq<Seq<char>>, rule: Seq<char>) -> Seq<Relation> {
    match options::separator(rule) {
        Some((i, _)) => raw_cosmetic_relations(domains, rule.take(i)),
        None => raw_network_relations(domains, rule),
    }
}

/// Matches filter rules against a fixed set of domains.
///
/// Readable host names are matched by suffix at a label's boundary, so `example.com` also covers
/// `sub.example.com`. Hashed scopes (`$domain=`, cosmetic) can only match exact strings, since
/// hashes are not reversible, so list the specific subdomains you need; entity labels such as
/// `example` (from `example.com`) are derived to match `example.*##...`.
pub struct DomainMatcher {
    suffix_domains: Vec<Vec<char>>,
    scope_hashes: HashSet<u64>,
}

impl View for DomainMatcher {
    type V = Seq<Seq<char>>;

    /// The domains, as they are matched.
    closed spec fn view(&self) -> Seq<Seq<char>> {
        text::of_vecs(self.suffix_domains@)
    }
}

/// The relations that hold, `Target` before `Scope`.
fn relation_list(target: bool, scope: bool) -> (r: Vec<Relation>)
    ensures
        r@ == relations(target, scope),
{
    let mut rels: Vec<Relation> = Vec::new();
    if target {
        rels.push(Relation::Target);
    }
    if scope {
        rels.push(Relation::Scope);
    }
    rels
}

impl DomainMatcher {
    #[verifier::type_invariant]
    closed spec fn hashes_follow_domains(self) -> bool {
        forall|h: u64|
            self.scope_hashes@.contains(h) == #[trigger] scope_hash(
                text::of_vecs(self.suffix_domains@),
                h,
            )
    }

    /// A matcher for the given domains.
    pub fn new(domains: &[&str]) -> (r: Self)
        ensures
            r@ == normal_domains(text::of_strs(domains@)),
    {
        broadcast use vstd::std_specs::hash::group_hash_axioms;

        let mut suffix_domains: Vec<Vec<char>> = Vec::new();
        let mut scope_hashes: HashSet<u64> = HashSet::new();
        let ghost all = text::of_strs(domains@);
        let n: usize = domains.len();
        let mut i: usize = 0;
        assert(text::of_vecs(suffix_domains@) == normal_domains(all.take(0)));
        while i < n
            invariant
                i <= n == domains@.len(),
                all == text::of_strs(domains@),
                text::of_vecs(suffix_domains@) == normal_domains(all.take(i as int)),
                forall|h: u64|
                    scope_hashes@.contains(h) == #[trigger] scope_hash(
                        text::of_vecs(suffix_domains@),
                        h,
                    ),
            decreases n - i,
        {
            broadcast use vstd::std_specs::hash::group_hash_axioms;

            assert(all.take(i + 1).drop_last() == all.take(i as int));
            let given: Vec<char> = chars::chars_of(domains[i]);
            let d: Vec<char> = chars::lower(
                chars::strip_back(chars::trim(given.as_slice()), '.'),
            );
            assert(d@ == normal(all[i as int]));
            if d.len() > 0 {
                let ghost before = text::of_vecs(suffix_domains@);
                let ghost hashes = scope_hashes@;
                scope_hashes.insert(
                    adblock::utils::fast_hash(chars::string_of(d.as_slice()).as_str()),
                );
                // The entity label of a registrable domain.
                let labels: Vec<&[char]> = chars::split(d.as_slice(), '.');
                assert(text::of_slices(labels@).len() == labels@.len());
                if labels.len() == 2 {
                    let label: String = chars::string_of(chars::before(d.as_slice(), '.'));
                    scope_hashes.insert(adblock::utils::fast_hash(label.as_str()));
                }
                let ghost dom = d@;
                suffix_domains.push(d);
                proof {
                    let after = text::of_vecs(suffix_domains@);
                    assert(after == before.push(dom));
                    assert forall|h: u64| scope_hashes@.contains(h) == #[trigger] scope_hash(
                        after,
                        h,
                    ) by {
                        lemma_scope_hash_push(before, dom, h);
                    }
                }
            }
            i += 1;
        }
        assert(all.take(n as int) == all);
        DomainMatcher { suffix_domains, scope_hashes }
    }

    /// Is `host` one of the domains or below one of them?
    fn covers_host(&self, host: &[char]) -> (r: bool)
        ensures
            r == covers(self@, host@),
    {
        let name: Vec<char> = chars::lower(chars::strip_back(host, '.'));
        let n: usize = self.suffix_domains.len();
        let mut i: usize = 0;
        while i < n
            invariant
                i <= n == self.suffix_domains@.len(),
                name@ == normal_host(host@),
                forall|j: int| 0 <= j < i ==> !under(name@, #[trigger] self@[j]),
            decreases n - i,
        {
            let d: &Vec<char> = &self.suffix_domains[i];
            assert(self@[i as int] == d@);
            let mut dotted: Vec<char> = Vec::new();
            dotted.push('.');
            chars::append(&mut dotted, d.as_slice());
            assert(dotted@ == seq!['.'] + d@);
            if chars::same(name.as_slice(), d.as_slice()) || chars::ends_with(
                name.as_slice(),
                dotted.as_slice(),
            ) {
                assert(under(name@, self@[i as int]));
                return true;
            }
            i += 1;
        }
        false
    }

    /// Is `host` one of the domains or below one of them? `notexample.com` is not below
    /// `example.com`.
    pub fn host_in_set(&self, host: &str) -> (r: bool)
        ensures
            r == covers(self@, host@),
    {
        self.covers_host(chars::chars_of(host).as_slice())
    }

    /// Does a token name a domain?
    fn hit_by(&self, token: &[char]) -> (r: bool)
        ensures
            r == token_hits(self@, token@),
    {
        broadcast use vstd::std_specs::hash::group_hash_axioms;

        proof {
            use_type_invariant(self);
        }
        let token: Vec<char> = chars::lower(chars::trim(token));
        let token: &[char] = token.as_slice();
        let mut star: Vec<char> = Vec::new();
        star.push('.');
        star.push('*');
        assert(star@ == seq!['.', '*']);
        let label: &[char] = if chars::ends_with(token, star.as_slice()) {
            slice_subrange(token, 0, token.len() - 2)
        } else {
            token
        };
        assert(text::ends_with(token@, star@) ==> label@ == token@.take(token@.len() - 2));
        let hash: u64 = adblock::utils::fast_hash(chars::string_of(label).as_str());
        assert(self.scope_hashes@.contains(hash) == scope_hash(self@, hash));
        self.covers_host(label) || self.scope_hashes.contains(&hash)
    }

    /// Does a raw token, such as `example.com`, `sub.example.com` or `example.*`, name a domain?
    pub fn token_matches(&self, token: &str) -> (r: bool)
        ensures
            r == token_hits(self@, token@),
    {
        self.hit_by(chars::chars_of(token).as_slice())
    }

    /// Is one of the hashes that of a domain or of an entity label?
    fn any_scope_hash(&self, hashes: &Option<Vec<u64>>) -> (r: bool)
        ensures
            r == any_hash(self@, filters::hashes_of(*hashes)),
    {
        broadcast use vstd::std_specs::hash::group_hash_axioms;

        proof {
            use_type_invariant(self);
        }
        match hashes {
            Some(v) => {
                let n: usize = v.len();
                let mut i: usize = 0;
                while i < n
                    invariant
                        i <= n == v@.len(),
                        *hashes == Some(*v),
                        forall|h: u64|
                            self.scope_hashes@.contains(h) == #[trigger] scope_hash(self@, h),
                        forall|j: int| 0 <= j < i ==> !scope_hash(self@, #[trigger] v@[j]),
                    decreases n - i,
                {
                    broadcast use vstd::std_specs::hash::group_hash_axioms;

                    assert(self.scope_hashes@.contains(v@[i as int]) == scope_hash(
                        self@,
                        v@[i as int],
                    ));
                    if self.scope_hashes.contains(&v[i]) {
                        let ghost list = filters::hashes_of(*hashes)->0;
                        assert(list == v@ && scope_hash(self@, list[i as int]));
                        assert(any_hash(self@, Some(list)));
                        return true;
                    }
                    i += 1;
                }
                false
            },
            None => false,
        }
    }

    /// How a parsed rule relates to the domains.
    pub fn relations_parsed(&self, parsed: &ParsedRule) -> (r: Vec<Relation>)
        ensures
            r@ == parsed_relations(self@, parsed@),
    {
        match parsed {
            ParsedRule::Network(f) => self.relations_network(f),
            ParsedRule::Cosmetic(f) => self.relations_cosmetic(f),
        }
    }

    /// How a parsed network rule relates to the domains. What `$domain=` excludes does not count.
    fn relations_network(&self, f: &NetworkRule) -> (r: Vec<Relation>)
        ensures
            r@ == network_relations(self@, f@),
    {
        let target: bool = match &f.hostname {
            Some(host) => self.host_in_set(host.as_str()),
            None => false,
        };
        relation_list(target, self.any_scope_hash(&f.opt_domains))
    }

    /// How a parsed cosmetic rule relates to the domains.
    fn relations_cosmetic(&self, f: &CosmeticRule) -> (r: Vec<Relation>)
        ensures
            r@ == cosmetic_relations(self@, f@),
    {
        if self.any_scope_hash(&f.not_hostnames) || self.any_scope_hash(&f.not_entities) {
            return relation_list(false, false);
        }
        relation_list(
            false,
            self.any_scope_hash(&f.hostnames) || self.any_scope_hash(&f.entities),
        )
    }

    /// How a rule that the engine cannot parse relates to the domains, by its text.
    pub fn relations_raw(&self, rule: &str) -> (r: Vec<Relation>)
        ensures
            r@ == raw_relations(self@, rule@),
    {
        let all: Vec<char> = chars::chars_of(rule);
        match options::cosmetic_marker(all.as_slice()) {
            Some((sep, _)) => {
                assert(all@.subrange(0, sep as int) == all@.take(sep as int));
                self.relations_raw_cosmetic(slice_subrange(all.as_slice(), 0, sep))
            },
            None => self.relations_raw_network(rule),
        }
    }

    /// The relations by the scope list before the separator of a cosmetic rule.
    fn relations_raw_cosmetic(&self, scope_text: &[char]) -> (r: Vec<Relation>)
        ensures
            r@ == raw_cosmetic_relations(self@, scope_text@),
    {
        let mut excluded: bool = false;
        let mut included: bool = false;
        let parts: Vec<&[char]> = chars::split(scope_text, ',');
        let ghost pieces = text::split(scope_text@, ',');
        assert(text::of_slices(parts@).len() == parts@.len());
        let n: usize = parts.len();
        let mut i: usize = 0;
        while i < n
            invariant
                i <= n == parts@.len() == pieces.len(),
                pieces == text::of_slices(parts@),
                included == (exists|j: int|
                    0 <= j < i && piece_names(self@, #[trigger] pieces[j])),
                excluded == (exists|j: int|
                    0 <= j < i && piece_excludes(self@, #[trigger] pieces[j])),
            decreases n - i,
        {
            assert(pieces[i as int] == parts@[i as int]@);
            let part: &[char] = chars::trim(parts[i]);
            let len: usize = part.len();
            if len > 0 {
                if part[0] == '~' {
                    let dom: &[char] = slice_subrange(part, 1, len);
                    assert(dom@ == part@.skip(1));
                    if self.hit_by(dom) {
                        assert(piece_excludes(self@, pieces[i as int]));
                        excluded = true;
                    }
                } else if self.hit_by(part) {
                    assert(piece_names(self@, pieces[i as int]));
                    included = true;
                }
            }
            i += 1;
        }
        relation_list(false, included && !excluded)
    }

    /// Does one of the entries of a `domain=` list name a domain?
    fn any_entry_names(&self, list: &[char]) -> (r: bool)
        ensures
            r == exists|j: int|
                0 <= j < text::split(list@, '|').len() && domain_entry_names(
                    self@,
                    #[trigger] text::split(list@, '|')[j],
                ),
    {
        let parts: Vec<&[char]> = chars::split(list, '|');
        let ghost entries = text::split(list@, '|');
        assert(text::of_slices(parts@).len() == parts@.len());
        let n: usize = parts.len();
        let mut i: usize = 0;
        while i < n
            invariant
                i <= n == parts@.len() == entries.len(),
                entries == text::of_slices(parts@),
                entries == text::split(list@, '|'),
                forall|j: int| 0 <= j < i ==> !domain_entry_names(self@, #[trigger] entries[j]),
            decreases n - i,
        {
            assert(entries[i as int] == parts@[i as int]@);
            let dom: &[char] = chars::trim(parts[i]);
            let mut tilde: Vec<char> = Vec::new();
            tilde.push('~');
            assert(tilde@ == seq!['~']);
            if !chars::starts_with(dom, tilde.as_slice()) && self.hit_by(dom) {
                return true;
            }
            i += 1;
        }
        false
    }

    /// The relations by the anchor and the `domain=` options of a network rule. `denyallow=` and
    /// negated entries are left aside: those domains are exempted, not targeted.
    fn relations_raw_network(&self, rule: &str) -> (r: Vec<Relation>)
        ensures
            r@ == raw_network_relations(self@, rule@),
    {
        let (pattern, opts) = split_network_options(rule);
        let target: bool = match pattern_anchor_host(pattern) {
            Some(host) => self.host_in_set(host),
            None => false,
        };
        let mut scope: bool = false;
        let list: Vec<char> = chars::chars_of(opts);
        let parts: Vec<&[char]> = chars::split(list.as_slice(), ',');
        let ghost pieces = text::split(opts@, ',');
        assert(text::of_slices(parts@).len() == parts@.len());
        let key: Vec<char> = chars::chars_of("domain=");
        let n: usize = parts.len();
        let mut i: usize = 0;
        while i < n
            invariant
                i <= n == parts@.len() == pieces.len(),
                pieces == text::of_slices(parts@),
                key@ == "domain="@,
                scope == (exists|j: int|
                    0 <= j < i && option_names_domain(self@, #[trigger] pieces[j])),
            decreases n - i,
        {
            assert(pieces[i as int] == parts@[i as int]@);
            let opt: &[char] = chars::trim(parts[i]);
            if chars::starts_with(opt, key.as_slice()) {
                let len: usize = opt.len();
                let list: &[char] = slice_subrange(opt, key.len(), len);
                assert(list@ == opt@.skip(key@.len() as int));
                if self.any_entry_names(list) {
                    assert(option_names_domain(self@, pieces[i as int]));
                    scope = true;
                }
            }
            i += 1;
        }
        assert(scope == (exists|j: int|
            0 <= j < pieces.len() && option_names_domain(self@, #[trigger] pieces[j])));
        let ghost both = pattern_and_options(rule@);
        assert(both.0 == pattern@ && both.1 == opts@);
        assert(target == (anchor_host(pattern@) matches Some(host) && covers(self@, host)));
        relation_list(target, scope)
    }
}

/// One more domain adds its own hash and, if it has two labels, that of its first.
proof fn lemma_scope_hash_push(domains: Seq<Seq<char>>, d: Seq<char>, h: u64)
    ensures
        scope_hash(domains.push(d), h) == (scope_hash(domains, h) || h == fast_hash_of(d) || (
        two_labels(d) && h == fast_hash_of(text::before(d, '.')))),
{
    let more = domains.push(d);
    if scope_hash(domains, h) {
        let i = choose|i: int|
            0 <= i < domains.len() && (h == fast_hash_of(#[trigger] domains[i]) || (two_labels(
                domains[i],
            ) && h == fast_hash_of(text::before(domains[i], '.'))));
        assert(more[i] == domains[i]);
    }
    if scope_hash(more, h) {
        let i = choose|i: int|
            0 <= i < more.len() && (h == fast_hash_of(#[trigger] more[i]) || (two_labels(more[i])
                && h == fast_hash_of(text::before(more[i], '.'))));
        if i < domains.len() {
            assert(domains[i] == more[i]);
        }
    }
    assert(more[domains.len() as int] == d);
}

/// The byte offset of the cosmetic separator (`##`, `#@#`, `#$#`, ...), if there is one.
pub fn cosmetic_separator(rule: &str) -> (r: Option<usize>)
    ensures
        (match options::separator(rule@) {
            Some((i, _)) => r matches Some(n) && n == vstd::utf8::encode_utf8(rule@.take(i)).len(),
            None => r is None,
        }),
{
    let all: Vec<char> = chars::chars_of(rule);
    match options::cosmetic_marker(all.as_slice()) {
        Some((i, _)) => {
            assert(rule@.subrange(0, i as int) == rule@.take(i as int));
            Some(rule.substring_char(0, i).as_bytes().len())
        },
        None => None,
    }
}

/// Splits a network rule into pattern and options at the first `$`.
pub fn split_network_options(rule: &str) -> (r: (&str, &str))
    ensures
        (r.0@, r.1@) == pattern_and_options(rule@),
{
    let all: Vec<char> = chars::chars_of(rule);
    let end: usize = all.len();
    match chars::find(all.as_slice(), '$') {
        Some(i) => {
            assert(rule@.subrange(0, i as int) == rule@.take(i as int));
            assert(rule@.subrange(i + 1, end as int) == rule@.skip(i + 1));
            (rule.substring_char(0, i), rule.substring_char(i + 1, end))
        },
        None => (rule, rule.substring_char(end, end)),
    }
}

/// The host of a `||host...` pattern; `None` if the pattern is not anchored to a host.
pub fn pattern_anchor_host(pattern: &str) -> (r: Option<&str>)
    ensures
        text::of_opt_str(r) == anchor_host(pattern@),
{
    let all: Vec<char> = chars::chars_of(pattern);
    let len: usize = all.len();
    let bars: Vec<char> = vec!['|', '|'];
    assert(bars@ == seq!['|', '|']);
    if !chars::starts_with(all.as_slice(), bars.as_slice()) {
        return None;
    }
    let rest: &[char] = slice_subrange(all.as_slice(), 2, len);
    assert(rest@ == pattern@.skip(2));
    let n: usize = rest.len();
    let mut i: usize = 0;
    assert(rest@.skip(0) == rest@);
    while i < n && !(rest[i] == '^' || rest[i] == '/' || rest[i] == '*' || rest[i] == '?'
        || rest[i] == ':')
        invariant
            i <= n == rest@.len(),
            host_len(rest@) == i + host_len(rest@.skip(i as int)),
        decreases n - i,
    {
        assert(rest@.skip(i as int).skip(1) == rest@.skip(i + 1));
        i += 1;
    }
    assert(host_len(rest@) == i);
    if i == 0 {
        None
    } else {
        assert(pattern@.subrange(2, 2 + i) == rest@.take(i as int));
        Some(pattern.substring_char(2, 2 + i))
    }
}

/// What is known of a configured domain as it is matched: it is not empty, starts with no white
/// space, ends with no dot and holds no ASCII capital.
pub open spec fn is_normal(d: Seq<char>) -> bool {
    &&& d.len() > 0
    &&& !text::white_space(d.first())
    &&& d.last() != '.'
    &&& text::lower(d) == d
}

proof fn lemma_normal(domain: Seq<char>)
    ensures
        normal(domain).len() > 0 ==> is_normal(normal(domain)),
{
    let t = text::trim(domain);
    let u = text::strip_back(t, '.');
    text::lemma_trim(domain);
    text::lemma_strip_back(t, '.');
    text::lemma_lower(u);
    if u.len() > 0 {
        let d = text::lower(u);
        assert(u.first() == t.first());
        assert(d.first() == text::lower_char(u.first()));
        assert(d.last() == text::lower_char(u.last()));
        assert(!text::white_space(d.first()));
        assert(d.last() != '.');
    }
}

/// Every configured domain is matched in its normal form.
pub proof fn configured_domains_are_normal(domains: Seq<Seq<char>>, d: Seq<char>)
    requires
        normal_domains(domains).contains(d),
    ensures
        is_normal(d),
    decreases domains.len(),
{
    if domains.len() > 0 {
        let earlier = normal_domains(domains.drop_last());
        let last = normal(domains.last());
        text::lemma_push_contains(earlier, last, d);
        if earlier.contains(d) {
            configured_domains_are_normal(domains.drop_last(), d);
        } else {
            lemma_normal(domains.last());
        }
    }
}

proof fn lemma_normal_host(host: Seq<char>)
    requires
        host.len() > 0,
        host.last() != '.',
    ensures
        normal_host(host) == text::lower(host),
{
}

/// A configured domain matches itself and every host below it.
pub proof fn domains_cover_themselves_and_what_is_below(
    domains: Seq<Seq<char>>,
    d: Seq<char>,
    below: Seq<char>,
)
    requires
        normal_domains(domains).contains(d),
    ensures
        covers(normal_domains(domains), d),
        covers(normal_domains(domains), below + seq!['.'] + d),
{
    let all = normal_domains(domains);
    configured_domains_are_normal(domains, d);
    let i = choose|i: int| 0 <= i < all.len() && all[i] == d;
    lemma_normal_host(d);
    assert(under(normal_host(d), all[i]));

    let host = below + seq!['.'] + d;
    assert(host.last() == d.last());
    lemma_normal_host(host);
    let h = text::lower(host);
    let tail = seq!['.'] + d;
    assert(h.subrange(h.len() - tail.len(), h.len() as int) =~= text::lower(tail));
    assert(text::lower(tail) =~= tail) by {
        assert forall|k: int| 0 <= k < tail.len() implies text::lower(tail)[k] == tail[k] by {
            if k > 0 {
                assert(text::lower(d)[k - 1] == text::lower_char(d[k - 1]));
            }
        }
    }
    assert(under(h, all[i]));
}

/// A host matches exactly if, in small letters and without dots at its end, it is a domain or
/// stands below one, with a dot between: `notexample.com` is not below `example.com`.
pub proof fn hosts_match_at_a_label_boundary(domains: Seq<Seq<char>>, host: Seq<char>)
    ensures
        covers(domains, host) <==> exists|i: int|
            0 <= i < domains.len() && (normal_host(host) == #[trigger] domains[i] || exists|
                below: Seq<char>,
            |
                normal_host(host) == #[trigger] (below + seq!['.'] + domains[i])),
{
    let h = normal_host(host);
    assert forall|d: Seq<char>| #[trigger] under(h, d) <==> (h == d || exists|below: Seq<char>|
        h == #[trigger] (below + seq!['.'] + d)) by {
        let tail = seq!['.'] + d;
        if text::ends_with(h, tail) {
            let below = h.take(h.len() - tail.len());
            let start = h.len() - tail.len();
            let whole = below + seq!['.'] + d;
            assert forall|k: int| 0 <= k < h.len() implies h[k] == whole[k] by {
                if k >= start {
                    assert(h.subrange(start, h.len() as int)[k - start] == tail[k - start]);
                }
            }
            assert(h =~= whole);
        }
        if exists|below: Seq<char>| h == #[trigger] (below + seq!['.'] + d) {
            let below = choose|below: Seq<char>| h == #[trigger] (below + seq!['.'] + d);
            assert(h.subrange(h.len() - tail.len(), h.len() as int) =~= tail);
        }
    }
    if covers(domains, host) {
        let i = choose|i: int| 0 <= i < domains.len() && under(h, #[trigger] domains[i]);
        assert(under(h, domains[i]));
        assert(h == domains[i] || exists|below: Seq<char>|
            h == #[trigger] (below + seq!['.'] + domains[i]));
    }
    if exists|i: int|
        0 <= i < domains.len() && (h == #[trigger] domains[i] || exists|below: Seq<char>|
            h == #[trigger] (below + seq!['.'] + domains[i])) {
        let i = choose|i: int|
            0 <= i < domains.len() && (h == #[trigger] domains[i] || exists|below: Seq<char>|
                h == #[trigger] (below + seq!['.'] + domains[i]));
        assert(under(h, domains[i]));
    }
}

/// Neither capitals nor a dot at its end change whether a host matches.
pub proof fn hosts_match_in_any_spelling(domains: Seq<Seq<char>>, host: Seq<char>)
    ensures
        covers(domains, text::lower(host)) == covers(domains, host),
        covers(domains, host.push('.')) == covers(domains, host),
{
    text::lemma_lower_strip_back(host);
    text::lemma_lower(text::strip_back(host, '.'));
    assert(host.push('.').drop_last() == host);
}

/// The relations stand each once, `Target` before `Scope`.
pub proof fn relations_stand_once_and_in_order(target: bool, scope: bool)
    ensures
        relations(target, scope).no_duplicates(),
        relations(target, scope).contains(Relation::Target) == target,
        relations(target, scope).contains(Relation::Scope) == scope,
        target && scope ==> relations(target, scope) == seq![Relation::Target, Relation::Scope],
{
    let r = relations(target, scope);
    if target {
        assert(r[0] == Relation::Target);
    }
    if scope {
        assert(r[r.len() - 1] == Relation::Scope);
    }
}

/// How a rule relates to the domains is always said by such a list, whether the engine parsed the
/// rule or not; and no cosmetic rule has a target.
pub proof fn rules_relate_in_order(
    domains: Seq<Seq<char>>,
    parsed: filters::ParsedView,
    rule: Seq<char>,
)
    ensures
        ({
            let r = parsed_relations(domains, parsed);
            r == relations(r.contains(Relation::Target), r.contains(Relation::Scope))
        }),
        ({
            let r = raw_relations(domains, rule);
            r == relations(r.contains(Relation::Target), r.contains(Relation::Scope))
        }),
        parsed is Cosmetic ==> !parsed_relations(domains, parsed).contains(Relation::Target),
        options::separator(rule) is Some ==> !raw_relations(domains, rule).contains(
            Relation::Target,
        ),
{
    assert forall|t: bool, s: bool| #[trigger] relations(t, s).contains(Relation::Target) == t
        && relations(t, s).contains(Relation::Scope) == s by {
        relations_stand_once_and_in_order(t, s);
    }
}

/// A cosmetic rule that excludes one of the domains does not relate to them, whatever else it
/// names.
pub proof fn excluded_domains_do_not_count(domains: Seq<Seq<char>>, f: filters::CosmeticView)
    requires
        any_hash(domains, f.not_hostnames) || any_hash(domains, f.not_entities),
    ensures
        cosmetic_relations(domains, f).len() == 0,
{
}

/// The same of a cosmetic rule that the engine did not parse.
pub proof fn excluded_raw_domains_do_not_count(
    domains: Seq<Seq<char>>,
    rule: Seq<char>,
    at: int,
    marker: Seq<char>,
    k: int,
)
    requires
        options::separator(rule) == Some((at, marker)),
        0 <= k < text::split(rule.take(at), ',').len(),
        piece_excludes(domains, text::split(rule.take(at), ',')[k]),
    ensures
        raw_relations(domains, rule).len() == 0,
{
}

/// The entries of option `k` of a network rule, taken as a `domain=` list.
pub open spec fn domain_entries(rule: Seq<char>, k: int) -> Seq<Seq<char>> {
    let piece = text::split(pattern_and_options(rule).1, ',')[k];
    text::split(text::trim(piece).skip("domain="@.len() as int), '|')
}

/// A network rule that the engine did not parse is in the scope of the domains exactly if an entry
/// of a `domain=` option, and one that is not negated, names one: what other options mention, such
/// as `denyallow=`, does not count.
pub proof fn only_plain_domain_entries_give_a_scope(domains: Seq<Seq<char>>, rule: Seq<char>)
    requires
        options::separator(rule) is None,
    ensures
        raw_relations(domains, rule).contains(Relation::Scope) <==> exists|k: int, j: int|
            0 <= k < text::split(pattern_and_options(rule).1, ',').len() && 0 <= j
                < domain_entries(rule, k).len() && text::starts_with(
                text::trim(text::split(pattern_and_options(rule).1, ',')[k]),
                "domain="@,
            ) && !text::starts_with(
                text::trim(#[trigger] domain_entries(rule, k)[j]),
                seq!['~'],
            ) && token_hits(domains, text::trim(domain_entries(rule, k)[j])),
{
    let (pattern, opts) = pattern_and_options(rule);
    let pieces = text::split(opts, ',');
    let target = anchor_host(pattern) matches Some(host) && covers(domains, host);
    let scope = exists|i: int|
        0 <= i < pieces.len() && option_names_domain(domains, #[trigger] pieces[i]);
    relations_stand_once_and_in_order(target, scope);
    assert(raw_relations(domains, rule) == relations(target, scope));
    if scope {
        let k = choose|i: int|
            0 <= i < pieces.len() && option_names_domain(domains, #[trigger] pieces[i]);
        let entries = domain_entries(rule, k);
        let j = choose|j: int|
            0 <= j < entries.len() && domain_entry_names(domains, #[trigger] entries[j]);
        assert(token_hits(domains, text::trim(domain_entries(rule, k)[j])));
    }
    if exists|k: int, j: int|
        0 <= k < pieces.len() && 0 <= j < domain_entries(rule, k).len() && text::starts_with(
            text::trim(pieces[k]),
            "domain="@,
        ) && !text::starts_with(text::trim(#[trigger] domain_entries(rule, k)[j]), seq!['~'])
            && token_hits(domains, text::trim(domain_entries(rule, k)[j])) {
        let (k, j) = choose|k: int, j: int|
            0 <= k < pieces.len() && 0 <= j < domain_entries(rule, k).len() && text::starts_with(
                text::trim(pieces[k]),
                "domain="@,
            ) && !text::starts_with(text::trim(#[trigger] domain_entries(rule, k)[j]), seq!['~'])
                && token_hits(domains, text::trim(domain_entries(rule, k)[j]));
        assert(domain_entry_names(domains, domain_entries(rule, k)[j]));
        assert(option_names_domain(domains, pieces[k]));
    }
}

/// The entity of a domain with two labels, such as `example.*` for `example.com`, names the
/// domain.
pub proof fn entities_name_their_domains(domains: Seq<Seq<char>>, d: Seq<char>)
    requires
        normal_domains(domains).contains(d),
        two_labels(d),
    ensures
        token_hits(normal_domains(domains), text::before(d, '.') + seq!['.', '*']),
{
    let all = normal_domains(domains);
    configured_domains_are_normal(domains, d);
    let i = choose|i: int| 0 <= i < all.len() && all[i] == d;
    text::lemma_find(d, '.');
    let label = text::before(d, '.');
    let token = label + seq!['.', '*'];
    assert(label.len() > 0 ==> token.first() == d.first());
    assert(token.last() == '*');
    text::lemma_trim_fixed(token);
    assert(text::lower(token) =~= token) by {
        assert forall|k: int| 0 <= k < token.len() implies text::lower(token)[k] == token[k] by {
            if k < label.len() {
                assert(label[k] == d[k]);
                assert(text::lower(d)[k] == text::lower_char(d[k]));
            }
        }
    }
    assert(token.subrange(token.len() - 2, token.len() as int) =~= seq!['.', '*']);
    assert(token.take(token.len() - 2) =~= label);
    assert(token_label(token) == label);
    assert(scope_hash(all, fast_hash_of(label))) by {
        assert(two_labels(all[i]) && fast_hash_of(label) == fast_hash_of(
            text::before(all[i], '.'),
        ));
    }
}

/// A host, whatever capitals and dots at its end it is written with, matches exactly if it is one
/// of the domains or stands below one of them.
pub proof fn hosts_match_domains_and_below(domains: Seq<Seq<char>>, core: Seq<char>, dots: nat)
    requires
        core.len() > 0 ==> core.last() != '.',
    ensures
        covers(domains, core + Seq::new(dots, |k: int| '.')) <==> exists|i: int|
            0 <= i < domains.len() && (text::lower(core) == #[trigger] domains[i] || exists|
                below: Seq<char>,
            |
                text::lower(core) == #[trigger] (below + seq!['.'] + domains[i])),
{
    text::runs_at_the_back_go(core, '.', dots);
    hosts_match_at_a_label_boundary(domains, core + Seq::new(dots, |k: int| '.'));
}

/// A hash is in the scope of the domains exactly if it is that of a domain or, where the domain
/// has two labels, that of the first of them.
pub proof fn scopes_are_hashes_of_domains_and_entities(domains: Seq<Seq<char>>, h: u64)
    ensures
        scope_hash(domains, h) <==> exists|i: int|
            0 <= i < domains.len() && (h == fast_hash_of(#[trigger] domains[i]) || exists|
                a: Seq<char>,
                b: Seq<char>,
            |
                #![trigger a + seq!['.'] + b]
                domains[i] == a + seq!['.'] + b && !a.contains('.') && !b.contains('.') && h
                    == fast_hash_of(a)),
{
    if scope_hash(domains, h) {
        let i = choose|i: int|
            0 <= i < domains.len() && (h == fast_hash_of(#[trigger] domains[i]) || (two_labels(
                domains[i],
            ) && h == fast_hash_of(text::before(domains[i], '.'))));
        let d = domains[i];
        if h != fast_hash_of(d) {
            lemma_two_labels(d);
            let a = text::before(d, '.');
            let b = d.skip(a.len() as int + 1);
            assert(d == a + seq!['.'] + b && !a.contains('.') && !b.contains('.') && h
                == fast_hash_of(a));
        }
    }
    assert forall|i: int|
        0 <= i < domains.len() && (h == fast_hash_of(#[trigger] domains[i]) || exists|
            a: Seq<char>,
            b: Seq<char>,
        |
            #![trigger a + seq!['.'] + b]
            domains[i] == a + seq!['.'] + b && !a.contains('.') && !b.contains('.') && h
                == fast_hash_of(a)) implies scope_hash(domains, h) by {
        if h != fast_hash_of(domains[i]) {
            let (a, b) = choose|a: Seq<char>, b: Seq<char>|
                #![trigger a + seq!['.'] + b]
                domains[i] == a + seq!['.'] + b && !a.contains('.') && !b.contains('.') && h
                    == fast_hash_of(a);
            text::pieces_end_at_the_separator(a, b, '.');
            text::pieces_end_at_the_separator(b, b, '.');
            assert((seq![a] + seq![b]).len() == 2);
            assert(two_labels(domains[i]));
            assert(text::before(domains[i], '.') == a);
        }
    }
}

/// A domain with two labels in its parts.
proof fn lemma_two_labels(d: Seq<char>)
    requires
        two_labels(d),
    ensures
        ({
            let a = text::before(d, '.');
            let b = d.skip(a.len() as int + 1);
            d == a + seq!['.'] + b && !a.contains('.') && !b.contains('.')
        }),
{
    text::lemma_find(d, '.');
    let a = text::before(d, '.');
    let b = d.skip(a.len() as int + 1);
    match text::find(d, '.') {
        Some(i) => {
            assert(d =~= a + seq!['.'] + b);
            text::lemma_find(b, '.');
            if text::find(b, '.') is Some {
                text::lemma_split_pieces(b.skip(text::find(b, '.')->0 + 1), '.');
                assert(text::split(b, '.').len() >= 2);
            }
        },
        None => {
            assert(text::split(d, '.').len() == 1);
        },
    }
}

/// A parsed network rule has the domains for its target exactly if its host is one of them or
/// below one, and is in their scope exactly if a hash of its `$domain=` list is; neither says
/// anything of the other.
pub proof fn network_rules_relate_by_host_and_list(
    domains: Seq<Seq<char>>,
    f: filters::NetworkView,
    g: filters::NetworkView,
)
    ensures
        ({
            let r = parsed_relations(domains, filters::ParsedView::Network(f));
            let q = parsed_relations(domains, filters::ParsedView::Network(g));
            &&& r.contains(Relation::Target) <==> exists|host: Seq<char>|
                f.hostname == Some(host) && #[trigger] covers(domains, host)
            &&& r.contains(Relation::Scope) <==> exists|hashes: Seq<u64>, k: int|
                f.opt_domains == Some(hashes) && 0 <= k < hashes.len() && scope_hash(
                    domains,
                    #[trigger] hashes[k],
                )
            &&& f.hostname == g.hostname ==> r.contains(Relation::Target) == q.contains(
                Relation::Target,
            )
            &&& f.opt_domains == g.opt_domains ==> r.contains(Relation::Scope) == q.contains(
                Relation::Scope,
            )
        }),
{
    relations_stand_once_and_in_order(
        f.hostname matches Some(host) && covers(domains, host),
        any_hash(domains, f.opt_domains),
    );
    relations_stand_once_and_in_order(
        g.hostname matches Some(host) && covers(domains, host),
        any_hash(domains, g.opt_domains),
    );
    lemma_any_hash(domains, f.opt_domains);
}

/// A list of hashes is in the scope of the domains if one of them is.
proof fn lemma_any_hash(domains: Seq<Seq<char>>, list: Option<Seq<u64>>)
    ensures
        any_hash(domains, list) <==> exists|hashes: Seq<u64>, k: int|
            list == Some(hashes) && 0 <= k < hashes.len() && scope_hash(
                domains,
                #[trigger] hashes[k],
            ),
{
    if any_hash(domains, list) {
        let v = list->0;
        let i = choose|i: int| 0 <= i < v.len() && scope_hash(domains, #[trigger] v[i]);
        assert(list == Some(v) && 0 <= i < v.len() && scope_hash(domains, v[i]));
    }
    assert forall|hashes: Seq<u64>, k: int|
        list == Some(hashes) && 0 <= k < hashes.len() && scope_hash(
            domains,
            #[trigger] hashes[k],
        ) implies any_hash(domains, list) by {
        let v = list->0;
        assert(scope_hash(domains, v[k]));
    }
}

/// A parsed cosmetic rule is in the scope of the domains exactly if a hash of a host or entity
/// that it names is, and none of those that it excludes; it never has them for its target.
pub proof fn cosmetic_rules_relate_by_their_scope(
    domains: Seq<Seq<char>>,
    f: filters::CosmeticView,
)
    ensures
        ({
            let r = parsed_relations(domains, filters::ParsedView::Cosmetic(f));
            let named = exists|hashes: Seq<u64>, k: int|
                (f.hostnames == Some(hashes) || f.entities == Some(hashes)) && 0 <= k
                    < hashes.len() && scope_hash(domains, #[trigger] hashes[k]);
            let excluded = exists|hashes: Seq<u64>, k: int|
                (f.not_hostnames == Some(hashes) || f.not_entities == Some(hashes)) && 0 <= k
                    < hashes.len() && scope_hash(domains, #[trigger] hashes[k]);
            &&& !r.contains(Relation::Target)
            &&& r.contains(Relation::Scope) <==> named && !excluded
        }),
{
    let excluded = any_hash(domains, f.not_hostnames) || any_hash(domains, f.not_entities);
    let named = any_hash(domains, f.hostnames) || any_hash(domains, f.entities);
    relations_stand_once_and_in_order(false, named && !excluded);
    lemma_any_hash(domains, f.hostnames);
    lemma_any_hash(domains, f.entities);
    lemma_any_hash(domains, f.not_hostnames);
    lemma_any_hash(domains, f.not_entities);
}

/// A token names a domain exactly if, as a host, it matches one, or its hash is in their scope;
/// white space around it, its capitals and the `.*` of an entity do not count.
pub proof fn tokens_match_as_hosts_or_by_hash(
    domains: Seq<Seq<char>>,
    a: Seq<char>,
    core: Seq<char>,
    b: Seq<char>,
)
    requires
        forall|k: int| 0 <= k < a.len() ==> text::white_space(#[trigger] a[k]),
        forall|k: int| 0 <= k < b.len() ==> text::white_space(#[trigger] b[k]),
        core.len() > 0 ==> !text::white_space(core.first()) && !text::white_space(core.last()),
    ensures
        ({
            let named = covers(domains, core) || scope_hash(
                domains,
                fast_hash_of(text::lower(core)),
            );
            &&& !text::ends_with(core, seq!['.', '*']) ==> token_hits(domains, a + core + b)
                == named
            &&& token_hits(domains, a + (core + seq!['.', '*']) + b) == named
        }),
{
    text::trimming_leaves_the_core(a, core, b);
    let low = text::lower(core);
    hosts_match_in_any_spelling(domains, core);
    if !text::ends_with(core, seq!['.', '*']) {
        assert(!text::ends_with(low, seq!['.', '*'])) by {
            let n = core.len() as int;
            if text::ends_with(low, seq!['.', '*']) {
                assert(low.subrange(n - 2, n)[0] == low[n - 2]);
                assert(low.subrange(n - 2, n)[1] == low[n - 1]);
                assert(core[n - 2] == '.' && core[n - 1] == '*') by {
                    text::lemma_lower_char(core[n - 2]);
                    text::lemma_lower_char(core[n - 1]);
                }
                assert(core.subrange(n - 2, n) =~= seq!['.', '*']);
            }
        }
    }
    let entity = core + seq!['.', '*'];
    assert(entity.first() == if core.len() > 0 { core.first() } else { '.' });
    assert(entity.last() == '*');
    text::trimming_leaves_the_core(a, entity, b);
    let lowered = text::lower(entity);
    assert(lowered =~= low + seq!['.', '*']);
    let n = lowered.len() as int;
    assert(lowered.subrange(n - 2, n) =~= seq!['.', '*']);
    assert(lowered.take(n - 2) =~= low);
}

/// A cosmetic rule that the engine did not parse is in the scope of the domains exactly if an
/// entry before its separator names one and no negated entry does; it never has them for its
/// target.
pub proof fn plain_scope_entries_relate(
    domains: Seq<Seq<char>>,
    rule: Seq<char>,
    at: int,
    marker: Seq<char>,
)
    requires
        options::separator(rule) == Some((at, marker)),
    ensures
        ({
            let entries = text::split(rule.take(at), ',');
            let named = exists|k: int|
                0 <= k < entries.len() && text::trim(#[trigger] entries[k]).len() > 0 && text::trim(
                    entries[k],
                )[0] != '~' && token_hits(domains, entries[k]);
            let excluded = exists|k: int|
                0 <= k < entries.len() && text::trim(#[trigger] entries[k]).len() > 0 && text::trim(
                    entries[k],
                )[0] == '~' && token_hits(domains, text::trim(entries[k]).skip(1));
            &&& !raw_relations(domains, rule).contains(Relation::Target)
            &&& raw_relations(domains, rule).contains(Relation::Scope) <==> named && !excluded
        }),
{
    let pieces = text::split(rule.take(at), ',');
    let named = exists|i: int| 0 <= i < pieces.len() && piece_names(domains, #[trigger] pieces[i]);
    let excluded = exists|i: int|
        0 <= i < pieces.len() && piece_excludes(domains, #[trigger] pieces[i]);
    relations_stand_once_and_in_order(false, named && !excluded);
    assert forall|k: int| 0 <= k < pieces.len() implies token_hits(domains, #[trigger] pieces[k])
        == token_hits(domains, text::trim(pieces[k])) by {
        text::lemma_trim_twice(pieces[k]);
    }
    assert forall|k: int|
        0 <= k < pieces.len() && #[trigger] piece_names(domains, pieces[k]) implies text::trim(
        pieces[k],
    ).len() > 0 && text::trim(pieces[k])[0] != '~' && token_hits(domains, pieces[k]) by {}
}

/// What a pattern is anchored to: behind `||`, all that comes before a character that ends a host,
/// if there is anything.
pub proof fn anchored_hosts_are_read_off(host: Seq<char>, rest: Seq<char>, other: Seq<char>)
    requires
        forall|k: int|
            0 <= k < host.len() ==> #[trigger] host[k] != '^' && host[k] != '/' && host[k] != '*'
                && host[k] != '?' && host[k] != ':',
        rest.len() > 0 ==> rest[0] == '^' || rest[0] == '/' || rest[0] == '*' || rest[0] == '?'
            || rest[0] == ':',
    ensures
        anchor_host(seq!['|', '|'] + host + rest) == (if host.len() > 0 {
            Some(host)
        } else {
            None
        }),
        !text::starts_with(other, seq!['|', '|']) ==> anchor_host(other) is None,
{
    let pattern = seq!['|', '|'] + host + rest;
    assert(pattern.subrange(0, 2) =~= seq!['|', '|']);
    assert(pattern.skip(2) =~= host + rest);
    lemma_host_len(host, rest);
    assert((host + rest).take(host.len() as int) =~= host);
}

proof fn lemma_host_len(host: Seq<char>, rest: Seq<char>)
    requires
        forall|k: int| 0 <= k < host.len() ==> !host_end(#[trigger] host[k]),
        rest.len() > 0 ==> host_end(rest[0]),
    ensures
        host_len(host + rest) == host.len(),
    decreases host.len(),
{
    if host.len() > 0 {
        assert(!host_end(host[0]));
        assert((host + rest).first() == host[0]);
        assert((host + rest).skip(1) =~= host.skip(1) + rest);
        lemma_host_len(host.skip(1), rest);
    } else {
        assert(host + rest =~= rest);
    }
}

/// The first `$` of a network rule parts its pattern from its options; a rule without one is all
/// pattern.
pub proof fn the_first_dollar_parts_a_rule(pattern: Seq<char>, opts: Seq<char>)
    requires
        !pattern.contains('$'),
    ensures
        pattern_and_options(pattern) == (pattern, Seq::<char>::empty()),
        pattern_and_options(pattern + seq!['$'] + opts) == (pattern, opts),
{
    text::lemma_find(pattern, '$');
    let rule = pattern + seq!['$'] + opts;
    text::lemma_find(rule, '$');
    let n = pattern.len() as int;
    assert(rule[n] == '$');
    assert forall|k: int| 0 <= k < n implies rule[k] != '$' by {
        assert(pattern.contains(pattern[k]));
    }
    assert(text::find(rule, '$') == Some(n));
    assert(rule.take(n) =~= pattern);
    assert(rule.skip(n + 1) =~= opts);
}

/// A network rule that the engine did not parse has the domains for its target exactly if its
/// pattern is anchored to a host that is one of them or below one.
pub proof fn only_anchored_hosts_are_targets(domains: Seq<Seq<char>>, rule: Seq<char>)
    requires
        options::separator(rule) is None,
    ensures
        raw_relations(domains, rule).contains(Relation::Target) <==> exists|host: Seq<char>|
            anchor_host(pattern_and_options(rule).0) == Some(host) && #[trigger] covers(
                domains,
                host,
            ),
{
    let (pattern, opts) = pattern_and_options(rule);
    let pieces = text::split(opts, ',');
    relations_stand_once_and_in_order(
        anchor_host(pattern) matches Some(host) && covers(domains, host),
        exists|i: int|
            0 <= i < pieces.len() && option_names_domain(domains, #[trigger] pieces[i]),
    );
}

/// Of each configured domain what is left without white space around it, dots at its end and
/// capitals is matched, in the order in which they were given; one that is empty then is not.
pub proof fn each_domain_is_configured(
    domains: Seq<Seq<char>>,
    a: Seq<char>,
    core: Seq<char>,
    dots: nat,
    b: Seq<char>,
)
    requires
        forall|k: int| 0 <= k < a.len() ==> text::white_space(#[trigger] a[k]),
        forall|k: int| 0 <= k < b.len() ==> text::white_space(#[trigger] b[k]),
        core.len() > 0 ==> !text::white_space(core.first()) && core.last() != '.',
        core.len() > 0 && dots == 0 ==> !text::white_space(core.last()),
    ensures
        normal_domains(Seq::empty()) == Seq::<Seq<char>>::empty(),
        normal_domains(domains.push(a + (core + Seq::new(dots, |k: int| '.')) + b)) == (
        if core.len() > 0 {
            normal_domains(domains).push(text::lower(core))
        } else {
            normal_domains(domains)
        }),
{
    let run = Seq::new(dots, |k: int| '.');
    let whole = core + run;
    if whole.len() > 0 {
        assert(whole.first() == if core.len() > 0 { core.first() } else { '.' });
        assert(whole.last() == if dots > 0 { '.' } else { core.last() });
    }
    let given = a + whole + b;
    text::trimming_leaves_the_core(a, whole, b);
    text::runs_at_the_back_go(core, '.', dots);
    assert(domains.push(given).drop_last() =~= domains);
    assert(domains.push(given).last() == given);
    assert(text::lower(core).len() == core.len());
}

/// Two parsed network rules with one host have the same matcher for a target, whatever their
/// `$domain=` lists; and with one list they are both in its scope or both not.
pub proof fn hosts_and_lists_are_matched_apart(
    matcher: &DomainMatcher,
    f: &ParsedRule,
    g: &ParsedRule,
    a: Vec<Relation>,
    b: Vec<Relation>,
)
    requires
        call_ensures(DomainMatcher::relations_parsed, (matcher, f), a),
        call_ensures(DomainMatcher::relations_parsed, (matcher, g), b),
        f@ is Network,
        g@ is Network,
    ensures
        f@->Network_0.hostname == g@->Network_0.hostname ==> a@.contains(Relation::Target)
            == b@.contains(Relation::Target),
        f@->Network_0.opt_domains == g@->Network_0.opt_domains ==> a@.contains(Relation::Scope)
            == b@.contains(Relation::Scope),
        f@->Network_0.hostname matches Some(host) ==> a@.contains(Relation::Target) == covers(
            matcher@,
            host,
        ),
{
    network_rules_relate_by_host_and_list(matcher@, f@->Network_0, g@->Network_0);
}

/// A matcher finds a host exactly if it covers it, and a token exactly if that names one of its
/// domains; a host that it finds, it finds as a token, too, if that has no white space around it
/// and is no entity.
pub proof fn found_hosts_are_found_as_tokens(
    matcher: &DomainMatcher,
    host: &str,
    a: bool,
    b: bool,
)
    requires
        call_ensures(DomainMatcher::host_in_set, (matcher, host), a),
        call_ensures(DomainMatcher::token_matches, (matcher, host), b),
    ensures
        a == covers(matcher@, host@),
        b == token_hits(matcher@, host@),
        a && host@ == text::trim(host@) && !text::ends_with(host@, seq!['.', '*']) ==> b,
{
    let none = Seq::<char>::empty();
    if host@ == text::trim(host@) {
        text::lemma_trim(host@);
        tokens_match_as_hosts_or_by_hash(matcher@, none, host@, none);
        assert(none + host@ + none =~= host@);
    }
}

} // verus!
