//! Does a rule's scriptlet or redirect resource resolve? A rule can parse and yet do nothing if
//! the resource is missing or needs a permission that it was not granted. The engine's own
//! resource storage answers, so that `.js` suffixes, aliases, dependencies and permissions count
//! as they do in the engine.

use adblock::resources::{
    InMemoryResourceStorage, MimeType, PermissionMask, Resource, ResourceStorage, ResourceType,
};
use vstd::prelude::*;
use vstd::string::StrSliceExecFns;

use crate::chars;
use crate::filters;
use crate::filters::{ParseOutcome, ParsedRule};
use crate::text;

verus! {

/// `adblock::resources::ResourceStorage`, which looks resources up by name and alias.
#[verifier::external_type_specification]
#[verifier::external_body]
pub struct ExResourceStorage(ResourceStorage);

/// How a rule stands to the resource that it needs.
#[derive(Debug, Clone, Copy, PartialEq, Eq, Structural)]
pub enum ResourceStatus {
    /// Not a scriptlet or redirect rule.
    NotApplicable,
    Resolved,
    RequiresPermission,
    Missing,
}

/// Why a set of resources cannot be used.
#[derive(Debug, Clone, Copy, PartialEq, Eq, Structural)]
pub enum ResourceError {
    /// The text is not a JSON list of resources.
    Malformed,
    /// Resources depend on each other in a circle, each by an alias of the next.
    AliasCircle,
}

/// One resource: a scriptlet, or data for a redirected request.
pub struct ResourceEntry {
    /// The primary name.
    pub name: String,
    pub aliases: Vec<String>,
    /// The MIME type of the data; none for a scriptlet template.
    pub mime: Option<String>,
    /// The data, in base64.
    pub content: String,
    /// The primary names of the resources that this one uses.
    pub dependencies: Vec<String>,
    /// The permissions that a rule needs to inject it, as bits.
    pub permission: u8,
}

/// The view of a [`ResourceEntry`].
pub struct EntryView {
    pub name: Seq<char>,
    pub aliases: Seq<Seq<char>>,
    pub mime: Option<Seq<char>>,
    pub content: Seq<char>,
    pub dependencies: Seq<Seq<char>>,
    pub permission: u8,
}

impl View for ResourceEntry {
    type V = EntryView;

    open spec fn view(&self) -> EntryView {
        EntryView {
            name: self.name@,
            aliases: text::of_strings(self.aliases@),
            mime: text::of_opt_string(self.mime),
            content: self.content@,
            dependencies: text::of_strings(self.dependencies@),
            permission: self.permission,
        }
    }
}

/// The views of the entries.
pub open spec fn entries_of(v: Seq<ResourceEntry>) -> Seq<EntryView> {
    v.map_values(|e: ResourceEntry| e@)
}

/// Does entry `i` name an alias of entry `j` as a dependency?
pub open spec fn leans_on(entries: Seq<EntryView>, i: int, j: int) -> bool {
    exists|k: int|
        0 <= k < entries[i].dependencies.len() && entries[j].aliases.contains(
            #[trigger] entries[i].dependencies[k],
        )
}

/// Does each entry rank above those that it leans on?
pub open spec fn ranked(entries: Seq<EntryView>, rank: Seq<nat>) -> bool {
    rank.len() == entries.len() && forall|i: int, j: int|
        0 <= i < entries.len() && 0 <= j < entries.len() && #[trigger] leans_on(entries, i, j)
            ==> rank[j] < rank[i]
}

/// Do the entries depend on each other without a circle of aliases? The engine remembers the
/// resources that it has met by their primary names, so that it goes round such a circle for ever.
pub open spec fn free_of_circles(entries: Seq<EntryView>) -> bool {
    exists|rank: Seq<nat>| ranked(entries, rank)
}

/// The resources that a JSON text lists, if it is such a list.
pub uninterp spec fn json_resources(json: Seq<char>) -> Option<Seq<EntryView>>;

/// The resources that a storage was made from.
pub uninterp spec fn held(storage: ResourceStorage) -> Seq<EntryView>;

/// The data URL for a redirect to the resource that `ident` names, if the entries have one for it.
pub uninterp spec fn redirect_data(entries: Seq<EntryView>, ident: Seq<char>) -> Option<Seq<char>>;

/// The script that the entries give for the arguments of a `+js(...)` rule with the given
/// permissions; empty if the scriptlet does not resolve.
pub uninterp spec fn scriptlet_script(
    entries: Seq<EntryView>,
    args: Seq<char>,
    permission: u8,
) -> Seq<char>;

/// `serde_json::from_str`, into a list of the engine's resources. The contract claims that the
/// list, or that there is none, is a function of the text.
#[verifier::external_body]
fn read_resources(json: &str) -> (r: Option<Vec<ResourceEntry>>)
    ensures
        (match json_resources(json@) {
            Some(entries) => r matches Some(v) && entries_of(v@) == entries,
            None => r is None,
        }),
{
    let resources: Vec<Resource> = serde_json::from_str(json).ok()?;
    Some(resources.into_iter().map(|r| ResourceEntry {
        name: r.name,
        aliases: r.aliases,
        mime: match r.kind {
            ResourceType::Mime(m) => Some(m.to_string()),
            ResourceType::Template => None,
        },
        content: r.content,
        dependencies: r.dependencies,
        permission: r.permission.to_bits(),
    }).collect())
}

/// `ResourceStorage::from_backend` over `InMemoryResourceStorage::from_resources`. The contract
/// claims only that the storage is one that was made from these entries, which `held` records;
/// what it answers is named by `redirect_data` and `scriptlet_script`.
#[verifier::external_body]
fn storage_of(entries: Vec<ResourceEntry>) -> (r: ResourceStorage)
    ensures
        held(r) == entries_of(entries@),
{
    ResourceStorage::from_backend(InMemoryResourceStorage::from_resources(
        entries.into_iter().map(|e| Resource {
            name: e.name,
            aliases: e.aliases,
            kind: match e.mime {
                Some(m) => ResourceType::Mime(MimeType::from(m.as_str())),
                None => ResourceType::Template,
            },
            content: e.content,
            dependencies: e.dependencies,
            permission: PermissionMask::from_bits(e.permission),
        }),
    ))
}

/// `ResourceStorage::get_redirect_resource`. The contract claims that the answer is a function of
/// the resources that the storage was made from and of the identifier.
#[verifier::external_body]
fn redirect_resource(storage: &ResourceStorage, ident: &str) -> (r: Option<String>)
    ensures
        text::of_opt_string(r) == redirect_data(held(*storage), ident@),
{
    storage.get_redirect_resource(ident)
}

/// `ResourceStorage::get_scriptlet_resources`, for one scriptlet. The contract claims that the
/// script is a function of the resources that the storage was made from, of the arguments and of
/// the permissions. The engine takes arguments that it has accepted in a rule for granted and
/// fails on others, and it does not come to an end in a circle of aliases: both are left out.
#[verifier::external_body]
fn scriptlet_resources(storage: &ResourceStorage, args: &str, permission: u8) -> (r: String)
    requires
        free_of_circles(held(*storage)),
        args_accepted(args@),
    ensures
        r@ == scriptlet_script(held(*storage), args@, permission),
{
    storage.get_scriptlet_resources([(args, PermissionMask::from_bits(permission))])
}

/// The rule on which the arguments of a scriptlet are tried.
pub open spec fn args_rule(args: Seq<char>) -> Seq<char> {
    "a##+js("@ + args + ")"@
}

/// Is the outcome a cosmetic rule that injects a scriptlet?
pub open spec fn injects(outcome: filters::OutcomeView) -> bool {
    outcome matches filters::OutcomeView::Parsed(filters::ParsedView::Cosmetic(c))
        && c.script_inject
}

/// Does the engine accept the arguments in a scriptlet rule?
pub open spec fn args_accepted(args: Seq<char>) -> bool {
    injects(filters::filter_outcome(args_rule(args), false))
}

/// Is the outcome a cosmetic rule that injects a scriptlet?
pub fn is_injection(outcome: &ParseOutcome) -> (r: bool)
    ensures
        r == injects(outcome@),
{
    match outcome {
        ParseOutcome::Cosmetic {
            hostnames: _,
            entities: _,
            not_hostnames: _,
            not_entities: _,
            script_inject,
        } => *script_inject,
        _ => false,
    }
}

/// Does the engine accept the arguments in a scriptlet rule?
pub fn accepts_args(args: &str) -> (r: bool)
    ensures
        r == args_accepted(args@),
{
    let mut rule: Vec<char> = chars::chars_of("a##+js(");
    chars::append_str(&mut rule, args);
    chars::append_str(&mut rule, ")");
    let rule: String = chars::string_of(rule.as_slice());
    is_injection(&filters::parse_line(rule.as_str(), false))
}

/// What stands between the first `+js(` and the last `)`: nothing if there is no such pair, the
/// empty text if they are in the wrong order.
pub open spec fn args_in(rule: Seq<char>) -> Option<Seq<char>> {
    match (text::find_text(rule, "+js("@), text::rfind(rule, ')')) {
        (Some(i), Some(end)) => {
            let start = i + "+js("@.len();
            Some(
                if end > start {
                    rule.subrange(start, end)
                } else {
                    Seq::empty()
                },
            )
        },
        _ => None,
    }
}

/// The arguments in the text of a scriptlet rule.
pub fn scriptlet_body(rule: &str) -> (r: Option<&str>)
    ensures
        text::of_opt_str(r) == args_in(rule@),
{
    let all: Vec<char> = chars::chars_of(rule);
    let n: usize = all.len();
    let key: Vec<char> = chars::chars_of("+js(");
    match chars::find_text(all.as_slice(), key.as_slice()) {
        Some(i) => match chars::rfind(all.as_slice(), ')') {
            Some(end) => {
                assert(i + key@.len() <= n);
                let start: usize = i + key.len();
                if end > start {
                    Some(rule.substring_char(start, end))
                } else {
                    Some(rule.substring_char(0, 0))
                }
            },
            None => None,
        },
        None => None,
    }
}

/// An ASCII digit.
pub open spec fn digit(c: char) -> bool {
    '0' <= c <= '9'
}

/// A redirect's value without a `:priority`, which is made of digits alone. (The names of
/// `abp-resource:NAME` aliases hold a colon, too.)
pub open spec fn without_priority(value: Seq<char>) -> Seq<char> {
    match text::rfind(value, ':') {
        Some(i) => {
            let tail = value.skip(i + 1);
            if tail.len() > 0 && forall|j: int| 0 <= j < tail.len() ==> digit(#[trigger] tail[j]) {
                value.take(i)
            } else {
                value
            }
        },
        None => value,
    }
}

/// A redirect's value without a `:priority`.
pub fn strip_priority(value: &str) -> (r: &str)
    ensures
        r@ == without_priority(value@),
{
    let all: Vec<char> = chars::chars_of(value);
    match chars::rfind(all.as_slice(), ':') {
        Some(colon) => {
            let n: usize = all.len();
            let ghost tail = value@.skip(colon + 1);
            let mut i: usize = colon + 1;
            while i < n
                invariant
                    colon < i <= n == all@.len(),
                    all@ == value@,
                    text::rfind(value@, ':') == Some(colon as int),
                    tail == value@.skip(colon + 1),
                    forall|j: int| 0 <= j < i - colon - 1 ==> digit(#[trigger] tail[j]),
                decreases n - i,
            {
                assert(tail[i - colon - 1] == all@[i as int]);
                if !('0' <= all[i] && all[i] <= '9') {
                    return value;
                }
                i += 1;
            }
            if colon + 1 == n {
                return value;
            }
            assert(value@.subrange(0, colon as int) == value@.take(colon as int));
            value.substring_char(0, colon)
        },
        None => value,
    }
}

/// The status of a scriptlet rule whose arguments are `args`.
pub open spec fn scriptlet_status(entries: Seq<EntryView>, args: Seq<char>) -> ResourceStatus {
    if scriptlet_script(entries, args, 0).len() > 0 {
        ResourceStatus::Resolved
    } else if scriptlet_script(entries, args, 0xff).len() > 0 {
        ResourceStatus::RequiresPermission
    } else {
        ResourceStatus::Missing
    }
}

/// The status of a redirect rule with the given value: it is looked up as it stands, then without
/// a priority.
pub open spec fn redirect_status(entries: Seq<EntryView>, value: Seq<char>) -> ResourceStatus {
    if redirect_data(entries, value) is Some || redirect_data(
        entries,
        without_priority(value),
    ) is Some {
        ResourceStatus::Resolved
    } else {
        ResourceStatus::Missing
    }
}

/// The status of a rule, by what the engine read in it and by its text.
pub open spec fn status_of(
    entries: Seq<EntryView>,
    parsed: filters::ParsedView,
    rule: Seq<char>,
) -> ResourceStatus {
    match parsed {
        filters::ParsedView::Cosmetic(c) => match args_in(rule) {
            Some(args) => if c.script_inject {
                scriptlet_status(entries, args)
            } else {
                ResourceStatus::NotApplicable
            },
            None => ResourceStatus::NotApplicable,
        },
        filters::ParsedView::Network(n) => match n.modifier_option {
            Some(value) => if n.redirect {
                redirect_status(entries, value)
            } else {
                ResourceStatus::NotApplicable
            },
            None => ResourceStatus::NotApplicable,
        },
    }
}

/// Can the resource of the rule be looked up? Only the arguments of a scriptlet rule can stand in
/// the way, where what its text holds is not what the engine accepted.
pub open spec fn resolvable(parsed: filters::ParsedView, rule: Seq<char>) -> bool {
    parsed matches filters::ParsedView::Cosmetic(c) && c.script_inject ==> (args_in(
        rule,
    ) matches Some(args) ==> args_accepted(args))
}

/// Can the resource of the rule be looked up?
pub fn can_resolve(parsed: &ParsedRule, rule: &str) -> (r: bool)
    ensures
        r == resolvable(parsed@, rule@),
{
    match parsed {
        ParsedRule::Cosmetic(c) => {
            if !c.script_inject {
                return true;
            }
            match scriptlet_body(rule) {
                Some(args) => accepts_args(args),
                None => true,
            }
        },
        ParsedRule::Network(_) => true,
    }
}

/// The status of a scriptlet, given whether it resolves without and with every permission.
pub fn scriptlet_verdict(plain: bool, granted: bool) -> (r: ResourceStatus)
    ensures
        r == (if plain {
            ResourceStatus::Resolved
        } else if granted {
            ResourceStatus::RequiresPermission
        } else {
            ResourceStatus::Missing
        }),
{
    if plain {
        ResourceStatus::Resolved
    } else if granted {
        ResourceStatus::RequiresPermission
    } else {
        ResourceStatus::Missing
    }
}

/// Answers whether the resources of rules resolve.
pub struct ResourceChecker {
    storage: ResourceStorage,
}

impl View for ResourceChecker {
    type V = Seq<EntryView>;

    /// The resources.
    closed spec fn view(&self) -> Seq<EntryView> {
        held(self.storage)
    }
}

/// Does the first entry name an alias of the second as a dependency?
fn names_alias(e: &ResourceEntry, other: &ResourceEntry) -> (r: bool)
    ensures
        r == exists|k: int|
            0 <= k < e@.dependencies.len() && other@.aliases.contains(
                #[trigger] e@.dependencies[k],
            ),
{
    let n: usize = e.dependencies.len();
    let mut i: usize = 0;
    while i < n
        invariant
            i <= n == e.dependencies@.len(),
            forall|k: int| 0 <= k < i ==> !other@.aliases.contains(#[trigger] e@.dependencies[k]),
        decreases n - i,
    {
        assert(e@.dependencies[i as int] == e.dependencies@[i as int]@);
        if chars::holds(&other.aliases, chars::chars_of(e.dependencies[i].as_str()).as_slice()) {
            return true;
        }
        i += 1;
    }
    false
}

/// How many entries are not settled yet.
spec fn unsettled(settled: Seq<bool>) -> nat
    decreases settled.len(),
{
    if settled.len() == 0 {
        0
    } else if settled.last() {
        unsettled(settled.drop_last())
    } else {
        unsettled(settled.drop_last()) + 1
    }
}

proof fn lemma_settle(settled: Seq<bool>, i: int)
    requires
        0 <= i < settled.len(),
        !settled[i],
    ensures
        unsettled(settled.update(i, true)) + 1 == unsettled(settled),
    decreases settled.len(),
{
    let after = settled.update(i, true);
    if i == settled.len() - 1 {
        assert(after.drop_last() =~= settled.drop_last());
    } else {
        lemma_settle(settled.drop_last(), i);
        assert(after.drop_last() =~= settled.drop_last().update(i, true));
    }
}

/// Do the settled entries rank above those that they lean on, and lean on settled ones only?
spec fn settled_well(
    entries: Seq<EntryView>,
    settled: Seq<bool>,
    rank: Seq<nat>,
    next: nat,
) -> bool {
    &&& settled.len() == entries.len()
    &&& rank.len() == entries.len()
    &&& forall|i: int| 0 <= i < settled.len() && settled[i] ==> #[trigger] rank[i] < next
    &&& forall|i: int, j: int|
        0 <= i < entries.len() && 0 <= j < entries.len() && settled[i] && #[trigger] leans_on(
            entries,
            i,
            j,
        ) ==> settled[j] && rank[j] < rank[i]
}

/// Does each unsettled entry before position `n` lean on another?
spec fn stuck(entries: Seq<EntryView>, settled: Seq<bool>, n: int) -> bool {
    forall|i: int|
        0 <= i < n && !(#[trigger] settled[i]) ==> exists|j: int|
            0 <= j < entries.len() && !settled[j] && #[trigger] leans_on(entries, i, j)
}

/// Where each of some entries leans on another of them, they cannot be ranked.
proof fn lemma_stuck(entries: Seq<EntryView>, settled: Seq<bool>, rank: Seq<nat>, i: int)
    requires
        settled.len() == entries.len(),
        stuck(entries, settled, entries.len() as int),
        0 <= i < entries.len(),
        !settled[i],
    ensures
        !ranked(entries, rank),
    decreases rank[i],
{
    if ranked(entries, rank) {
        let j = choose|j: int|
            0 <= j < entries.len() && !settled[j] && #[trigger] leans_on(entries, i, j);
        lemma_stuck(entries, settled, rank, j);
    }
}

/// Does entry `i` lean on none that is unsettled?
fn stands(entries: &Vec<ResourceEntry>, settled: &Vec<bool>, i: usize) -> (r: bool)
    requires
        settled@.len() == entries@.len(),
        i < entries@.len(),
    ensures
        r == !exists|j: int|
            0 <= j < entries@.len() && !settled@[j] && #[trigger] leans_on(
                entries_of(entries@),
                i as int,
                j,
            ),
{
    let ghost all = entries_of(entries@);
    let n: usize = entries.len();
    let mut j: usize = 0;
    while j < n
        invariant
            j <= n == entries@.len() == settled@.len(),
            i < n,
            all == entries_of(entries@),
            forall|k: int| 0 <= k < j && !settled@[k] ==> !#[trigger] leans_on(all, i as int, k),
        decreases n - j,
    {
        assert(all[i as int] == entries@[i as int]@);
        assert(all[j as int] == entries@[j as int]@);
        if !settled[j] && names_alias(&entries[i], &entries[j]) {
            assert(leans_on(all, i as int, j as int));
            return false;
        }
        j += 1;
    }
    true
}

/// Do the entries depend on each other without a circle of aliases? Entries are settled once all
/// that they lean on are; those in a circle, and those above one, never are.
fn no_alias_circle(entries: &Vec<ResourceEntry>) -> (r: bool)
    ensures
        r == free_of_circles(entries_of(entries@)),
{
    let ghost all = entries_of(entries@);
    let n: usize = entries.len();
    let mut settled: Vec<bool> = Vec::new();
    let mut i: usize = 0;
    while i < n
        invariant
            i <= n == entries@.len(),
            settled@.len() == i,
            forall|k: int| 0 <= k < i ==> !settled@[k],
        decreases n - i,
    {
        settled.push(false);
        i += 1;
    }
    let ghost mut rank: Seq<nat> = Seq::new(n as nat, |k: int| 0nat);
    let ghost mut next: nat = 0;
    loop
        invariant
            n == entries@.len() == settled@.len(),
            all == entries_of(entries@),
            settled_well(all, settled@, rank, next),
        decreases unsettled(settled@),
    {
        let ghost start = settled@;
        let mut changed: bool = false;
        let mut i: usize = 0;
        while i < n
            invariant
                i <= n == entries@.len() == settled@.len(),
                all == entries_of(entries@),
                settled_well(all, settled@, rank, next),
                changed ==> unsettled(settled@) < unsettled(start),
                !changed ==> settled@ == start && stuck(all, settled@, i as int),
            decreases n - i,
        {
            if !settled[i] && stands(entries, &settled, i) {
                let ghost before = settled@;
                proof {
                    lemma_settle(settled@, i as int);
                    rank = rank.update(i as int, next);
                    next = next + 1;
                }
                settled.set(i, true);
                changed = true;
                proof {
                    assert forall|a: int, b: int|
                        0 <= a < all.len() && 0 <= b < all.len() && settled@[a]
                            && #[trigger] leans_on(all, a, b) implies settled@[b] && rank[b]
                        < rank[a] by {
                        if a == i {
                            assert(before[b]);
                            assert(b != i);
                        }
                    }
                }
            }
            i += 1;
        }
        if !changed {
            let mut i: usize = 0;
            while i < n
                invariant
                    i <= n == entries@.len() == settled@.len(),
                    all == entries_of(entries@),
                    stuck(all, settled@, n as int),
                    forall|k: int| 0 <= k < i ==> settled@[k],
                decreases n - i,
            {
                if !settled[i] {
                    proof {
                        if free_of_circles(all) {
                            let rank = choose|rank: Seq<nat>| ranked(all, rank);
                            lemma_stuck(all, settled@, rank, i as int);
                        }
                    }
                    return false;
                }
                i += 1;
            }
            assert(ranked(all, rank));
            return true;
        }
    }
}

/// Entries that can be ranked do not lean on each other in a circle.
pub proof fn ranks_leave_no_circle(entries: Seq<EntryView>, path: Seq<int>)
    requires
        free_of_circles(entries),
        path.len() >= 2,
        forall|k: int| 0 <= k < path.len() ==> 0 <= #[trigger] path[k] < entries.len(),
        forall|k: int| 0 <= k < path.len() - 1 ==> leans_on(entries, #[trigger] path[k], path[k + 1]),
    ensures
        path.first() != path.last(),
{
    let rank = choose|rank: Seq<nat>| ranked(entries, rank);
    lemma_ranks_fall(entries, rank, path);
}

proof fn lemma_ranks_fall(entries: Seq<EntryView>, rank: Seq<nat>, path: Seq<int>)
    requires
        ranked(entries, rank),
        path.len() >= 2,
        forall|k: int| 0 <= k < path.len() ==> 0 <= #[trigger] path[k] < entries.len(),
        forall|k: int| 0 <= k < path.len() - 1 ==> leans_on(entries, #[trigger] path[k], path[k + 1]),
    ensures
        rank[path.last()] < rank[path.first()],
    decreases path.len(),
{
    let n = path.len() - 2;
    assert(leans_on(entries, path[n], path[n + 1]));
    if path.len() > 2 {
        let shorter = path.drop_last();
        assert forall|k: int| 0 <= k < shorter.len() - 1 implies leans_on(
            entries,
            #[trigger] shorter[k],
            shorter[k + 1],
        ) by {
            assert(leans_on(entries, path[k], path[k + 1]));
        }
        lemma_ranks_fall(entries, rank, shorter);
    }
}

impl ResourceChecker {
    #[verifier::type_invariant]
    closed spec fn dependencies_end(self) -> bool {
        free_of_circles(held(self.storage))
    }

    /// A checker over the given resources.
    pub fn from_resources(entries: Vec<ResourceEntry>) -> (r: Result<Self, ResourceError>)
        ensures
            (if free_of_circles(entries_of(entries@)) {
                r matches Ok(checker) && checker@ == entries_of(entries@)
            } else {
                r matches Err(e) && e == ResourceError::AliasCircle
            }),
    {
        if !no_alias_circle(&entries) {
            return Err(ResourceError::AliasCircle);
        }
        Ok(ResourceChecker { storage: storage_of(entries) })
    }

    /// A checker over the resources that the program embeds as a JSON list.
    pub fn from_embedded(json: &str) -> (r: Result<Self, ResourceError>)
        ensures
            (match json_resources(json@) {
                Some(entries) => if free_of_circles(entries) {
                    r matches Ok(checker) && checker@ == entries
                } else {
                    r matches Err(e) && e == ResourceError::AliasCircle
                },
                None => r matches Err(e) && e == ResourceError::Malformed,
            }),
    {
        match read_resources(json) {
            Some(entries) => Self::from_resources(entries),
            None => Err(ResourceError::Malformed),
        }
    }

    /// The status of a rule. `rule` is its text; `parsed` is what the engine read in it, by which
    /// scriptlet and redirect rules are told from rules that merely mention `+js(` or
    /// `redirect=`.
    pub fn check_rule(&self, parsed: &ParsedRule, rule: &str) -> (r: ResourceStatus)
        requires
            resolvable(parsed@, rule@),
        ensures
            r == status_of(self@, parsed@, rule@),
    {
        match parsed {
            ParsedRule::Cosmetic(c) => {
                if !c.script_inject {
                    return ResourceStatus::NotApplicable;
                }
                match scriptlet_body(rule) {
                    Some(args) => self.check_scriptlet(args),
                    None => ResourceStatus::NotApplicable,
                }
            },
            ParsedRule::Network(n) => {
                if !n.redirect {
                    return ResourceStatus::NotApplicable;
                }
                match &n.modifier_option {
                    Some(value) => self.check_redirect(value.as_str()),
                    None => ResourceStatus::NotApplicable,
                }
            },
        }
    }

    /// The status of a redirect to `value`.
    fn check_redirect(&self, value: &str) -> (r: ResourceStatus)
        ensures
            r == redirect_status(self@, value@),
    {
        if redirect_resource(&self.storage, value).is_some() || redirect_resource(
            &self.storage,
            strip_priority(value),
        ).is_some() {
            ResourceStatus::Resolved
        } else {
            ResourceStatus::Missing
        }
    }

    /// The status of a scriptlet with the arguments `args`: the engine gives an empty script for
    /// one that it cannot resolve.
    fn check_scriptlet(&self, args: &str) -> (r: ResourceStatus)
        requires
            args_accepted(args@),
        ensures
            r == scriptlet_status(self@, args@),
    {
        proof {
            use_type_invariant(self);
        }
        let plain: bool = !scriptlet_resources(&self.storage, args, 0).as_str().is_empty();
        let granted: bool = plain || !scriptlet_resources(
            &self.storage,
            args,
            0xff,
        ).as_str().is_empty();
        scriptlet_verdict(plain, granted)
    }
}

/// Only a rule that the engine reads as a scriptlet or as a redirect needs a resource, whatever
/// its text mentions.
pub proof fn other_rules_need_no_resource(
    entries: Seq<EntryView>,
    parsed: filters::ParsedView,
    rule: Seq<char>,
)
    requires
        match parsed {
            filters::ParsedView::Cosmetic(c) => !c.script_inject,
            filters::ParsedView::Network(n) => !n.redirect,
        },
    ensures
        status_of(entries, parsed, rule) == ResourceStatus::NotApplicable,
{
}

/// A redirect that resolves under its name also resolves with a priority behind it.
pub proof fn priorities_do_not_count(entries: Seq<EntryView>, name: Seq<char>, priority: Seq<char>)
    requires
        priority.len() > 0,
        forall|j: int| 0 <= j < priority.len() ==> digit(#[trigger] priority[j]),
    ensures
        without_priority(name + seq![':'] + priority) == name,
        redirect_data(entries, name) is Some ==> redirect_status(
            entries,
            name + seq![':'] + priority,
        ) == ResourceStatus::Resolved,
{
    let value = name + seq![':'] + priority;
    lemma_rfind(name, priority);
    assert(value.skip((name.len() + 1) as int) =~= priority);
    assert(value.take(name.len() as int) =~= name);
}

proof fn lemma_rfind(name: Seq<char>, priority: Seq<char>)
    requires
        forall|j: int| 0 <= j < priority.len() ==> digit(#[trigger] priority[j]),
    ensures
        text::rfind(name + seq![':'] + priority, ':') == Some(name.len() as int),
    decreases priority.len(),
{
    let value = name + seq![':'] + priority;
    if priority.len() == 0 {
        assert(value.last() == ':');
    } else {
        assert(value.last() == priority.last());
        assert(digit(priority[priority.len() - 1]));
        assert(value.drop_last() == name + seq![':'] + priority.drop_last());
        lemma_rfind(name, priority.drop_last());
    }
}

/// A value whose last part is not a number is looked up as it stands, colons and all.
pub proof fn names_keep_their_colons(name: Seq<char>, i: int)
    requires
        text::rfind(name, ':') == Some(i),
        i + 1 == name.len() || exists|j: int| i < j < name.len() && !digit(#[trigger] name[j]),
    ensures
        without_priority(name) == name,
{
    if i + 1 < name.len() {
        let j = choose|j: int| i < j < name.len() && !digit(#[trigger] name[j]);
        lemma_rfind_range(name, ':');
        assert(name.skip(i + 1)[j - i - 1] == name[j]);
    }
}

proof fn lemma_rfind_range(s: Seq<char>, c: char)
    ensures
        text::rfind(s, c) matches Some(i) ==> 0 <= i < s.len() && s[i] == c,
    decreases s.len(),
{
    if s.len() > 0 && s.last() != c {
        lemma_rfind_range(s.drop_last(), c);
    }
}

/// The arguments that are read off a scriptlet rule are those that were written between the
/// parentheses.
pub proof fn arguments_are_read_back(scope: Seq<char>, args: Seq<char>)
    requires
        !text::occurs(scope, "+js("@),
    ensures
        args_in(scope + "+js("@ + args + seq![')']) == Some(args),
{
    let rule = scope + "+js("@ + args + seq![')'];
    arguments_reach_to_the_last_bracket(scope, args, Seq::empty(), rule);
    assert(rule + Seq::<char>::empty() =~= rule);
}

/// A redirect resolves exactly if the resources have data for its value as it stands, or for what
/// stands before a colon and digits at the value's end; otherwise its resource is missing.
pub proof fn redirects_resolve_by_their_name(
    entries: Seq<EntryView>,
    n: filters::NetworkView,
    rule: Seq<char>,
    value: Seq<char>,
)
    requires
        n.redirect,
        n.modifier_option == Some(value),
    ensures
        ({
            let status = status_of(entries, filters::ParsedView::Network(n), rule);
            let numbered = exists|name: Seq<char>, priority: Seq<char>|
                #![trigger name + seq![':'] + priority]
                value == name + seq![':'] + priority && priority.len() > 0 && (forall|j: int|
                    0 <= j < priority.len() ==> '0' <= #[trigger] priority[j] <= '9')
                    && redirect_data(entries, name) is Some;
            &&& status == ResourceStatus::Resolved <==> redirect_data(entries, value) is Some
                || numbered
            &&& status == ResourceStatus::Missing <==> redirect_data(entries, value) is None
                && !numbered
        }),
{
    text::the_last_position_is_the_last(value, ':');
    if without_priority(value) != value {
        let i = text::rfind(value, ':')->0;
        let name = value.take(i);
        let priority = value.skip(i + 1);
        assert(value =~= name + seq![':'] + priority);
        assert forall|j: int| 0 <= j < priority.len() implies '0' <= #[trigger] priority[j]
            <= '9' by {
            assert(digit(priority[j]));
        }
        assert(without_priority(value) == name);
    }
    assert forall|name: Seq<char>, priority: Seq<char>|
        #![trigger name + seq![':'] + priority]
        value == name + seq![':'] + priority && priority.len() > 0 && (forall|j: int|
            0 <= j < priority.len() ==> '0' <= #[trigger] priority[j] <= '9') implies name
        == without_priority(value) by {
        assert forall|j: int| 0 <= j < priority.len() implies digit(#[trigger] priority[j]) by {}
        priorities_do_not_count(entries, name, priority);
    }
}

/// A name with a priority behind it is missing if the resources have data neither for the whole
/// nor for the name, and resolves otherwise.
pub proof fn priorities_make_no_resource(
    entries: Seq<EntryView>,
    n: filters::NetworkView,
    rule: Seq<char>,
    name: Seq<char>,
    priority: Seq<char>,
)
    requires
        n.redirect,
        n.modifier_option == Some(name + seq![':'] + priority),
        priority.len() > 0,
        forall|j: int| 0 <= j < priority.len() ==> '0' <= #[trigger] priority[j] <= '9',
    ensures
        status_of(entries, filters::ParsedView::Network(n), rule) == (if redirect_data(
            entries,
            name + seq![':'] + priority,
        ) is Some || redirect_data(entries, name) is Some {
            ResourceStatus::Resolved
        } else {
            ResourceStatus::Missing
        }),
{
    assert forall|j: int| 0 <= j < priority.len() implies digit(#[trigger] priority[j]) by {}
    priorities_do_not_count(entries, name, priority);
}

/// A scriptlet resolves exactly if its arguments give a script without any permission, and
/// requires permission exactly if they give one only with every permission; otherwise it is
/// missing. Without arguments in its text there is nothing to resolve, and neither is there for a
/// redirect without a value.
pub proof fn scriptlets_resolve_by_their_permission(
    entries: Seq<EntryView>,
    c: filters::CosmeticView,
    n: filters::NetworkView,
    rule: Seq<char>,
)
    requires
        c.script_inject,
        n.modifier_option is None,
    ensures
        ({
            let status = status_of(entries, filters::ParsedView::Cosmetic(c), rule);
            &&& args_in(rule) matches Some(args) ==> ({
                let plain = scriptlet_script(entries, args, 0) != Seq::<char>::empty();
                let granted = scriptlet_script(entries, args, 255) != Seq::<char>::empty();
                &&& status == ResourceStatus::Resolved <==> plain
                &&& status == ResourceStatus::RequiresPermission <==> !plain && granted
                &&& status == ResourceStatus::Missing <==> !plain && !granted
            })
            &&& args_in(rule) is None ==> status == ResourceStatus::NotApplicable
        }),
        status_of(entries, filters::ParsedView::Network(n), rule) == ResourceStatus::NotApplicable,
{
    if let Some(args) = args_in(rule) {
        let plain = scriptlet_script(entries, args, 0);
        let granted = scriptlet_script(entries, args, 255);
        assert(plain.len() == 0 ==> plain =~= Seq::<char>::empty());
        assert(granted.len() == 0 ==> granted =~= Seq::<char>::empty());
    }
}

/// The arguments of a scriptlet rule reach from its first `+js(` to its last `)`, whatever stands
/// around them; they are empty if none stands behind that opening, and there are none without
/// both.
pub proof fn arguments_reach_to_the_last_bracket(
    scope: Seq<char>,
    args: Seq<char>,
    tail: Seq<char>,
    rule: Seq<char>,
)
    requires
        !text::occurs(scope, "+js("@),
        !tail.contains(')'),
    ensures
        args_in(scope + "+js("@ + args + seq![')'] + tail) == Some(args),
        scope.contains(')') ==> args_in(scope + "+js("@ + tail) == Some(Seq::<char>::empty()),
        args_in(rule) is None <==> !text::occurs(rule, "+js("@) || !rule.contains(')'),
{
    let key = "+js("@;
    reveal_strlit("+js(");
    let whole = scope + key + args + seq![')'] + tail;
    lemma_first_key(scope, args + seq![')'] + tail);
    assert(whole =~= scope + key + (args + seq![')'] + tail));
    let end = scope.len() + 4 + args.len();
    text::the_last_position_is_the_last(whole, ')');
    assert(whole[end as int] == ')');
    assert forall|k: int| end < k < whole.len() implies whole[k] != ')' by {
        assert(tail.contains(tail[k - end - 1]));
    }
    assert(text::rfind(whole, ')') == Some(end as int));
    assert(whole.subrange(scope.len() + 4 as int, end as int) =~= args);
    assert(args_in(whole)->0 =~= args);

    let open = scope + key + tail;
    lemma_first_key(scope, tail);
    text::the_last_position_is_the_last(open, ')');
    if scope.contains(')') {
        let k = choose|k: int| 0 <= k < scope.len() && scope[k] == ')';
        assert(open[k] == ')');
        assert(open.contains(')'));
        let last = text::rfind(open, ')')->0;
        assert(last < scope.len() + 4) by {
            if last >= scope.len() + 4 {
                assert(tail.contains(tail[last - scope.len() - 4]));
            }
        }
    }
    text::lemma_find_text(rule, key);
    text::the_last_position_is_the_last(rule, ')');
}

/// Behind a scope that does not hold it, the opening is the first.
proof fn lemma_first_key(scope: Seq<char>, more: Seq<char>)
    requires
        !text::occurs(scope, "+js("@),
    ensures
        text::find_text(scope + "+js("@ + more, "+js("@) == Some(scope.len() as int),
{
    let key = "+js("@;
    reveal_strlit("+js(");
    let rule = scope + key + more;
    text::lemma_find_text(rule, key);
    assert(rule.subrange(scope.len() as int, (scope.len() + 4) as int) =~= key);
    assert(text::occurs_at(rule, key, scope.len() as int));
    assert forall|j: int| 0 <= j < scope.len() implies !text::occurs_at(rule, key, j) by {
        if text::occurs_at(rule, key, j) {
            let found = rule.subrange(j, j + 4);
            if j + 4 <= scope.len() {
                assert(scope.subrange(j, j + 4) =~= found);
                assert(text::occurs_at(scope, key, j));
            } else {
                let k = scope.len() - j;
                assert(found[k] == rule[scope.len() as int]);
                assert(rule[scope.len() as int] == key[0]);
                assert(found[k] == key[k]);
            }
        }
    }
}

/// A resource cannot be looked up exactly if the rule injects a scriptlet with arguments that,
/// behind `a##`, do not make a rule that the engine reads as a scriptlet.
pub proof fn only_arguments_stand_in_the_way(
    c: filters::CosmeticView,
    n: filters::NetworkView,
    rule: Seq<char>,
    args: Seq<char>,
)
    ensures
        resolvable(filters::ParsedView::Network(n), rule),
        !c.script_inject || args_in(rule) is None ==> resolvable(
            filters::ParsedView::Cosmetic(c),
            rule,
        ),
        c.script_inject && args_in(rule) == Some(args) ==> (resolvable(
            filters::ParsedView::Cosmetic(c),
            rule,
        ) <==> (filters::filter_outcome(
            "a##+js("@ + args + ")"@,
            false,
        ) matches filters::OutcomeView::Parsed(filters::ParsedView::Cosmetic(d))
            && d.script_inject)),
{
}

/// Resources that name each other's aliases in a circle are refused, however long it is; and where
/// each can be ranked above all those whose aliases it names, they are not.
pub proof fn circles_are_made_of_aliases(
    entries: Seq<EntryView>,
    path: Seq<int>,
    rank: Seq<nat>,
)
    ensures
        path.len() >= 2 && path.first() == path.last() && (forall|k: int|
            0 <= k < path.len() ==> 0 <= #[trigger] path[k] < entries.len()) && (forall|k: int|
            #![trigger path[k]]
            0 <= k < path.len() - 1 ==> exists|d: Seq<char>| #[trigger]
                entries[path[k]].dependencies.contains(d) && entries[path[k
                    + 1]].aliases.contains(d)) ==> !free_of_circles(entries),
        rank.len() == entries.len() && (forall|i: int, j: int, d: Seq<char>|
            0 <= i < entries.len() && 0 <= j < entries.len()
                && #[trigger] entries[i].dependencies.contains(d)
                && #[trigger] entries[j].aliases.contains(d) ==> rank[j] < rank[i])
            ==> free_of_circles(entries),
{
    if path.len() >= 2 && path.first() == path.last() && (forall|k: int|
        0 <= k < path.len() ==> 0 <= #[trigger] path[k] < entries.len()) && (forall|k: int|
        #![trigger path[k]]
        0 <= k < path.len() - 1 ==> exists|d: Seq<char>| #[trigger]
            entries[path[k]].dependencies.contains(d) && entries[path[k + 1]].aliases.contains(d))
        && free_of_circles(entries) {
        assert forall|k: int| 0 <= k < path.len() - 1 implies leans_on(
            entries,
            #[trigger] path[k],
            path[k + 1],
        ) by {
            let d = choose|d: Seq<char>| #[trigger]
                entries[path[k]].dependencies.contains(d) && entries[path[k
                    + 1]].aliases.contains(d);
            let m = choose|m: int|
                0 <= m < entries[path[k]].dependencies.len() && entries[path[k]].dependencies[m]
                    == d;
            assert(entries[path[k + 1]].aliases.contains(entries[path[k]].dependencies[m]));
        }
        ranks_leave_no_circle(entries, path);
    }
    if rank.len() == entries.len() && (forall|i: int, j: int, d: Seq<char>|
        0 <= i < entries.len() && 0 <= j < entries.len()
            && #[trigger] entries[i].dependencies.contains(d)
            && #[trigger] entries[j].aliases.contains(d) ==> rank[j] < rank[i]) {
        assert forall|i: int, j: int|
            0 <= i < entries.len() && 0 <= j < entries.len() && #[trigger] leans_on(
                entries,
                i,
                j,
            ) implies rank[j] < rank[i] by {
            let m = choose|m: int|
                0 <= m < entries[i].dependencies.len() && entries[j].aliases.contains(
                    #[trigger] entries[i].dependencies[m],
                );
            assert(entries[i].dependencies.contains(entries[i].dependencies[m]));
        }
        assert(ranked(entries, rank));
    }
}

/// A checker is made of resources exactly if they are free of circles, and then holds them as they
/// are; from a text, exactly if it lists such resources, and the error says which of the two is
/// wrong.
pub proof fn checkers_hold_what_they_are_made_of(
    entries: Vec<ResourceEntry>,
    json: &str,
    a: Result<ResourceChecker, ResourceError>,
    b: Result<ResourceChecker, ResourceError>,
)
    requires
        call_ensures(ResourceChecker::from_resources, (entries,), a),
        call_ensures(ResourceChecker::from_embedded, (json,), b),
    ensures
        a is Ok <==> free_of_circles(entries_of(entries@)),
        a matches Ok(checker) ==> checker@ == entries_of(entries@),
        a matches Err(e) ==> e == ResourceError::AliasCircle,
        json_resources(json@) is None <==> b == Err::<ResourceChecker, ResourceError>(
            ResourceError::Malformed,
        ),
        json_resources(json@) == Some(entries_of(entries@)) ==> (match b {
            Ok(checker) => a is Ok && checker@ == entries_of(entries@),
            Err(e) => a is Err && e == ResourceError::AliasCircle,
        }),
{
}

/// The text of a network rule does not count: two rules that the engine read alike have the same
/// status, which for a redirect is resolved if there is data for its value as it stands.
pub proof fn redirects_do_not_hang_on_the_rule(
    checker: &ResourceChecker,
    f: &ParsedRule,
    rule: &str,
    other: &str,
    a: ResourceStatus,
    b: ResourceStatus,
)
    requires
        call_ensures(ResourceChecker::check_rule, (checker, f, rule), a),
        call_ensures(ResourceChecker::check_rule, (checker, f, other), b),
        f@ is Network,
    ensures
        a == b,
        f@->Network_0.redirect && f@->Network_0.modifier_option is Some ==> (a
            == ResourceStatus::Resolved || a == ResourceStatus::Missing) && (redirect_data(
            checker@,
            f@->Network_0.modifier_option->0,
        ) is Some ==> a == ResourceStatus::Resolved),
        !f@->Network_0.redirect ==> a == ResourceStatus::NotApplicable,
{
    let n = f@->Network_0;
    if n.redirect && n.modifier_option is Some {
        redirects_resolve_by_their_name(checker@, n, rule@, n.modifier_option->0);
    }
}

} // verus!
