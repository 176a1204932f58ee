//! Validation of full-regex network rules (`/pattern/`) against the `regex` crate, which the
//! engine compiles them with.
//!
//! The engine parses regex rules without compiling the pattern: that happens lazily, when a
//! request is matched, and a rule whose pattern fails to compile then silently never matches.
//! Such rules parse cleanly and would look supported although they can never block anything.
//! Here the pattern is compiled eagerly, in the same way, so a failure is exactly what the engine
//! would meet.
//!
//! Whether a pattern compiles and which syntax is to blame are separate questions: the `regex`
//! crate reports that a pattern is unsupported, not which feature caused it, so the pattern is
//! scanned for the known constructs.

use vstd::prelude::*;
use vstd::slice::slice_subrange;

use crate::chars;
use crate::filters;
use crate::filters::NetworkRule;
use crate::text;

verus! {

/// What starts the reason for a rule whose regex cannot compile ("unsupported regex (...)"), so
/// that reports can count such rules by it.
pub const REASON_PREFIX: &'static str = "unsupported regex";

/// The label for a pattern that fails to compile without a known feature in it.
pub const OTHER: &'static str = "unsupported syntax";

/// The outcome of checking a regex source against the `regex` crate.
pub struct RegexCheck {
    /// Can the engine compile the rule, and so ever match it?
    pub supported: bool,
    /// Where it cannot: the unsupported features in the pattern, such as `"lookahead"`, or a label
    /// for any other cause.
    pub features: Vec<&'static str>,
}

/// The regex source of a complete-regex rule: its pattern without the slashes around it.
pub open spec fn source_of(f: filters::NetworkView) -> Option<Seq<char>> {
    match f.pattern {
        Some(p) => if f.complete_regex && p.len() >= 2 && p.first() == '/' && p.last() == '/' {
            Some(p.subrange(1, p.len() - 1))
        } else {
            None
        },
        None => None,
    }
}

/// The regex source of a complete-regex network rule (`/pattern/`), as the engine would compile
/// it. `None` for other rules: the engine escapes their patterns before it converts them, so they
/// can never fail to compile.
pub fn regex_source(rule: &NetworkRule) -> (r: Option<String>)
    ensures
        text::of_opt_string(r) == source_of(rule@),
{
    if !rule.complete_regex {
        return None;
    }
    match &rule.pattern {
        Some(pattern) => {
            let p: Vec<char> = chars::chars_of(pattern.as_str());
            let n: usize = p.len();
            if n < 2 || p[0] != '/' || p[n - 1] != '/' {
                return None;
            }
            Some(chars::string_of(slice_subrange(p.as_slice(), 1, n - 1)))
        },
        None => None,
    }
}

/// Does the `regex` crate build a byte regex from the pattern?
pub uninterp spec fn bytes_regex_builds(pattern: Seq<char>, unicode: bool) -> bool;

/// `regex::bytes::RegexBuilder`: makes a builder for the pattern, sets its Unicode mode, and
/// builds. The contract claims that whether this succeeds is a function of the pattern and of the
/// mode, on a given target; it says nothing else of which patterns build. (The size limit that
/// the crate puts on what it compiles counts bytes, so it can fall otherwise on a target with
/// another pointer width.)
#[verifier::external_body]
fn bytes_regex_compiles(pattern: &str, unicode: bool) -> (r: bool)
    ensures
        r == bytes_regex_builds(pattern@, unicode),
{
    regex::bytes::RegexBuilder::new(pattern).unicode(unicode).build().is_ok()
}

/// The pattern as the engine compiles it: `\/` and `\:` lose their backslash.
pub open spec fn unescaped(pattern: Seq<char>) -> Seq<char> {
    text::replace(
        text::replace(pattern, seq!['\\', '/'], seq!['/']),
        seq!['\\', ':'],
        seq![':'],
    )
}

/// The look-around that a parenthesis at the start of `s` opens.
pub open spec fn group_feature(s: Seq<char>) -> Option<Seq<char>> {
    if text::starts_with(s, seq!['(', '?', '<', '=']) {
        Some("lookbehind"@)
    } else if text::starts_with(s, seq!['(', '?', '<', '!']) {
        Some("negative lookbehind"@)
    } else if text::starts_with(s, seq!['(', '?', '=']) {
        Some("lookahead"@)
    } else if text::starts_with(s, seq!['(', '?', '!']) {
        Some("negative lookahead"@)
    } else {
        None
    }
}

/// Does a backslash at the start of `s` make a backreference?
pub open spec fn back_reference(s: Seq<char>) -> bool {
    s.len() >= 2 && s.first() == '\\' && '1' <= s[1] <= '9'
}

/// The unsupported features that stand in `s`, in order and as often as they stand there, where
/// `in_class` says whether `s` starts inside a character class. An escaped character is passed
/// over with its backslash.
pub open spec fn features_in(s: Seq<char>, in_class: bool) -> Seq<Seq<char>>
    decreases s.len(),
{
    if s.len() == 0 {
        Seq::empty()
    } else if s.first() == '\\' {
        (if !in_class && back_reference(s) {
            seq!["backreference"@]
        } else {
            Seq::empty()
        }) + features_in(s.skip(if s.len() >= 2 { 2 } else { 1 }), in_class)
    } else if s.first() == '[' {
        features_in(s.skip(1), true)
    } else if s.first() == ']' {
        features_in(s.skip(1), false)
    } else if s.first() == '(' && !in_class {
        (match group_feature(s) {
            Some(f) => seq![f],
            None => Seq::empty(),
        }) + features_in(s.skip(1), in_class)
    } else {
        features_in(s.skip(1), in_class)
    }
}

/// The unsupported features of a pattern, each once, in the order of their first occurrence.
pub open spec fn features_of(pattern: Seq<char>) -> Seq<Seq<char>> {
    text::distinct(features_in(pattern, false))
}

/// What is to blame for a pattern that does not compile.
pub open spec fn blamed(pattern: Seq<char>) -> Seq<Seq<char>> {
    if features_of(pattern).len() == 0 {
        seq![OTHER@]
    } else {
        features_of(pattern)
    }
}

/// The check of a pattern, given whether it compiles.
pub fn classify(pattern: &str, compiles: bool) -> (r: RegexCheck)
    ensures
        r.supported == compiles,
        text::of_strs(r.features@) == (if compiles {
            Seq::empty()
        } else {
            blamed(pattern@)
        }),
{
    if compiles {
        let features: Vec<&'static str> = Vec::new();
        assert(text::of_strs(features@) == Seq::<Seq<char>>::empty());
        RegexCheck { supported: true, features }
    } else {
        let mut features: Vec<&'static str> = unsupported_features(pattern);
        assert(text::of_strs(features@).len() == features@.len());
        if features.len() == 0 {
            features.push(OTHER);
            assert(text::of_strs(features@) == seq![OTHER@]);
        }
        RegexCheck { supported: false, features }
    }
}

/// Checks a regex source (the pattern between the slashes) in the way the engine compiles it:
/// `\/` and `\:` are unescaped, then a byte regex is built with Unicode mode off. A failure means
/// that the engine would silently never match the rule.
pub fn check(pattern: &str) -> (r: RegexCheck)
    ensures
        r.supported == bytes_regex_builds(unescaped(pattern@), false),
        text::of_strs(r.features@) == (if r.supported {
            Seq::empty()
        } else {
            blamed(pattern@)
        }),
{
    let p: Vec<char> = chars::chars_of(pattern);
    let slash: Vec<char> = chars::chars_of("\\/");
    let colon: Vec<char> = chars::chars_of("\\:");
    proof {
        reveal_strlit("\\/");
        reveal_strlit("\\:");
        reveal_strlit("/");
        reveal_strlit(":");
        assert("\\/"@ == seq!['\\', '/']);
        assert("\\:"@ == seq!['\\', ':']);
        assert("/"@ == seq!['/']);
        assert(":"@ == seq![':']);
    }
    let once: Vec<char> = chars::replace(
        p.as_slice(),
        slash.as_slice(),
        chars::chars_of("/").as_slice(),
    );
    let twice: Vec<char> = chars::replace(
        once.as_slice(),
        colon.as_slice(),
        chars::chars_of(":").as_slice(),
    );
    let source: String = chars::string_of(twice.as_slice());
    classify(pattern, bytes_regex_compiles(source.as_str(), false))
}

/// The syntax features in the pattern that the `regex` crate does not support: look-arounds
/// (`(?=`, `(?!`, `(?<=`, `(?<!`) and backreferences (`\1` to `\9`). What stands in a character
/// class or is escaped, as in `[(?=)]` and `\\1`, does not count; nor do named groups
/// (`(?<name>...)`), which are supported.
pub fn unsupported_features(pattern: &str) -> (r: Vec<&'static str>)
    ensures
        text::of_strs(r@) == features_of(pattern@),
{
    let mut features: Vec<&'static str> = Vec::new();
    let all: Vec<char> = chars::chars_of(pattern);
    let p: &[char] = all.as_slice();
    let n: usize = p.len();
    let mut in_class: bool = false;
    let mut i: usize = 0;
    let ghost mut seen: Seq<Seq<char>> = Seq::empty();
    assert(p@.skip(0) == p@);
    assert(text::of_strs(features@) == text::distinct(seen));
    assert(seen + features_in(p@, false) == features_in(p@, false));
    while i < n
        invariant
            i <= n == p@.len(),
            text::of_strs(features@) == text::distinct(seen),
            features_in(p@, false) == seen + features_in(p@.skip(i as int), in_class),
        decreases n - i,
    {
        let ghost rest = p@.skip(i as int);
        let ghost before = seen;
        let c: char = p[i];
        assert(rest.first() == c);
        assert(rest.skip(1) == p@.skip(i + 1));
        if c == '\\' {
            if i + 1 < n {
                assert(rest.skip(2) == p@.skip(i + 2));
                assert(rest[1] == p@[i + 1]);
                let next: char = p[i + 1];
                if !in_class && '1' <= next && next <= '9' {
                    push_once(&mut features, "backreference");
                    proof {
                        seen = seen.push("backreference"@);
                        assert(seen.drop_last() == before);
                        assert(before + (seq!["backreference"@] + features_in(
                            p@.skip(i + 2),
                            in_class,
                        )) == seen + features_in(p@.skip(i + 2), in_class));
                    }
                } else {
                    assert(Seq::<Seq<char>>::empty() + features_in(p@.skip(i + 2), in_class)
                        == features_in(p@.skip(i + 2), in_class));
                }
                i += 2;
            } else {
                assert(Seq::<Seq<char>>::empty() + features_in(p@.skip(i + 1), in_class)
                    == features_in(p@.skip(i + 1), in_class));
                i += 1;
            }
        } else if c == '[' {
            in_class = true;
            i += 1;
        } else if c == ']' {
            in_class = false;
            i += 1;
        } else if c == '(' && !in_class {
            let found: Option<&'static str> = lookaround(slice_subrange(p, i, n));
            assert(p@.subrange(i as int, n as int) == rest);
            assert(Seq::<Seq<char>>::empty() + features_in(p@.skip(i + 1), in_class)
                == features_in(p@.skip(i + 1), in_class));
            match found {
                Some(f) => {
                    push_once(&mut features, f);
                    proof {
                        seen = seen.push(f@);
                        assert(seen.drop_last() == before);
                        assert(before + (seq![f@] + features_in(p@.skip(i + 1), in_class)) == seen
                            + features_in(p@.skip(i + 1), in_class));
                    }
                },
                None => {},
            }
            i += 1;
        } else {
            i += 1;
        }
    }
    assert(p@.skip(n as int).len() == 0);
    assert(seen + features_in(p@.skip(n as int), in_class) == seen);
    features
}

/// The look-around that a parenthesis at the start of `s` opens.
fn lookaround(s: &[char]) -> (r: Option<&'static str>)
    ensures
        text::of_opt_str(r) == group_feature(s@),
{
    proof {
        reveal_strlit("(?<=");
        reveal_strlit("(?<!");
        reveal_strlit("(?=");
        reveal_strlit("(?!");
        assert("(?<="@ == seq!['(', '?', '<', '=']);
        assert("(?<!"@ == seq!['(', '?', '<', '!']);
        assert("(?="@ == seq!['(', '?', '=']);
        assert("(?!"@ == seq!['(', '?', '!']);
    }
    if chars::starts_with(s, chars::chars_of("(?<=").as_slice()) {
        Some("lookbehind")
    } else if chars::starts_with(s, chars::chars_of("(?<!").as_slice()) {
        Some("negative lookbehind")
    } else if chars::starts_with(s, chars::chars_of("(?=").as_slice()) {
        Some("lookahead")
    } else if chars::starts_with(s, chars::chars_of("(?!").as_slice()) {
        Some("negative lookahead")
    } else {
        None
    }
}

/// Puts `feature` behind the features, unless it is among them.
pub fn push_once(features: &mut Vec<&'static str>, feature: &'static str)
    ensures
        text::of_strs(final(features)@) == (if text::of_strs(old(features)@).contains(feature@) {
            text::of_strs(old(features)@)
        } else {
            text::of_strs(old(features)@).push(feature@)
        }),
{
    let n: usize = features.len();
    let ghost names = text::of_strs(features@);
    let mut i: usize = 0;
    while i < n
        invariant
            i <= n == features@.len(),
            features@ == old(features)@,
            names == text::of_strs(features@),
            forall|j: int| 0 <= j < i ==> names[j] != feature@,
        decreases n - i,
    {
        assert(names[i as int] == features@[i as int]@);
        if chars::same_str(features[i], feature) {
            return;
        }
        i += 1;
    }
    features.push(feature);
    assert(text::of_strs(features@) == names.push(feature@));
}

/// What is to blame for a pattern is never nothing, and is named once.
pub proof fn something_is_to_blame(pattern: Seq<char>)
    ensures
        blamed(pattern).len() > 0,
        blamed(pattern).no_duplicates(),
{
    text::lemma_distinct(features_in(pattern, false));
}

/// The features that can be found.
pub open spec fn feature_names() -> Seq<Seq<char>> {
    seq![
        "lookbehind"@,
        "negative lookbehind"@,
        "lookahead"@,
        "negative lookahead"@,
        "backreference"@,
    ]
}

proof fn lemma_features_in(s: Seq<char>, in_class: bool, f: Seq<char>)
    requires
        features_in(s, in_class).contains(f),
    ensures
        feature_names().contains(f),
    decreases s.len(),
{
    let names = feature_names();
    assert(names[0] == "lookbehind"@ && names[1] == "negative lookbehind"@ && names[2]
        == "lookahead"@ && names[3] == "negative lookahead"@ && names[4] == "backreference"@);
    if s.len() > 0 {
        let all = features_in(s, in_class);
        let k = choose|k: int| 0 <= k < all.len() && all[k] == f;
        if s.first() == '\\' {
            let rest = s.skip(if s.len() >= 2 { 2 } else { 1 });
            let tail = features_in(rest, in_class);
            let head = all.len() - tail.len();
            if k >= head {
                assert(tail[k - head] == f);
                lemma_features_in(rest, in_class, f);
            }
        } else if s.first() == '[' {
            lemma_features_in(s.skip(1), true, f);
        } else if s.first() == ']' {
            lemma_features_in(s.skip(1), false, f);
        } else if s.first() == '(' && !in_class {
            let tail = features_in(s.skip(1), in_class);
            let head = all.len() - tail.len();
            if k >= head {
                assert(tail[k - head] == f);
                lemma_features_in(s.skip(1), in_class, f);
            }
        } else {
            lemma_features_in(s.skip(1), in_class, f);
        }
    }
}

/// Only known features are found in a pattern.
pub proof fn features_are_known(pattern: Seq<char>, f: Seq<char>)
    requires
        features_of(pattern).contains(f),
    ensures
        feature_names().contains(f),
{
    text::lemma_distinct(features_in(pattern, false));
    lemma_features_in(pattern, false, f);
}

proof fn lemma_inside_class(inside: Seq<char>, rest: Seq<char>)
    requires
        !inside.contains('\\'),
        !inside.contains(']'),
    ensures
        features_in(inside + seq![']'] + rest, true) == features_in(rest, false),
    decreases inside.len(),
{
    let s = inside + seq![']'] + rest;
    if inside.len() == 0 {
        assert(s.first() == ']');
        assert(s.skip(1) == rest);
    } else {
        assert(s.first() == inside[0]);
        assert(inside.contains(inside[0]));
        let shorter = inside.skip(1);
        assert forall|c: char| !inside.contains(c) implies !shorter.contains(c) by {
            if shorter.contains(c) {
                let k = choose|k: int| 0 <= k < shorter.len() && shorter[k] == c;
                assert(inside[k + 1] == c);
            }
        }
        lemma_inside_class(shorter, rest);
        assert(s.skip(1) == shorter + seq![']'] + rest);
    }
}

/// What stands in a character class is no feature.
pub proof fn classes_hold_no_features(inside: Seq<char>, rest: Seq<char>)
    requires
        !inside.contains('\\'),
        !inside.contains(']'),
    ensures
        features_in(seq!['['] + inside + seq![']'] + rest, false) == features_in(rest, false),
{
    let s = seq!['['] + inside + seq![']'] + rest;
    assert(s.first() == '[');
    assert(s.skip(1) == inside + seq![']'] + rest);
    lemma_inside_class(inside, rest);
}

/// An escaped character is no feature, unless it is a digit that refers back.
pub proof fn escapes_are_passed_over(c: char, rest: Seq<char>, in_class: bool)
    requires
        in_class || !('1' <= c <= '9'),
    ensures
        features_in(seq!['\\', c] + rest, in_class) == features_in(rest, in_class),
{
    let s = seq!['\\', c] + rest;
    assert(s.first() == '\\' && s[1] == c);
    assert(s.skip(2) == rest);
    assert(Seq::<Seq<char>>::empty() + features_in(rest, in_class) == features_in(
        rest,
        in_class,
    ));
}

/// A rule has a regex source exactly if the engine took it for a complete regex and its pattern
/// stands between two slashes; the source then is what stands between them.
pub proof fn sources_stand_between_slashes(f: filters::NetworkView, source: Seq<char>)
    ensures
        source_of(f) == Some(source) <==> f.complete_regex && f.pattern == Some(
            seq!['/'] + source + seq!['/'],
        ),
{
    let whole = seq!['/'] + source + seq!['/'];
    assert(whole.subrange(1, whole.len() - 1) =~= source);
    assert(whole.first() == '/' && whole.last() == '/');
    if source_of(f) == Some(source) {
        let p = f.pattern->0;
        assert(p =~= whole);
    }
}

/// Replacing a pair of characters on both sides of a cut that does not part such a pair.
proof fn lemma_replace_parts(a: Seq<char>, b: Seq<char>, p: char, q: char, to: Seq<char>)
    requires
        a.len() > 0 && b.len() > 0 ==> a.last() != p || b.first() != q,
    ensures
        text::replace(a + b, seq![p, q], to) == text::replace(a, seq![p, q], to) + text::replace(
            b,
            seq![p, q],
            to,
        ),
    decreases a.len(),
{
    let from = seq![p, q];
    let all = a + b;
    if a.len() == 0 {
        assert(all =~= b);
        assert(text::replace(a, from, to) =~= Seq::<char>::empty());
        assert(text::replace(a, from, to) + text::replace(b, from, to) =~= text::replace(
            b,
            from,
            to,
        ));
    } else {
        text::parts_stand_character_by_character(all, from, 0);
        text::parts_stand_character_by_character(a, from, 0);
        assert(from[0] == p && from[1] == q);
        assert(all[0] == a[0]);
        assert(a.len() >= 2 ==> all[1] == a[1]);
        assert(text::starts_with(all, from) == text::starts_with(a, from));
        if text::starts_with(a, from) {
            let rest = a.skip(2);
            assert(all.skip(2) =~= rest + b);
            assert(rest.len() > 0 ==> rest.last() == a.last());
            lemma_replace_parts(rest, b, p, q, to);
            assert(to + (text::replace(rest, from, to) + text::replace(b, from, to)) =~= (to
                + text::replace(rest, from, to)) + text::replace(b, from, to));
        } else {
            let rest = a.skip(1);
            assert(all.skip(1) =~= rest + b);
            assert(rest.len() > 0 ==> rest.last() == a.last());
            lemma_replace_parts(rest, b, p, q, to);
            let first = seq![a[0]];
            assert(first + (text::replace(rest, from, to) + text::replace(b, from, to)) =~= (first
                + text::replace(rest, from, to)) + text::replace(b, from, to));
        }
    }
}

/// What a pair of characters becomes.
proof fn lemma_replace_pair(x: char, y: char, p: char, q: char, to: Seq<char>)
    requires
        p != q,
    ensures
        text::replace(seq![x, y], seq![p, q], to) == (if x == p && y == q {
            to
        } else {
            seq![x, y]
        }),
        text::replace(seq![x], seq![p, q], to) == seq![x],
{
    let from = seq![p, q];
    let both = seq![x, y];
    let none = Seq::<char>::empty();
    text::parts_stand_character_by_character(both, from, 0);
    text::parts_stand_character_by_character(seq![y], from, 0);
    text::parts_stand_character_by_character(seq![x], from, 0);
    assert(from[0] == p && from[1] == q && both[0] == x && both[1] == y);
    assert(both.skip(2) =~= none);
    assert(both.skip(1) =~= seq![y]);
    assert(seq![y].skip(1) =~= none);
    assert(seq![x].skip(1) =~= none);
    assert(text::replace(none, from, to) == none);
    assert(text::replace(seq![y], from, to) =~= seq![y]);
    assert(text::replace(seq![x], from, to) =~= seq![x]);
    assert(to + none =~= to);
    assert(seq![x] + seq![y] =~= both);
}

/// Before a pattern is compiled, every `\/` and `\:` in it loses its backslash, and nothing else
/// changes.
pub proof fn slashes_and_colons_are_unescaped(a: Seq<char>, b: Seq<char>)
    ensures
        unescaped(a + seq!['\\', '/'] + b) == unescaped(a) + seq!['/'] + unescaped(b),
        unescaped(a + seq!['\\', ':'] + b) == unescaped(a) + seq![':'] + unescaped(b),
        !text::occurs(a, seq!['\\', '/']) && !text::occurs(a, seq!['\\', ':']) ==> unescaped(a)
            == a,
{
    let slash = seq!['\\', '/'];
    let colon = seq!['\\', ':'];
    let x = text::replace(a, slash, seq!['/']);
    let y = text::replace(b, slash, seq!['/']);

    lemma_replace_parts(a + slash, b, '\\', '/', seq!['/']);
    lemma_replace_parts(a, slash, '\\', '/', seq!['/']);
    lemma_replace_pair('\\', '/', '\\', '/', seq!['/']);
    assert(text::replace(a + slash + b, slash, seq!['/']) == x + seq!['/'] + y);
    lemma_replace_parts(x + seq!['/'], y, '\\', ':', seq![':']);
    lemma_replace_parts(x, seq!['/'], '\\', ':', seq![':']);
    lemma_replace_pair('/', '/', '\\', ':', seq![':']);

    lemma_replace_parts(a + colon, b, '\\', '/', seq!['/']);
    lemma_replace_parts(a, colon, '\\', '/', seq!['/']);
    lemma_replace_pair('\\', ':', '\\', '/', seq!['/']);
    assert(text::replace(a + colon + b, slash, seq!['/']) == x + colon + y);
    lemma_replace_parts(x + colon, y, '\\', ':', seq![':']);
    lemma_replace_parts(x, colon, '\\', ':', seq![':']);
    lemma_replace_pair('\\', ':', '\\', ':', seq![':']);

    text::occurrences_give_way(a, slash, b, seq!['/']);
    text::occurrences_give_way(a, colon, b, seq![':']);
}

/// Outside a character class, each look-around and each backslash with a digit from 1 to 9 is a
/// feature, of the name that belongs to it, before those that follow; no other parenthesis and no
/// other character is one.
pub proof fn features_stand_where_they_are_written(c: char, rest: Seq<char>)
    ensures
        features_in(Seq::empty(), false) == Seq::<Seq<char>>::empty(),
        features_in(seq!['(', '?', '='] + rest, false) == seq!["lookahead"@] + features_in(
            rest,
            false,
        ),
        features_in(seq!['(', '?', '!'] + rest, false) == seq!["negative lookahead"@]
            + features_in(rest, false),
        features_in(seq!['(', '?', '<', '='] + rest, false) == seq!["lookbehind"@] + features_in(
            rest,
            false,
        ),
        features_in(seq!['(', '?', '<', '!'] + rest, false) == seq!["negative lookbehind"@]
            + features_in(rest, false),
        '1' <= c <= '9' ==> features_in(seq!['\\', c] + rest, false) == seq!["backreference"@]
            + features_in(rest, false),
        c != '\\' && c != '[' && c != '(' ==> features_in(seq![c] + rest, false) == features_in(
            rest,
            false,
        ),
        !text::starts_with(rest, seq!['?', '=']) && !text::starts_with(rest, seq!['?', '!'])
            && !text::starts_with(rest, seq!['?', '<', '=']) && !text::starts_with(
            rest,
            seq!['?', '<', '!'],
        ) ==> features_in(seq!['('] + rest, false) == features_in(rest, false),
        features_in(seq!['\\'], false) == Seq::<Seq<char>>::empty(),
{
    lemma_plain('=', rest);
    lemma_plain('!', rest);
    lemma_plain('?', seq!['='] + rest);
    lemma_plain('?', seq!['!'] + rest);
    lemma_plain('<', seq!['='] + rest);
    lemma_plain('<', seq!['!'] + rest);
    lemma_plain('?', seq!['<'] + (seq!['='] + rest));
    lemma_plain('?', seq!['<'] + (seq!['!'] + rest));
    lemma_group(seq!['?'] + (seq!['='] + rest));
    lemma_group(seq!['?'] + (seq!['!'] + rest));
    lemma_group(seq!['?'] + (seq!['<'] + (seq!['='] + rest)));
    lemma_group(seq!['?'] + (seq!['<'] + (seq!['!'] + rest)));
    lemma_group(rest);
    assert(seq!['(', '?', '='] + rest =~= seq!['('] + (seq!['?'] + (seq!['='] + rest)));
    assert(seq!['(', '?', '!'] + rest =~= seq!['('] + (seq!['?'] + (seq!['!'] + rest)));
    assert(seq!['(', '?', '<', '='] + rest =~= seq!['('] + (seq!['?'] + (seq!['<'] + (seq!['=']
        + rest))));
    assert(seq!['(', '?', '<', '!'] + rest =~= seq!['('] + (seq!['?'] + (seq!['<'] + (seq!['!']
        + rest))));
    let back = seq!['\\', c] + rest;
    assert(back.first() == '\\' && back[1] == c);
    assert(back.skip(2) =~= rest);
    if c != '\\' && c != '[' && c != '(' {
        lemma_plain(c, rest);
    }
    let lone = seq!['\\'];
    assert(lone.skip(1) =~= Seq::<char>::empty());
    assert(features_in(lone.skip(1), false) == Seq::<Seq<char>>::empty());
    assert(features_in(lone, false) =~= Seq::<Seq<char>>::empty());
}

proof fn lemma_plain(c: char, rest: Seq<char>)
    requires
        c != '\\' && c != '[' && c != '(',
    ensures
        features_in(seq![c] + rest, false) == features_in(rest, false),
{
    let s = seq![c] + rest;
    assert(s.first() == c);
    assert(s.skip(1) =~= rest);
}

proof fn lemma_group(rest: Seq<char>)
    ensures
        features_in(seq!['('] + rest, false) == (if text::starts_with(rest, seq!['?', '<', '=']) {
            seq!["lookbehind"@]
        } else if text::starts_with(rest, seq!['?', '<', '!']) {
            seq!["negative lookbehind"@]
        } else if text::starts_with(rest, seq!['?', '=']) {
            seq!["lookahead"@]
        } else if text::starts_with(rest, seq!['?', '!']) {
            seq!["negative lookahead"@]
        } else {
            Seq::empty()
        }) + features_in(rest, false),
        rest.len() >= 2 ==> text::starts_with(rest, seq!['?', '=']) == (rest[0] == '?' && rest[1]
            == '='),
        rest.len() >= 2 ==> text::starts_with(rest, seq!['?', '!']) == (rest[0] == '?' && rest[1]
            == '!'),
        rest.len() >= 3 ==> text::starts_with(rest, seq!['?', '<', '=']) == (rest[0] == '?'
            && rest[1] == '<' && rest[2] == '='),
        rest.len() >= 3 ==> text::starts_with(rest, seq!['?', '<', '!']) == (rest[0] == '?'
            && rest[1] == '<' && rest[2] == '!'),
{
    let s = seq!['('] + rest;
    assert(s.first() == '(');
    assert(s.skip(1) =~= rest);
    lemma_behind_bracket(rest, seq!['?', '=']);
    lemma_behind_bracket(rest, seq!['?', '!']);
    lemma_behind_bracket(rest, seq!['?', '<', '=']);
    lemma_behind_bracket(rest, seq!['?', '<', '!']);
    assert(seq!['('] + seq!['?', '='] =~= seq!['(', '?', '=']);
    assert(seq!['('] + seq!['?', '!'] =~= seq!['(', '?', '!']);
    assert(seq!['('] + seq!['?', '<', '='] =~= seq!['(', '?', '<', '=']);
    assert(seq!['('] + seq!['?', '<', '!'] =~= seq!['(', '?', '<', '!']);
    if rest.len() >= 2 {
        let two = rest.subrange(0, 2);
        assert(two[0] == rest[0] && two[1] == rest[1]);
        if rest[0] == '?' && rest[1] == '=' {
            assert(two =~= seq!['?', '=']);
        }
        if rest[0] == '?' && rest[1] == '!' {
            assert(two =~= seq!['?', '!']);
        }
    }
    if rest.len() >= 3 {
        let three = rest.subrange(0, 3);
        assert(three[0] == rest[0] && three[1] == rest[1] && three[2] == rest[2]);
        if rest[0] == '?' && rest[1] == '<' && rest[2] == '=' {
            assert(three =~= seq!['?', '<', '=']);
        }
        if rest[0] == '?' && rest[1] == '<' && rest[2] == '!' {
            assert(three =~= seq!['?', '<', '!']);
        }
    }
}

proof fn lemma_behind_bracket(rest: Seq<char>, part: Seq<char>)
    ensures
        text::starts_with(seq!['('] + rest, seq!['('] + part) == text::starts_with(rest, part),
{
    let s = seq!['('] + rest;
    let whole = seq!['('] + part;
    let n = part.len() as int;
    if n <= rest.len() {
        let cut = s.subrange(0, n + 1);
        if cut == whole {
            assert(rest.subrange(0, n) =~= cut.skip(1));
            assert(part =~= whole.skip(1));
        }
        if rest.subrange(0, n) == part {
            assert(cut =~= seq!['('] + rest.subrange(0, n));
        }
    }
}

/// Inside a character class, up to the bracket that ends it, nothing is a feature.
pub proof fn classes_reach_to_their_bracket(c: char, rest: Seq<char>)
    ensures
        features_in(seq!['['] + rest, false) == features_in(rest, true),
        features_in(seq![']'] + rest, true) == features_in(rest, false),
        c != ']' && c != '\\' ==> features_in(seq![c] + rest, true) == features_in(rest, true),
        features_in(seq!['\\', c] + rest, true) == features_in(rest, true),
        features_in(Seq::empty(), true) == Seq::<Seq<char>>::empty(),
{
    let open = seq!['['] + rest;
    let close = seq![']'] + rest;
    let plain = seq![c] + rest;
    assert(open.first() == '[' && close.first() == ']' && plain.first() == c);
    assert(open.skip(1) =~= rest && close.skip(1) =~= rest && plain.skip(1) =~= rest);
    escapes_are_passed_over(c, rest, true);
}

/// The features of a pattern are those that stand in it, each once and in the order in which they
/// first do; and they are to blame where there are any, else the syntax as a whole. The reason then
/// given starts in one way.
pub proof fn features_are_blamed_in_order(pattern: Seq<char>, f: Seq<char>, i: int, j: int)
    ensures
        features_of(pattern).contains(f) <==> features_in(pattern, false).contains(f),
        features_of(pattern).no_duplicates(),
        0 <= i < j < features_of(pattern).len() ==> exists|p: int|
            0 <= p < features_in(pattern, false).len() && #[trigger] features_in(pattern, false)[p]
                == features_of(pattern)[i] && forall|q: int|
                0 <= q <= p ==> #[trigger] features_in(pattern, false)[q] != features_of(
                    pattern,
                )[j],
        features_of(pattern).len() > 0 ==> blamed(pattern) == features_of(pattern),
        features_of(pattern).len() == 0 ==> blamed(pattern) == seq!["unsupported syntax"@],
        REASON_PREFIX@ == "unsupported regex"@,
{
    text::lemma_distinct(features_in(pattern, false));
    if 0 <= i < j < features_of(pattern).len() {
        text::first_occurrences_keep_their_order(features_in(pattern, false), i, j);
    }
}

/// A pattern in which nothing is to be unescaped is compiled as it stands, with Unicode mode off;
/// features are named exactly where that fails.
pub proof fn patterns_are_compiled_as_they_stand(pattern: &str, r: RegexCheck)
    requires
        call_ensures(check, (pattern,), r),
    ensures
        !text::occurs(pattern@, seq!['\\', '/']) && !text::occurs(pattern@, seq!['\\', ':'])
            ==> r.supported == bytes_regex_builds(pattern@, false),
        r.supported <==> r.features@.len() == 0,
{
    slashes_and_colons_are_unescaped(pattern@, Seq::empty());
    something_is_to_blame(pattern@);
    assert(text::of_strs(r.features@).len() == r.features@.len());
}

} // verus!
