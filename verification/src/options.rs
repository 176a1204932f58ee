//! The "type options" of a filter rule: a network rule's `$` modifiers (script, third-party,
//! domain, replace, ...), or a cosmetic rule's types (elemhide, scriptlet, style, remove,
//! procedural, js, exception). The `style` and `remove` actions cover both the uBO
//! `:style()`/`:remove()` forms and the ABP `{css}`/`{remove: true;}` forms.
//!
//! They are read off the text, so that they are known of rules that the engine cannot parse
//! (such as `$replace`), which are the ones worth finding.

use vstd::prelude::*;
use vstd::slice::slice_subrange;

use crate::chars;
use crate::text;

verus! {

/// The separators of cosmetic rules, longest first.
pub open spec fn markers() -> Seq<Seq<char>> {
    seq![
        "#@$?#"@,
        "#@$#"@,
        "#@?#"@,
        "#@%#"@,
        "#$?#"@,
        "#@#"@,
        "#$#"@,
        "#?#"@,
        "#%#"@,
        "##"@,
    ]
}

/// The first of the markers from number `k` on that stands in `s` at position `i`.
pub open spec fn marker_from(s: Seq<char>, i: int, k: int) -> Option<Seq<char>>
    decreases markers().len() - k,
{
    if k < 0 || k >= markers().len() {
        None
    } else if text::occurs_at(s, markers()[k], i) {
        Some(markers()[k])
    } else {
        marker_from(s, i, k + 1)
    }
}

/// The marker that stands in `s` at position `i`.
pub open spec fn marker_at(s: Seq<char>, i: int) -> Option<Seq<char>> {
    marker_from(s, i, 0)
}

/// The first position, from `i` on, at which a marker stands, and that marker.
pub open spec fn first_marker(s: Seq<char>, i: int) -> Option<(int, Seq<char>)>
    decreases s.len() - i,
{
    if i >= s.len() {
        None
    } else {
        match marker_at(s, i) {
            Some(m) => Some((i, m)),
            None => first_marker(s, i + 1),
        }
    }
}

/// The separator of a cosmetic rule and where it stands; nothing if `s` is a network rule.
pub open spec fn separator(s: Seq<char>) -> Option<(int, Seq<char>)> {
    first_marker(s, 0)
}

/// uBO's procedural matching operators. `:has` and `:not` are native CSS and not among them, nor
/// are the actions `:style()` and `:remove()`.
pub open spec fn procedural_operators() -> Seq<Seq<char>> {
    seq![
        ":has-text("@,
        ":if("@,
        ":if-not("@,
        ":matches-attr("@,
        ":matches-css("@,
        ":matches-css-before("@,
        ":matches-css-after("@,
        ":matches-media("@,
        ":matches-path("@,
        ":min-text-length("@,
        ":others("@,
        ":upward("@,
        ":watch-attr("@,
        ":xpath("@,
        ":remove-attr("@,
        ":remove-class("@,
        ":-abp-has("@,
        ":-abp-contains("@,
        ":-abp-properties("@,
    ]
}

/// Does a procedural matching operator stand in `body`?
pub open spec fn uses_operator(body: Seq<char>) -> bool {
    exists|k: int|
        0 <= k < procedural_operators().len() && #[trigger] text::occurs(
            body,
            procedural_operators()[k],
        )
}

/// `s` without white space and semicolons.
pub open spec fn compact(s: Seq<char>) -> Seq<char>
    decreases s.len(),
{
    if s.len() == 0 {
        s
    } else if text::white_space(s.last()) || s.last() == ';' {
        compact(s.drop_last())
    } else {
        compact(s.drop_last()).push(s.last())
    }
}

/// Is what stands between the first `{` and the last `}` the declaration `remove: true`?
pub open spec fn remove_block(body: Seq<char>) -> bool {
    match (text::find(body, '{'), text::rfind(body, '}')) {
        (Some(open), Some(close)) => open < close && text::lower(
            compact(body.subrange(open + 1, close)),
        ) == "remove:true"@,
        _ => false,
    }
}

/// Does the rule inject a scriptlet?
pub open spec fn is_scriptlet(body: Seq<char>) -> bool {
    text::starts_with(body, "+js("@)
}

/// Does the rule inject plain JavaScript?
pub open spec fn is_js(marker: Seq<char>) -> bool {
    marker.contains('%')
}

/// Does the rule match procedurally, by its separator or by an operator?
pub open spec fn is_procedural(marker: Seq<char>, body: Seq<char>) -> bool {
    marker.contains('?') || uses_operator(body)
}

/// Has the rule a declaration block? (A CSS selector never holds a `{`.)
pub open spec fn has_block(body: Seq<char>) -> bool {
    !is_scriptlet(body) && body.contains('{')
}

/// Does the rule remove what it matches?
pub open spec fn is_remove(body: Seq<char>) -> bool {
    text::occurs(body, ":remove("@) || (has_block(body) && remove_block(body))
}

/// Does the rule style what it matches?
pub open spec fn is_style(marker: Seq<char>, body: Seq<char>) -> bool {
    !is_remove(body) && (marker.contains('$') || text::occurs(body, ":style("@) || has_block(body))
}

/// The kind of a cosmetic rule: script, else action, else way of matching.
pub open spec fn base_kind(marker: Seq<char>, body: Seq<char>) -> Seq<char> {
    if is_scriptlet(body) {
        "scriptlet"@
    } else if is_js(marker) {
        "js"@
    } else if is_remove(body) {
        "remove"@
    } else if is_style(marker, body) {
        "style"@
    } else if is_procedural(marker, body) {
        "procedural"@
    } else {
        "elemhide"@
    }
}

/// The types of a cosmetic rule: its kind, `procedural` beside an action that matches so, and
/// `exception`.
pub open spec fn cosmetic_kinds(marker: Seq<char>, body: Seq<char>) -> Seq<Seq<char>> {
    let also_procedural = is_procedural(marker, body) && !is_scriptlet(body) && !is_js(marker) && (
    is_remove(body) || is_style(marker, body));
    seq![base_kind(marker, body)] + (if also_procedural {
        seq!["procedural"@]
    } else {
        Seq::empty()
    }) + (if marker.contains('@') {
        seq!["exception"@]
    } else {
        Seq::empty()
    })
}

/// The name that an option's text gives it: what stands before `=`, without the
/// negation, in small letters.
pub open spec fn option_name(piece: Seq<char>) -> Seq<char> {
    text::lower(text::trim(text::before(text::strip_front(text::trim(piece), '~'), '=')))
}

/// An ASCII letter or digit.
pub open spec fn alphanumeric(c: char) -> bool {
    'a' <= c <= 'z' || 'A' <= c <= 'Z' || '0' <= c <= '9'
}

/// Could `name` be an option?
pub open spec fn looks_like_option(name: Seq<char>) -> bool {
    name.len() > 0 && forall|i: int|
        0 <= i < name.len() ==> alphanumeric(#[trigger] name[i]) || name[i] == '-'
}

/// The first slash from position `i` on that no backslash escapes.
pub open spec fn next_slash(s: Seq<char>, i: int) -> Option<int>
    decreases s.len() - i,
{
    if i < 0 || i >= s.len() {
        None
    } else if s[i] == '/' {
        Some(i)
    } else if s[i] == '\\' {
        if i + 1 < s.len() {
            next_slash(s, i + 2)
        } else {
            None
        }
    } else {
        next_slash(s, i + 1)
    }
}

/// A flag of a regular expression.
pub open spec fn regex_flag(c: char) -> bool {
    let f = text::lower_char(c);
    f == 'd' || f == 'g' || f == 'i' || f == 'm' || f == 's' || f == 'u' || f == 'v' || f == 'y'
}

/// Are these flags of a regular expression, if anything?
pub open spec fn only_flags(s: Seq<char>) -> bool {
    forall|i: int| 0 <= i < s.len() ==> regex_flag(#[trigger] s[i])
}

/// Can a value end with the slash at position `k`? Only flags stand between it and the next comma
/// or the end.
pub open spec fn can_close(s: Seq<char>, k: int) -> bool {
    only_flags(text::trim(text::before(s.skip(k + 1), ',')))
}

/// The options whose value is a pattern and a replacement (`/pattern/replacement/flags`).
pub open spec fn takes_replacement(name: Seq<char>) -> bool {
    name == "replace"@ || name == "uritransform"@ || name == "urltransform"@
}

/// The options whose value can be a pattern (`/pattern/flags`), and those with a replacement.
pub open spec fn takes_pattern(name: Seq<char>) -> bool {
    takes_replacement(name) || name == "removeparam"@ || name == "queryprune"@ || name
        == "domain"@ || name == "from"@ || name == "to"@ || name == "ipaddress"@ || name
        == "cookie"@
}

/// The slash that closes the value that the slash at position `v` opens: the next one, or with a
/// replacement the one after it, if a value can end there.
pub open spec fn closing_slash(s: Seq<char>, v: int, replacement: bool) -> Option<int> {
    match next_slash(s, v + 1) {
        None => None,
        Some(second) => match next_slash(s, second + 1) {
            Some(third) => if replacement && can_close(s, third) {
                Some(third)
            } else if can_close(s, second) {
                Some(second)
            } else {
                None
            },
            None => if can_close(s, second) {
                Some(second)
            } else {
                None
            },
        },
    }
}

/// The length of the piece that `s` starts with. It ends before the first comma; but where the
/// value of an option that takes a pattern opens with a slash and is closed by another, the commas
/// in between are the value's own.
pub open spec fn piece_len(s: Seq<char>) -> int {
    let plain = text::before(s, ',');
    let end = plain.len() as int;
    match text::find(plain, '=') {
        None => end,
        Some(e) => if e + 1 < end && s[e + 1] == '/' && takes_pattern(option_name(plain)) {
            match closing_slash(s, e + 1, takes_replacement(option_name(plain))) {
                Some(k) => k + 1 + text::before(s.skip(k + 1), ',').len(),
                None => end,
            }
        } else {
            end
        },
    }
}

/// The options in the text behind `$`, as they are written.
pub open spec fn option_pieces(opts: Seq<char>) -> Seq<Seq<char>>
    decreases opts.len(),
{
    let n = piece_len(opts);
    if 0 <= n < opts.len() {
        seq![opts.take(n)] + option_pieces(opts.skip(n + 1))
    } else {
        seq![opts]
    }
}

/// The option names among the pieces, in order.
pub open spec fn option_names(pieces: Seq<Seq<char>>) -> Seq<Seq<char>>
    decreases pieces.len(),
{
    if pieces.len() == 0 {
        Seq::empty()
    } else {
        let earlier = option_names(pieces.drop_last());
        let name = option_name(pieces.last());
        if looks_like_option(name) {
            earlier.push(name)
        } else {
            earlier
        }
    }
}

/// The options of a network rule: the names behind the first `$`, each once.
pub open spec fn network_names(rule: Seq<char>) -> Seq<Seq<char>> {
    match text::find(rule, '$') {
        Some(i) => text::distinct(option_names(option_pieces(rule.skip(i + 1)))),
        None => Seq::empty(),
    }
}

/// The options or types of a rule.
pub open spec fn options_of(rule: Seq<char>) -> Seq<Seq<char>> {
    let r = text::trim(rule);
    match separator(r) {
        Some((i, marker)) => cosmetic_kinds(marker, r.skip(i + marker.len())),
        None => network_names(r),
    }
}

/// All option or type tokens of a rule, in small letters, each once, in order.
pub fn rule_options(rule: &str) -> (r: Vec<String>)
    ensures
        text::of_strings(r@) == options_of(rule@),
{
    let all: Vec<char> = chars::chars_of(rule);
    let rule: &[char] = chars::trim(all.as_slice());
    match cosmetic_types(rule) {
        Some(types) => types,
        None => network_options(rule),
    }
}

/// Does a procedural matching operator stand in `body`?
fn has_procedural_operator(body: &[char]) -> (r: bool)
    ensures
        r == uses_operator(body@),
{
    let ops: Vec<&'static str> = vec![
        ":has-text(",
        ":if(",
        ":if-not(",
        ":matches-attr(",
        ":matches-css(",
        ":matches-css-before(",
        ":matches-css-after(",
        ":matches-media(",
        ":matches-path(",
        ":min-text-length(",
        ":others(",
        ":upward(",
        ":watch-attr(",
        ":xpath(",
        ":remove-attr(",
        ":remove-class(",
        ":-abp-has(",
        ":-abp-contains(",
        ":-abp-properties(",
    ];
    assert(text::of_strs(ops@) == procedural_operators());
    let n: usize = ops.len();
    let mut k: usize = 0;
    while k < n
        invariant
            k <= n == ops@.len(),
            text::of_strs(ops@) == procedural_operators(),
            forall|j: int| 0 <= j < k ==> !text::occurs(body@, procedural_operators()[j]),
        decreases n - k,
    {
        assert(procedural_operators()[k as int] == ops@[k as int]@);
        if chars::occurs(body, chars::chars_of(ops[k]).as_slice()) {
            return true;
        }
        k += 1;
    }
    false
}

/// `s` without white space and semicolons.
fn compacted(s: &[char]) -> (r: Vec<char>)
    ensures
        r@ == compact(s@),
{
    let mut out: Vec<char> = Vec::new();
    let n: usize = s.len();
    let mut i: usize = 0;
    while i < n
        invariant
            i <= n == s@.len(),
            out@ == compact(s@.take(i as int)),
        decreases n - i,
    {
        assert(s@.take(i + 1).drop_last() == s@.take(i as int));
        if !chars::white_space(s[i]) && s[i] != ';' {
            out.push(s[i]);
        }
        i += 1;
    }
    assert(s@.take(n as int) == s@);
    out
}

/// A `##selector { ... }` declaration block whose body is `remove: true`: ABP's form of
/// `:remove()`.
fn is_remove_block(body: &[char]) -> (r: bool)
    ensures
        r == remove_block(body@),
{
    match (chars::find(body, '{'), chars::rfind(body, '}')) {
        (Some(open), Some(close)) => {
            if open >= close {
                return false;
            }
            let inner: Vec<char> = compacted(slice_subrange(body, open + 1, close));
            chars::same(
                chars::lower(inner.as_slice()).as_slice(),
                chars::chars_of("remove:true").as_slice(),
            )
        },
        _ => false,
    }
}

/// The type tokens of a cosmetic rule; `None` for a network rule.
fn cosmetic_types(rule: &[char]) -> (r: Option<Vec<String>>)
    ensures
        (match separator(rule@) {
            Some((i, marker)) => r matches Some(v) && text::of_strings(v@) == cosmetic_kinds(
                marker,
                rule@.skip(i + marker.len()),
            ),
            None => r is None,
        }),
{
    let (idx, marker) = match cosmetic_marker(rule) {
        Some(found) => found,
        None => {
            return None;
        },
    };
    let marker: Vec<char> = chars::chars_of(marker);
    let marker: &[char] = marker.as_slice();
    let n: usize = rule.len();
    let body: &[char] = slice_subrange(rule, idx + marker.len(), n);
    assert(body@ == rule@.skip(idx + marker@.len()));

    let scriptlet: bool = chars::starts_with(body, chars::chars_of("+js(").as_slice());
    let js: bool = chars::contains(marker, '%');
    let procedural: bool = chars::contains(marker, '?') || has_procedural_operator(body);
    let css_block: bool = !scriptlet && chars::contains(body, '{');
    let remove: bool = chars::occurs(body, chars::chars_of(":remove(").as_slice()) || (css_block
        && is_remove_block(body));
    let style: bool = !remove && (chars::contains(marker, '$') || chars::occurs(
        body,
        chars::chars_of(":style(").as_slice(),
    ) || css_block);

    let base: &'static str = if scriptlet {
        "scriptlet"
    } else if js {
        "js"
    } else if remove {
        "remove"
    } else if style {
        "style"
    } else if procedural {
        "procedural"
    } else {
        "elemhide"
    };
    let mut out: Vec<String> = Vec::new();
    out.push(base.to_string());
    if procedural && (remove || style) && !scriptlet && !js {
        out.push("procedural".to_string());
    }
    if chars::contains(marker, '@') {
        out.push("exception".to_string());
    }
    assert(text::of_strings(out@) == cosmetic_kinds(marker@, body@));
    Some(out)
}

/// The separators, character by character.
proof fn lemma_markers()
    ensures
        markers() == seq![
            seq!['#', '@', '$', '?', '#'],
            seq!['#', '@', '$', '#'],
            seq!['#', '@', '?', '#'],
            seq!['#', '@', '%', '#'],
            seq!['#', '$', '?', '#'],
            seq!['#', '@', '#'],
            seq!['#', '$', '#'],
            seq!['#', '?', '#'],
            seq!['#', '%', '#'],
            seq!['#', '#'],
        ],
{
    reveal_strlit("#@$?#");
    reveal_strlit("#@$#");
    reveal_strlit("#@?#");
    reveal_strlit("#@%#");
    reveal_strlit("#$?#");
    reveal_strlit("#@#");
    reveal_strlit("#$#");
    reveal_strlit("#?#");
    reveal_strlit("#%#");
    reveal_strlit("##");
    assert("#@$?#"@ =~= seq!['#', '@', '$', '?', '#']);
    assert("#@$#"@ =~= seq!['#', '@', '$', '#']);
    assert("#@?#"@ =~= seq!['#', '@', '?', '#']);
    assert("#@%#"@ =~= seq!['#', '@', '%', '#']);
    assert("#$?#"@ =~= seq!['#', '$', '?', '#']);
    assert("#@#"@ =~= seq!['#', '@', '#']);
    assert("#$#"@ =~= seq!['#', '$', '#']);
    assert("#?#"@ =~= seq!['#', '?', '#']);
    assert("#%#"@ =~= seq!['#', '%', '#']);
    assert("##"@ =~= seq!['#', '#']);
}

/// Where no `#` stands, no marker does.
proof fn lemma_markers_start_with_sharp(s: Seq<char>, i: int, k: int)
    requires
        0 <= i < s.len(),
        s[i] != '#',
        0 <= k,
    ensures
        marker_from(s, i, k) is None,
    decreases markers().len() - k,
{
    lemma_markers();
    if k < markers().len() {
        let m = markers()[k];
        assert(m.len() > 0 && m[0] == '#');
        if text::occurs_at(s, m, i) {
            assert(s.subrange(i, i + m.len())[0] == s[i]);
        }
        lemma_markers_start_with_sharp(s, i, k + 1);
    }
}

/// The cosmetic separator with the position of its first character; of two that stand there,
/// the one that comes first among the markers.
pub(crate) fn cosmetic_marker(rule: &[char]) -> (r: Option<(usize, &'static str)>)
    ensures
        r is Some == separator(rule@) is Some,
        r matches Some((i, m)) ==> separator(rule@) == Some((i as int, m@)) && text::occurs_at(
            rule@,
            m@,
            i as int,
        ),
{
    let marks: Vec<&'static str> = vec![
        "#@$?#",
        "#@$#",
        "#@?#",
        "#@%#",
        "#$?#",
        "#@#",
        "#$#",
        "#?#",
        "#%#",
        "##",
    ];
    assert(text::of_strs(marks@) == markers());
    let n: usize = rule.len();
    let mut i: usize = 0;
    while i < n
        invariant
            i <= n == rule@.len(),
            text::of_strs(marks@) == markers(),
            separator(rule@) == first_marker(rule@, i as int),
        decreases n - i,
    {
        if rule[i] == '#' {
            let mut k: usize = 0;
            while k < marks.len()
                invariant
                    k <= marks@.len(),
                    i < n == rule@.len(),
                    text::of_strs(marks@) == markers(),
                    separator(rule@) == first_marker(rule@, i as int),
                    marker_at(rule@, i as int) == marker_from(rule@, i as int, k as int),
                decreases marks.len() - k,
            {
                assert(markers()[k as int] == marks@[k as int]@);
                if chars::occurs_at(rule, chars::chars_of(marks[k]).as_slice(), i) {
                    return Some((i, marks[k]));
                }
                k += 1;
            }
            assert(text::of_strs(marks@).len() == marks@.len());
        } else {
            proof {
                lemma_markers_start_with_sharp(rule@, i as int, 0);
            }
        }
        i += 1;
    }
    None
}

/// Could `name` be an option?
fn could_be_option(name: &[char]) -> (r: bool)
    ensures
        r == looks_like_option(name@),
{
    let n: usize = name.len();
    let mut i: usize = 0;
    while i < n
        invariant
            i <= n == name@.len(),
            forall|j: int| 0 <= j < i ==> alphanumeric(#[trigger] name@[j]) || name@[j] == '-',
        decreases n - i,
    {
        let c: char = name[i];
        let ok: bool = ('a' <= c && c <= 'z') || ('A' <= c && c <= 'Z') || ('0' <= c && c <= '9')
            || c == '-';
        if !ok {
            assert(name@[i as int] == c);
            return false;
        }
        i += 1;
    }
    n > 0
}

/// The first slash from position `i` on that no backslash escapes.
fn find_slash(s: &[char], i: usize) -> (r: Option<usize>)
    ensures
        r is Some == next_slash(s@, i as int) is Some,
        r matches Some(k) ==> next_slash(s@, i as int) == Some(k as int) && i <= k < s@.len(),
{
    let n: usize = s.len();
    let mut k: usize = i;
    while k < n
        invariant
            n == s@.len(),
            i <= k,
            next_slash(s@, i as int) == next_slash(s@, k as int),
        decreases n - k,
    {
        if s[k] == '/' {
            return Some(k);
        }
        if s[k] == '\\' {
            if n - k < 2 {
                return None;
            }
            k += 2;
        } else {
            k += 1;
        }
    }
    None
}

/// Can a value end with the slash at position `k`?
fn could_close(s: &[char], k: usize) -> (r: bool)
    requires
        k < s@.len(),
    ensures
        r == can_close(s@, k as int),
{
    let n: usize = s.len();
    let rest: &[char] = slice_subrange(s, k + 1, n);
    assert(rest@ == s@.skip(k + 1));
    let tail: &[char] = chars::trim(chars::before(rest, ','));
    let m: usize = tail.len();
    let mut i: usize = 0;
    while i < m
        invariant
            i <= m == tail@.len(),
            tail@ == text::trim(text::before(s@.skip(k + 1), ',')),
            forall|j: int| 0 <= j < i ==> regex_flag(#[trigger] tail@[j]),
        decreases m - i,
    {
        let f: char = chars::lower_char(tail[i]);
        if !(f == 'd' || f == 'g' || f == 'i' || f == 'm' || f == 's' || f == 'u' || f == 'v' || f
            == 'y') {
            assert(!regex_flag(tail@[i as int]));
            return false;
        }
        i += 1;
    }
    true
}

/// The slash that closes the value that the slash at position `v` opens.
fn find_closing(s: &[char], v: usize, replacement: bool) -> (r: Option<usize>)
    requires
        v < s@.len(),
    ensures
        r is Some == closing_slash(s@, v as int, replacement) is Some,
        r matches Some(k) ==> closing_slash(s@, v as int, replacement) == Some(k as int) && v < k
            < s@.len(),
{
    let n: usize = s.len();
    assert(v < n);
    let second: usize = match find_slash(s, v + 1) {
        Some(k) => k,
        None => {
            return None;
        },
    };
    if let Some(third) = find_slash(s, second + 1) {
        if replacement && could_close(s, third) {
            return Some(third);
        }
    }
    if could_close(s, second) {
        Some(second)
    } else {
        None
    }
}

/// The name that an option's text gives it.
fn name_of(piece: &[char]) -> (r: Vec<char>)
    ensures
        r@ == option_name(piece@),
{
    chars::lower(chars::trim(chars::before(chars::strip_front(chars::trim(piece), '~'), '=')))
}

/// The length of the piece that `s` starts with.
fn first_piece(s: &[char]) -> (r: usize)
    ensures
        r == piece_len(s@),
        r <= s@.len(),
{
    let n: usize = s.len();
    let plain: &[char] = chars::before(s, ',');
    let end: usize = plain.len();
    proof {
        lemma_before(s@, ',');
    }
    let value: usize = match chars::find(plain, '=') {
        Some(e) => e + 1,
        None => {
            return end;
        },
    };
    if value >= end || s[value] != '/' {
        return end;
    }
    let name: String = chars::string_of(name_of(plain).as_slice());
    let name: &str = name.as_str();
    let replacement: bool = chars::same_str(name, "replace") || chars::same_str(
        name,
        "uritransform",
    ) || chars::same_str(name, "urltransform");
    if !(replacement || chars::same_str(name, "removeparam") || chars::same_str(name, "queryprune")
        || chars::same_str(name, "domain") || chars::same_str(name, "from") || chars::same_str(
        name,
        "to",
    ) || chars::same_str(name, "ipaddress") || chars::same_str(name, "cookie")) {
        return end;
    }
    match find_closing(s, value, replacement) {
        Some(k) => {
            let rest: &[char] = slice_subrange(s, k + 1, n);
            assert(rest@ == s@.skip(k + 1));
            proof {
                lemma_before(rest@, ',');
            }
            k + 1 + chars::before(rest, ',').len()
        },
        None => end,
    }
}

proof fn lemma_before(s: Seq<char>, sep: char)
    ensures
        text::before(s, sep).len() <= s.len(),
        text::before(s, sep) == s.take(text::before(s, sep).len() as int),
        text::before(s, sep).len() < s.len() ==> s[text::before(s, sep).len() as int] == sep,
{
    text::lemma_find(s, sep);
    assert(s.take(s.len() as int) == s);
}

/// The options in the text behind `$`, as they are written.
fn split_options(opts: &[char]) -> (r: Vec<&[char]>)
    ensures
        text::of_slices(r@) == option_pieces(opts@),
{
    let mut out: Vec<&[char]> = Vec::new();
    let n: usize = opts.len();
    let mut start: usize = 0;
    assert(opts@.skip(0) == opts@);
    assert(text::of_slices(out@) + option_pieces(opts@) == option_pieces(opts@));
    loop
        invariant
            start <= n == opts@.len(),
            option_pieces(opts@) == text::of_slices(out@) + option_pieces(
                opts@.skip(start as int),
            ),
        decreases n - start,
    {
        let rest: &[char] = slice_subrange(opts, start, n);
        assert(rest@ == opts@.skip(start as int));
        let ghost done = out@;
        let len: usize = first_piece(rest);
        if len < rest.len() {
            let piece: &[char] = slice_subrange(rest, 0, len);
            out.push(piece);
            assert(piece@ == rest@.take(len as int));
            assert(rest@.skip(len + 1) == opts@.skip(start + len + 1));
            assert(text::of_slices(out@) == text::of_slices(done).push(piece@));
            start = start + len + 1;
        } else {
            out.push(rest);
            assert(text::of_slices(out@) == text::of_slices(done).push(rest@));
            return out;
        }
    }
}

/// The option names of a network rule: what stands before `=`, without a leading `~`, kept only
/// if it looks like an option name. The commas in a pattern or a replacement between slashes are
/// the value's own, so that its fragments are not taken for options.
fn network_options(rule: &[char]) -> (r: Vec<String>)
    ensures
        text::of_strings(r@) == network_names(rule@),
{
    let mut out: Vec<String> = Vec::new();
    let dollar: usize = match chars::find(rule, '$') {
        Some(i) => i,
        None => {
            assert(text::of_strings(out@) == Seq::<Seq<char>>::empty());
            return out;
        },
    };
    let end: usize = rule.len();
    let tail: &[char] = slice_subrange(rule, dollar + 1, end);
    assert(tail@ == rule@.skip(dollar + 1));
    let pieces: Vec<&[char]> = split_options(tail);
    let ghost all = text::of_slices(pieces@);
    let n: usize = pieces.len();
    let mut i: usize = 0;
    assert(text::of_strings(out@) == text::distinct(option_names(all.take(0))));
    while i < n
        invariant
            i <= n == pieces@.len(),
            all == text::of_slices(pieces@),
            text::of_strings(out@) == text::distinct(option_names(all.take(i as int))),
        decreases n - i,
    {
        assert(all.take(i + 1).drop_last() == all.take(i as int));
        let name: Vec<char> = name_of(pieces[i]);
        assert(name@ == option_name(all[i as int]));
        let ghost seen = option_names(all.take(i as int));
        let ghost done = out@;
        if could_be_option(name.as_slice()) {
            assert(seen.push(name@).drop_last() == seen);
            if !chars::holds(&out, name.as_slice()) {
                out.push(chars::string_of(name.as_slice()));
                assert(text::of_strings(out@) == text::of_strings(done).push(name@));
            }
        }
        i += 1;
    }
    assert(all.take(n as int) == all);
    out
}

proof fn lemma_kinds(t: Seq<char>)
    requires
        t == "scriptlet"@ || t == "js"@ || t == "remove"@ || t == "style"@ || t == "procedural"@
            || t == "elemhide"@ || t == "exception"@,
    ensures
        looks_like_option(t),
        text::lower(t) == t,
{
    reveal_strlit("scriptlet");
    reveal_strlit("js");
    reveal_strlit("remove");
    reveal_strlit("style");
    reveal_strlit("procedural");
    reveal_strlit("elemhide");
    reveal_strlit("exception");
    assert(text::lower(t) =~= t);
}

/// The kinds differ from each other where it matters.
proof fn lemma_kinds_differ(marker: Seq<char>, body: Seq<char>)
    ensures
        base_kind(marker, body) != "exception"@,
        "procedural"@ != "exception"@,
        "remove"@ != "procedural"@,
        "style"@ != "procedural"@,
{
    reveal_strlit("scriptlet");
    reveal_strlit("js");
    reveal_strlit("remove");
    reveal_strlit("style");
    reveal_strlit("procedural");
    reveal_strlit("elemhide");
    reveal_strlit("exception");
    assert("scriptlet"@[0] == 's' && "exception"@[0] == 'e');
    assert("js"@.len() == 2 && "remove"@.len() == 6 && "style"@.len() == 5 && "procedural"@.len()
        == 10 && "elemhide"@.len() == 8 && "exception"@.len() == 9);
}

proof fn lemma_option_names(pieces: Seq<Seq<char>>)
    ensures
        forall|t: Seq<char>| #[trigger]
            option_names(pieces).contains(t) ==> looks_like_option(t) && text::lower(t) == t,
    decreases pieces.len(),
{
    if pieces.len() > 0 {
        let earlier = option_names(pieces.drop_last());
        let name = option_name(pieces.last());
        lemma_option_names(pieces.drop_last());
        text::lemma_lower(
            text::trim(text::before(text::strip_front(text::trim(pieces.last()), '~'), '=')),
        );
        assert forall|t: Seq<char>| #[trigger] option_names(pieces).contains(t) implies
            looks_like_option(t) && text::lower(t) == t by {
            text::lemma_push_contains(earlier, name, t);
        }
    }
}

/// No option of a rule is named twice.
pub proof fn options_are_distinct(rule: Seq<char>)
    ensures
        options_of(rule).no_duplicates(),
{
    let r = text::trim(rule);
    match separator(r) {
        Some((i, marker)) => {
            let body = r.skip(i + marker.len());
            lemma_kinds_differ(marker, body);
            let all = cosmetic_kinds(marker, body);
            assert forall|j: int, k: int| 0 <= j < k < all.len() implies all[j] != all[k] by {
                assert(all[0] == base_kind(marker, body));
            }
        },
        None => {
            match text::find(r, '$') {
                Some(i) => {
                    text::lemma_distinct(option_names(option_pieces(r.skip(i + 1))));
                },
                None => {},
            }
        },
    }
}

/// Each option of a rule is a token of ASCII letters, digits and hyphens, none of them a capital.
pub proof fn options_are_small_tokens(rule: Seq<char>, t: Seq<char>)
    requires
        options_of(rule).contains(t),
    ensures
        looks_like_option(t),
        text::lower(t) == t,
{
    let r = text::trim(rule);
    match separator(r) {
        Some((i, marker)) => {
            lemma_kinds(t);
        },
        None => {
            match text::find(r, '$') {
                Some(i) => {
                    let names = option_names(option_pieces(r.skip(i + 1)));
                    text::lemma_distinct(names);
                    assert(text::distinct(names).contains(t));
                    lemma_option_names(option_pieces(r.skip(i + 1)));
                },
                None => {},
            }
        },
    }
}

/// White space around a rule does not change its options.
pub proof fn options_ignore_surrounding_space(rule: Seq<char>)
    ensures
        options_of(text::trim(rule)) == options_of(rule),
{
    text::lemma_trim_twice(rule);
}

proof fn lemma_lower_next_slash(s: Seq<char>, i: int)
    ensures
        next_slash(text::lower(s), i) == next_slash(s, i),
        next_slash(s, i) matches Some(k) ==> i <= k < s.len(),
    decreases s.len() - i,
{
    if 0 <= i < s.len() {
        text::lemma_lower_char(s[i]);
        assert(text::same_char(text::lower(s)[i], '/') == text::same_char(s[i], '/'));
        assert(text::same_char(text::lower(s)[i], '\\') == text::same_char(s[i], '\\'));
        if s[i] == '\\' {
            if i + 1 < s.len() {
                lemma_lower_next_slash(s, i + 2);
            }
        } else if s[i] != '/' {
            lemma_lower_next_slash(s, i + 1);
        }
    }
}

proof fn lemma_lower_can_close(s: Seq<char>, k: int)
    requires
        0 <= k < s.len(),
    ensures
        can_close(text::lower(s), k) == can_close(s, k),
        text::before(text::lower(s).skip(k + 1), ',').len() == text::before(
            s.skip(k + 1),
            ',',
        ).len(),
{
    let rest = s.skip(k + 1);
    assert(text::lower(s).skip(k + 1) =~= text::lower(rest));
    text::lemma_lower_find(rest, ',');
    let t = text::trim(text::before(rest, ','));
    text::lemma_lower_trim(text::before(rest, ','));
    let low = text::lower(t);
    assert forall|i: int| 0 <= i < t.len() implies regex_flag(#[trigger] low[i]) == regex_flag(
        t[i],
    ) by {
        text::lemma_lower_char(t[i]);
    }
    if only_flags(low) {
        assert forall|i: int| 0 <= i < t.len() implies regex_flag(#[trigger] t[i]) by {
            assert(regex_flag(low[i]));
        }
    }
}

proof fn lemma_lower_option_name(piece: Seq<char>)
    ensures
        option_name(text::lower(piece)) == option_name(piece),
{
    let t = text::trim(piece);
    let u = text::strip_front(t, '~');
    let b = text::before(u, '=');
    text::lemma_lower_trim(piece);
    text::lemma_lower_strip_front(t, '~');
    text::lemma_lower_find(u, '=');
    text::lemma_lower_trim(b);
    text::lemma_lower(text::trim(b));
}

proof fn lemma_lower_piece_len(s: Seq<char>)
    ensures
        piece_len(text::lower(s)) == piece_len(s),
{
    let plain = text::before(s, ',');
    lemma_before(s, ',');
    text::lemma_lower_find(s, ',');
    text::lemma_lower_find(plain, '=');
    lemma_lower_option_name(plain);
    text::lemma_find(plain, '=');
    if let Some(e) = text::find(plain, '=') {
        if e + 1 < plain.len() {
            text::lemma_lower_char(s[e + 1]);
            assert(text::same_char(text::lower(s)[e + 1], '/') == text::same_char(s[e + 1], '/'));
            lemma_lower_next_slash(s, e + 2);
            if let Some(second) = next_slash(s, e + 2) {
                lemma_lower_can_close(s, second);
                lemma_lower_next_slash(s, second + 1);
                if let Some(third) = next_slash(s, second + 1) {
                    lemma_lower_can_close(s, third);
                }
            }
        }
    }
}

proof fn lemma_lower_pieces(opts: Seq<char>)
    ensures
        option_pieces(text::lower(opts)) == option_pieces(opts).map_values(
            |p: Seq<char>| text::lower(p),
        ),
    decreases opts.len(),
{
    let n = piece_len(opts);
    let low = text::lower(opts);
    lemma_lower_piece_len(opts);
    if 0 <= n < opts.len() {
        lemma_lower_pieces(opts.skip(n + 1));
        assert(low.take(n) =~= text::lower(opts.take(n)));
        assert(low.skip(n + 1) =~= text::lower(opts.skip(n + 1)));
        assert(option_pieces(low) =~= option_pieces(opts).map_values(
            |p: Seq<char>| text::lower(p),
        ));
    } else {
        assert(option_pieces(low) =~= option_pieces(opts).map_values(
            |p: Seq<char>| text::lower(p),
        ));
    }
}

proof fn lemma_names_of_lower_pieces(pieces: Seq<Seq<char>>)
    ensures
        option_names(pieces.map_values(|p: Seq<char>| text::lower(p))) == option_names(pieces),
    decreases pieces.len(),
{
    if pieces.len() > 0 {
        let low = pieces.map_values(|p: Seq<char>| text::lower(p));
        assert(low.drop_last() =~= pieces.drop_last().map_values(
            |p: Seq<char>| text::lower(p),
        ));
        lemma_names_of_lower_pieces(pieces.drop_last());
        lemma_lower_option_name(pieces.last());
    }
}

proof fn lemma_lower_network_names(rule: Seq<char>)
    ensures
        network_names(text::lower(rule)) == network_names(rule),
{
    text::lemma_lower_find(rule, '$');
    text::lemma_find(rule, '$');
    if let Some(i) = text::find(rule, '$') {
        let opts = rule.skip(i + 1);
        assert(text::lower(rule).skip(i + 1) =~= text::lower(opts));
        lemma_lower_pieces(opts);
        lemma_names_of_lower_pieces(option_pieces(opts));
    }
}

/// Capitals neither make nor hide a separator.
proof fn lemma_lower_separator(s: Seq<char>)
    ensures
        separator(text::lower(s)) is Some == separator(s) is Some,
{
    let low = text::lower(s);
    lemma_markers();
    assert forall|p: int, k: int| 0 <= k < markers().len() implies #[trigger] text::occurs_at(
        low,
        markers()[k],
        p,
    ) == text::occurs_at(s, markers()[k], p) by {
        let m = markers()[k];
        if 0 <= p <= s.len() - m.len() {
            let a = low.subrange(p, p + m.len());
            let b = s.subrange(p, p + m.len());
            assert forall|j: int| 0 <= j < m.len() implies text::same_char(a[j], m[j])
                == text::same_char(b[j], m[j]) by {
                assert(!text::letter(m[j]));
                text::lemma_lower_char(s[p + j]);
                assert(text::same_char(text::lower_char(s[p + j]), m[j]) == text::same_char(
                    s[p + j],
                    m[j],
                ));
            }
            if a == m {
                assert forall|j: int| 0 <= j < m.len() implies b[j] == m[j] by {
                    assert(text::same_char(a[j], m[j]) == text::same_char(b[j], m[j]));
                }
                assert(b =~= m);
            }
            if b == m {
                assert forall|j: int| 0 <= j < m.len() implies a[j] == m[j] by {
                    assert(text::same_char(a[j], m[j]) == text::same_char(b[j], m[j]));
                }
                assert(a =~= m);
            }
        }
    }
    separator_comes_first(s);
    separator_comes_first(low);
    if let Some((at, m)) = separator(s) {
        let k = choose|k: int| 0 <= k < markers().len() && markers()[k] == m;
        assert(text::occurs_at(low, markers()[k], at));
    }
    if let Some((at, m)) = separator(low) {
        let k = choose|k: int| 0 <= k < markers().len() && markers()[k] == m;
        assert(text::occurs_at(s, markers()[k], at));
    }
}

proof fn lemma_lower_options(rule: Seq<char>)
    requires
        separator(text::trim(rule)) is None,
    ensures
        separator(text::trim(text::lower(rule))) is None,
        options_of(text::lower(rule)) == options_of(rule),
{
    let r = text::trim(rule);
    text::lemma_lower_trim(rule);
    lemma_lower_separator(r);
    lemma_lower_network_names(r);
}

/// Capitals do not change the options of a rule without a separator: it can be written in capitals
/// or in small letters throughout.
pub proof fn capitals_in_network_rules_do_not_count(rule: Seq<char>)
    requires
        separator(text::trim(rule)) is None,
    ensures
        options_of(text::lower(rule)) == options_of(rule),
        options_of(text::upper(rule)) == options_of(rule),
{
    let up = text::upper(rule);
    lemma_lower_options(rule);
    text::lemma_lower_upper(rule);
    text::lemma_lower_trim(up);
    lemma_lower_separator(text::trim(up));
    lemma_lower_options(up);
}

/// No two separators stand at one position, so that the order in which they are tried does not
/// matter.
pub proof fn separators_exclude_each_other(s: Seq<char>, i: int, j: int, k: int)
    requires
        0 <= j < markers().len(),
        0 <= k < markers().len(),
        text::occurs_at(s, markers()[j], i),
        text::occurs_at(s, markers()[k], i),
    ensures
        j == k,
{
    lemma_markers();
    let a = markers()[j];
    let b = markers()[k];
    assert forall|p: int| 0 <= p < a.len() implies #[trigger] a[p] == s[i + p] by {
        assert(s.subrange(i, i + a.len())[p] == s[i + p]);
    }
    assert forall|p: int| 0 <= p < b.len() implies #[trigger] b[p] == s[i + p] by {
        assert(s.subrange(i, i + b.len())[p] == s[i + p]);
    }
    assert(a[1] == b[1]);
    assert(a.len() > 2 && b.len() > 2 ==> a[2] == b[2]);
    assert(a.len() > 3 && b.len() > 3 ==> a[3] == b[3]);
}

proof fn lemma_marker_from(s: Seq<char>, i: int, k: int)
    requires
        0 <= k,
    ensures
        marker_from(s, i, k) matches Some(m) ==> markers().contains(m) && text::occurs_at(s, m, i),
        marker_from(s, i, k) is None ==> forall|l: int|
            k <= l < markers().len() ==> !text::occurs_at(s, #[trigger] markers()[l], i),
    decreases markers().len() - k,
{
    if k < markers().len() && !text::occurs_at(s, markers()[k], i) {
        lemma_marker_from(s, i, k + 1);
    }
}

proof fn lemma_first_marker(s: Seq<char>, i: int)
    requires
        0 <= i,
    ensures
        first_marker(s, i) matches Some((at, m)) ==> i <= at && markers().contains(m)
            && text::occurs_at(s, m, at) && forall|p: int, k: int|
            i <= p < at && 0 <= k < markers().len() ==> !#[trigger] text::occurs_at(
                s,
                markers()[k],
                p,
            ),
        first_marker(s, i) is None ==> forall|p: int, k: int|
            i <= p && 0 <= k < markers().len() ==> !#[trigger] text::occurs_at(s, markers()[k], p),
    decreases s.len() - i,
{
    if i >= s.len() {
        lemma_markers();
        assert forall|p: int, k: int| i <= p && 0 <= k < markers().len() implies !#[trigger]
        text::occurs_at(s, markers()[k], p) by {
            assert(markers()[k].len() > 0);
        }
    } else {
        lemma_marker_from(s, i, 0);
        if marker_at(s, i) is None {
            lemma_first_marker(s, i + 1);
            assert forall|k: int| 0 <= k < markers().len() implies !#[trigger] text::occurs_at(
                s,
                markers()[k],
                i,
            ) by {
                let m = markers()[k];
                assert(!text::occurs_at(s, m, i));
            }
            match first_marker(s, i) {
                Some((at, m)) => {
                    assert forall|p: int, k: int|
                        i <= p < at && 0 <= k < markers().len() implies !#[trigger] text::occurs_at(
                        s,
                        markers()[k],
                        p,
                    ) by {}
                },
                None => {
                    assert forall|p: int, k: int|
                        i <= p && 0 <= k < markers().len() implies !#[trigger] text::occurs_at(
                        s,
                        markers()[k],
                        p,
                    ) by {}
                },
            }
        }
    }
}

/// The separator of a rule is the first that stands in it: none stands before it, and where there
/// is no separator, none stands anywhere.
pub proof fn separator_comes_first(rule: Seq<char>)
    ensures
        separator(rule) matches Some((at, m)) ==> markers().contains(m) && text::occurs_at(
            rule,
            m,
            at,
        ) && forall|p: int, k: int|
            0 <= p < at && 0 <= k < markers().len() ==> !#[trigger] text::occurs_at(
                rule,
                markers()[k],
                p,
            ),
        separator(rule) is None ==> forall|p: int, k: int|
            0 <= p && 0 <= k < markers().len() ==> !#[trigger] text::occurs_at(
                rule,
                markers()[k],
                p,
            ),
{
    lemma_first_marker(rule, 0);
}

/// A cosmetic rule has a kind, and is an exception exactly if its separator holds an `@`.
pub proof fn cosmetic_rules_have_a_kind(rule: Seq<char>)
    ensures
        separator(text::trim(rule)) matches Some((i, m)) ==> options_of(rule).len() > 0
            && options_of(rule).contains("exception"@) == m.contains('@'),
{
    if let Some((i, m)) = separator(text::trim(rule)) {
        lemma_kinds_differ(m, text::trim(rule).skip(i + m.len()));
        let all = options_of(rule);
        if m.contains('@') {
            assert(all[all.len() - 1] == "exception"@);
        }
    }
}

/// Does no slash stand in `body` but behind a backslash, and no backslash at its very end?
pub open spec fn unslashed(body: Seq<char>) -> bool
    decreases body.len(),
{
    if body.len() == 0 {
        true
    } else if body[0] == '\\' {
        body.len() >= 2 && unslashed(body.skip(2))
    } else {
        body[0] != '/' && unslashed(body.skip(1))
    }
}

/// An option whose value is a pattern between slashes, with flags behind it.
pub open spec fn pattern_option(name: Seq<char>, body: Seq<char>, flags: Seq<char>) -> Seq<char> {
    name + seq!['=', '/'] + body + seq!['/'] + flags
}

/// An option whose value is a pattern and a replacement, with flags behind them.
pub open spec fn replacement_option(
    name: Seq<char>,
    body: Seq<char>,
    replacement: Seq<char>,
    flags: Seq<char>,
) -> Seq<char> {
    name + seq!['=', '/'] + body + seq!['/'] + replacement + seq!['/'] + flags
}

/// The slash behind a body without slashes is the next one.
proof fn lemma_next_slash(s: Seq<char>, i: int, body: Seq<char>)
    requires
        0 <= i,
        i + body.len() < s.len(),
        s.subrange(i, i + body.len()) == body,
        s[i + body.len()] == '/',
        unslashed(body),
    ensures
        next_slash(s, i) == Some(i + body.len()),
    decreases body.len(),
{
    if body.len() > 0 {
        assert(s[i] == body[0]);
        if body[0] == '\\' {
            assert(s.subrange(i + 2, i + 2 + body.skip(2).len()) =~= body.skip(2));
            lemma_next_slash(s, i + 2, body.skip(2));
        } else {
            assert(s.subrange(i + 1, i + 1 + body.skip(1).len()) =~= body.skip(1));
            lemma_next_slash(s, i + 1, body.skip(1));
        }
    }
}

/// Where no slash stands, none is found.
proof fn lemma_no_slash(s: Seq<char>, i: int)
    requires
        0 <= i,
        forall|k: int| i <= k < s.len() ==> s[k] != '/',
    ensures
        next_slash(s, i) is None,
    decreases s.len() - i,
{
    if i < s.len() {
        if s[i] == '\\' {
            if i + 1 < s.len() {
                lemma_no_slash(s, i + 2);
            }
        } else {
            lemma_no_slash(s, i + 1);
        }
    }
}

proof fn lemma_option_name(name: Seq<char>, more: Seq<char>)
    requires
        looks_like_option(name),
    ensures
        option_name(name + seq!['='] + more) == text::lower(name),
        looks_like_option(text::lower(name)),
{
    let all = name + seq!['='] + more;
    assert(all.first() == name[0]);
    assert(alphanumeric(name[0]) || name[0] == '-');
    assert(text::trim_start(all) == all);
    text::lemma_trim_end(all);
    let t = text::trim(all);
    let n = name.len() as int;
    assert(all[n] == '=');
    assert(t.len() > n);
    assert(t[n] == '=');
    assert(t.first() == name[0]);
    assert(text::strip_front(t, '~') == t);
    assert forall|k: int| 0 <= k < n implies t[k] != '=' by {
        assert(t[k] == name[k]);
        assert(alphanumeric(name[k]) || name[k] == '-');
    }
    text::lemma_find(t, '=');
    assert(text::before(t, '=') =~= name);
    assert(alphanumeric(name[n - 1]) || name[n - 1] == '-');
    text::lemma_trim_fixed(name);
    let low = text::lower(name);
    assert forall|k: int| 0 <= k < low.len() implies alphanumeric(#[trigger] low[k]) || low[k]
        == '-' by {
        assert(alphanumeric(name[k]) || name[k] == '-');
        assert(low[k] == text::lower_char(name[k]));
        if 'A' <= name[k] <= 'Z' {
            assert(97 <= low[k] as u32 <= 122);
        }
    }
}

/// What an option with a value that opens with a slash starts with.
proof fn lemma_opening(name: Seq<char>, more: Seq<char>)
    requires
        looks_like_option(name),
        takes_pattern(text::lower(name)),
    ensures
        ({
            let s = name + seq!['=', '/'] + more;
            closing_slash(s, name.len() as int + 1, takes_replacement(text::lower(name))) matches Some(k)
                ==> piece_len(s) == k + 1 + text::before(s.skip(k + 1), ',').len()
        }),
{
    let s = name + seq!['=', '/'] + more;
    let n = name.len() as int;
    let plain = text::before(s, ',');
    lemma_before(s, ',');
    assert(s[n] == '=' && s[n + 1] == '/');
    assert forall|k: int| 0 <= k < n implies s[k] != ',' && s[k] != '=' by {
        assert(s[k] == name[k]);
        assert(alphanumeric(name[k]) || name[k] == '-');
    }
    assert(plain.len() >= n + 2);
    text::lemma_find(plain, '=');
    assert(plain[n] == '=');
    assert(text::find(plain, '=') == Some(n));
    assert(plain =~= name + seq!['='] + plain.skip(n + 1));
    lemma_option_name(name, plain.skip(n + 1));
}

/// A value that flags and then a comma or nothing follow can end there.
/// Flags with white space around them hold neither a comma nor a slash.
proof fn lemma_flag(flags: Seq<char>, i: int)
    requires
        only_flags(text::trim(flags)),
        0 <= i < flags.len(),
    ensures
        flags[i] != ',',
        flags[i] != '/',
{
    if !text::white_space(flags[i]) {
        text::trimming_takes_white_space_only(flags, i);
        let t = text::trim(flags);
        let k = choose|k: int| 0 <= k < t.len() && t[k] == flags[i];
        assert(regex_flag(t[k]));
    }
}

proof fn lemma_can_close(s: Seq<char>, k: int, flags: Seq<char>, tail: Seq<char>)
    requires
        0 <= k < s.len(),
        s.skip(k + 1) == flags + tail,
        only_flags(text::trim(flags)),
        tail.len() > 0 ==> tail[0] == ',',
    ensures
        can_close(s, k),
        text::before(s.skip(k + 1), ',') == flags,
{
    let rest = flags + tail;
    text::lemma_find(rest, ',');
    assert forall|i: int| 0 <= i < flags.len() implies rest[i] != ',' by {
        lemma_flag(flags, i);
    }
    if tail.len() > 0 {
        assert(rest[flags.len() as int] == ',');
        assert(text::find(rest, ',') == Some(flags.len() as int));
    } else {
        assert(rest =~= flags);
        assert(!rest.contains(','));
    }
    assert(text::before(rest, ',') =~= flags);
}

proof fn lemma_pattern_piece(
    name: Seq<char>,
    body: Seq<char>,
    flags: Seq<char>,
    tail: Seq<char>,
)
    requires
        looks_like_option(name),
        takes_pattern(text::lower(name)),
        unslashed(body),
        only_flags(text::trim(flags)),
        tail.len() > 0 ==> tail[0] == ',',
        takes_replacement(text::lower(name)) ==> !tail.contains('/'),
    ensures
        piece_len(pattern_option(name, body, flags) + tail) == pattern_option(
            name,
            body,
            flags,
        ).len(),
{
    let value = pattern_option(name, body, flags);
    let s = value + tail;
    let more = body + seq!['/'] + flags + tail;
    assert(s =~= name + seq!['=', '/'] + more);
    let v = name.len() as int + 1;
    let second = v + 1 + body.len();
    assert(s.subrange(v + 1, v + 1 + body.len()) =~= body);
    lemma_next_slash(s, v + 1, body);
    assert(s.skip(second + 1) =~= flags + tail);
    lemma_can_close(s, second, flags, tail);
    if takes_replacement(text::lower(name)) {
        assert forall|k: int| second + 1 <= k < s.len() implies s[k] != '/' by {
            assert(s[k] == (flags + tail)[k - second - 1]);
            if k - second - 1 < flags.len() {
                lemma_flag(flags, k - second - 1);
            } else {
                assert(tail.contains(tail[k - second - 1 - flags.len()]));
            }
        }
        lemma_no_slash(s, second + 1);
    }
    lemma_opening(name, more);
}

proof fn lemma_replacement_piece(
    name: Seq<char>,
    body: Seq<char>,
    replacement: Seq<char>,
    flags: Seq<char>,
    tail: Seq<char>,
)
    requires
        looks_like_option(name),
        takes_replacement(text::lower(name)),
        unslashed(body),
        unslashed(replacement),
        only_flags(text::trim(flags)),
        tail.len() > 0 ==> tail[0] == ',',
    ensures
        piece_len(replacement_option(name, body, replacement, flags) + tail) == replacement_option(
            name,
            body,
            replacement,
            flags,
        ).len(),
{
    let value = replacement_option(name, body, replacement, flags);
    let s = value + tail;
    let more = body + seq!['/'] + replacement + seq!['/'] + flags + tail;
    assert(s =~= name + seq!['=', '/'] + more);
    let v = name.len() as int + 1;
    let second = v + 1 + body.len();
    let third = second + 1 + replacement.len();
    assert(s.subrange(v + 1, v + 1 + body.len()) =~= body);
    lemma_next_slash(s, v + 1, body);
    assert(s.subrange(second + 1, second + 1 + replacement.len()) =~= replacement);
    lemma_next_slash(s, second + 1, replacement);
    assert(s.skip(third + 1) =~= flags + tail);
    lemma_can_close(s, third, flags, tail);
    lemma_opening(name, more);
}

/// A first piece, alone and with more behind it.
proof fn lemma_first_piece(value: Seq<char>, rest: Seq<char>)
    requires
        piece_len(value + Seq::empty()) == value.len(),
        piece_len(value + (seq![','] + rest)) == value.len(),
    ensures
        option_pieces(value) == seq![value],
        option_pieces(value + seq![','] + rest) == seq![value] + option_pieces(rest),
{
    assert(value + Seq::<char>::empty() =~= value);
    let all = value + seq![','] + rest;
    assert(value + (seq![','] + rest) =~= all);
    assert(all.take(value.len() as int) =~= value);
    assert(all.skip(value.len() as int + 1) =~= rest);
}

/// The rule that is made of a pattern and of one option, written as one piece.
proof fn lemma_single_option(pattern: Seq<char>, value: Seq<char>, name: Seq<char>)
    requires
        !pattern.contains('$'),
        option_pieces(value) == seq![value],
        option_name(value) == name,
        looks_like_option(name),
    ensures
        network_names(pattern + seq!['$'] + value) == seq![name],
{
    let rule = pattern + seq!['$'] + value;
    let n = pattern.len() as int;
    text::lemma_find(rule, '$');
    assert(rule[n] == '$');
    assert forall|k: int| 0 <= k < n implies rule[k] != '$' by {
        assert(pattern.contains(pattern[k]));
    }
    assert(text::find(rule, '$') == Some(n));
    assert(rule.skip(n + 1) =~= value);
    let pieces = seq![value];
    assert(pieces.drop_last() =~= Seq::<Seq<char>>::empty());
    assert(pieces.last() == value);
    assert(option_names(pieces.drop_last()) == Seq::<Seq<char>>::empty());
    assert(option_names(pieces) =~= seq![name]);
    assert(seq![name].drop_last() =~= Seq::<Seq<char>>::empty());
    assert(text::distinct(seq![name].drop_last()) == Seq::<Seq<char>>::empty());
    assert(seq![name].last() == name);
    assert(text::distinct(seq![name]) =~= seq![name]);
}

/// Behind an option that takes no pattern, every comma starts another one.
pub proof fn other_options_end_at_the_comma(name: Seq<char>, value: Seq<char>, rest: Seq<char>)
    requires
        looks_like_option(name),
        !takes_pattern(text::lower(name)),
        !value.contains(','),
    ensures
        option_pieces(name + seq!['='] + value + seq![','] + rest) == seq![
            name + seq!['='] + value,
        ] + option_pieces(rest),
{
    let piece = name + seq!['='] + value;
    let all = piece + seq![','] + rest;
    let n = piece.len() as int;
    assert forall|k: int| 0 <= k < n implies all[k] != ',' by {
        if k < name.len() {
            assert(alphanumeric(name[k]) || name[k] == '-');
        } else if k > name.len() {
            assert(value.contains(value[k - name.len() - 1]));
        }
    }
    text::lemma_find(all, ',');
    assert(all[n] == ',');
    assert(text::find(all, ',') == Some(n));
    assert(text::before(all, ',') =~= piece);
    lemma_option_name(name, value);
    assert(piece_len(all) == n);
    assert(all.take(n) =~= piece);
    assert(all.skip(n + 1) =~= rest);
}

/// A comma in a pattern between slashes adds no option, whatever stands around it: the option is
/// one piece, and the options behind it follow. White space can stand around the flags. (Where the
/// option could have a replacement, a slash behind it could belong to it.)
pub proof fn commas_in_patterns_add_no_option(
    pattern: Seq<char>,
    name: Seq<char>,
    body: Seq<char>,
    flags: Seq<char>,
    rest: Seq<char>,
)
    requires
        !pattern.contains('$'),
        looks_like_option(name),
        takes_pattern(text::lower(name)),
        unslashed(body),
        only_flags(text::trim(flags)),
        takes_replacement(text::lower(name)) ==> !rest.contains('/'),
    ensures
        ({
            let value = pattern_option(name, body, flags);
            &&& option_pieces(value) == seq![value]
            &&& option_pieces(value + seq![','] + rest) == seq![value] + option_pieces(rest)
            &&& option_name(value) == text::lower(name)
            &&& network_names(pattern + seq!['$'] + value) == seq![text::lower(name)]
        }),
{
    let value = pattern_option(name, body, flags);
    lemma_pattern_piece(name, body, flags, Seq::empty());
    let tail = seq![','] + rest;
    assert(tail.contains('/') ==> rest.contains('/')) by {
        if tail.contains('/') {
            let k = choose|k: int| 0 <= k < tail.len() && tail[k] == '/';
            assert(rest[k - 1] == '/');
        }
    }
    lemma_pattern_piece(name, body, flags, tail);
    lemma_first_piece(value, rest);
    let more = seq!['/'] + body + seq!['/'] + flags;
    assert(value =~= name + seq!['='] + more);
    lemma_option_name(name, more);
    lemma_single_option(pattern, value, text::lower(name));
}

/// A comma in a pattern or in its replacement adds no option either.
pub proof fn commas_in_replacements_add_no_option(
    pattern: Seq<char>,
    name: Seq<char>,
    body: Seq<char>,
    replacement: Seq<char>,
    flags: Seq<char>,
    rest: Seq<char>,
)
    requires
        !pattern.contains('$'),
        looks_like_option(name),
        takes_replacement(text::lower(name)),
        unslashed(body),
        unslashed(replacement),
        only_flags(text::trim(flags)),
    ensures
        ({
            let value = replacement_option(name, body, replacement, flags);
            &&& option_pieces(value) == seq![value]
            &&& option_pieces(value + seq![','] + rest) == seq![value] + option_pieces(rest)
            &&& option_name(value) == text::lower(name)
            &&& network_names(pattern + seq!['$'] + value) == seq![text::lower(name)]
        }),
{
    let value = replacement_option(name, body, replacement, flags);
    lemma_replacement_piece(name, body, replacement, flags, Seq::empty());
    lemma_replacement_piece(name, body, replacement, flags, seq![','] + rest);
    lemma_first_piece(value, rest);
    let more = seq!['/'] + body + seq!['/'] + replacement + seq!['/'] + flags;
    assert(value =~= name + seq!['='] + more);
    lemma_option_name(name, more);
    lemma_single_option(pattern, value, text::lower(name));
}

/// The texts that separate a cosmetic rule's scope from its body.
pub proof fn separators_are_these(t: Seq<char>)
    ensures
        markers().contains(t) <==> t == "##"@ || t == "#@#"@ || t == "#?#"@ || t == "#@?#"@ || t
            == "#$#"@ || t == "#@$#"@ || t == "#$?#"@ || t == "#@$?#"@ || t == "#%#"@ || t
            == "#@%#"@,
{
    let all = markers();
    assert(all[0] == "#@$?#"@ && all[1] == "#@$#"@ && all[2] == "#@?#"@ && all[3] == "#@%#"@);
    assert(all[4] == "#$?#"@ && all[5] == "#@#"@ && all[6] == "#$#"@ && all[7] == "#?#"@);
    assert(all[8] == "#%#"@ && all[9] == "##"@);
}

/// The kinds, letter by letter where that tells them apart.
proof fn lemma_kind_names()
    ensures
        "scriptlet"@.len() == 9 && "scriptlet"@[0] == 's',
        "js"@.len() == 2,
        "remove"@.len() == 6,
        "style"@.len() == 5,
        "procedural"@.len() == 10,
        "elemhide"@.len() == 8,
        "exception"@.len() == 9 && "exception"@[0] == 'e',
{
    reveal_strlit("scriptlet");
    reveal_strlit("js");
    reveal_strlit("remove");
    reveal_strlit("style");
    reveal_strlit("procedural");
    reveal_strlit("elemhide");
    reveal_strlit("exception");
}

/// What stands among the types of a cosmetic rule.
proof fn lemma_kinds_among(marker: Seq<char>, body: Seq<char>, t: Seq<char>)
    ensures
        cosmetic_kinds(marker, body).contains(t) <==> t == base_kind(marker, body) || (t
            == "procedural"@ && is_procedural(marker, body) && !is_scriptlet(body) && !is_js(marker)
            && (is_remove(body) || is_style(marker, body))) || (t == "exception"@
            && marker.contains('@')),
{
    let all = cosmetic_kinds(marker, body);
    assert(all[0] == base_kind(marker, body));
    if is_procedural(marker, body) && !is_scriptlet(body) && !is_js(marker) && (is_remove(body)
        || is_style(marker, body)) {
        assert(all[1] == "procedural"@);
    }
    if marker.contains('@') {
        assert(all[all.len() - 1] == "exception"@);
    }
}

/// A rule whose body starts with `+js(` injects a scriptlet and is of no other kind; of the
/// others, one whose separator holds a `%` is plain JavaScript and of no other kind.
pub proof fn scripts_are_of_no_other_kind(rule: Seq<char>, at: int, marker: Seq<char>)
    requires
        separator(text::trim(rule)) == Some((at, marker)),
    ensures
        ({
            let body = text::trim(rule).skip(at + marker.len());
            let kinds = options_of(rule);
            let script = text::starts_with(body, "+js("@);
            &&& kinds.contains("scriptlet"@) <==> script
            &&& kinds.contains("js"@) <==> marker.contains('%') && !script
            &&& script || marker.contains('%') ==> forall|t: Seq<char>| #[trigger]
                kinds.contains(t) ==> t == "scriptlet"@ || t == "js"@ || t == "exception"@
        }),
{
    let body = text::trim(rule).skip(at + marker.len());
    lemma_kind_names();
    lemma_kinds_among(marker, body, "scriptlet"@);
    lemma_kinds_among(marker, body, "js"@);
    assert forall|t: Seq<char>| #[trigger]
        options_of(rule).contains(t) && (text::starts_with(body, "+js("@) || marker.contains(
            '%',
        )) implies t == "scriptlet"@ || t == "js"@ || t == "exception"@ by {
        lemma_kinds_among(marker, body, t);
    }
}

/// A cosmetic rule without a script is procedural exactly if its separator holds a `?` or one of
/// the procedural operators stands in its body, whatever else it does.
pub proof fn operators_make_rules_procedural(rule: Seq<char>, at: int, marker: Seq<char>)
    requires
        separator(text::trim(rule)) == Some((at, marker)),
        !text::starts_with(text::trim(rule).skip(at + marker.len()), "+js("@),
        !marker.contains('%'),
    ensures
        options_of(rule).contains("procedural"@) <==> ({
            let body = text::trim(rule).skip(at + marker.len());
            ||| marker.contains('?')
            ||| text::occurs(body, ":has-text("@)
            ||| text::occurs(body, ":if("@)
            ||| text::occurs(body, ":if-not("@)
            ||| text::occurs(body, ":matches-attr("@)
            ||| text::occurs(body, ":matches-css("@)
            ||| text::occurs(body, ":matches-css-before("@)
            ||| text::occurs(body, ":matches-css-after("@)
            ||| text::occurs(body, ":matches-media("@)
            ||| text::occurs(body, ":matches-path("@)
            ||| text::occurs(body, ":min-text-length("@)
            ||| text::occurs(body, ":others("@)
            ||| text::occurs(body, ":upward("@)
            ||| text::occurs(body, ":watch-attr("@)
            ||| text::occurs(body, ":xpath("@)
            ||| text::occurs(body, ":remove-attr("@)
            ||| text::occurs(body, ":remove-class("@)
            ||| text::occurs(body, ":-abp-has("@)
            ||| text::occurs(body, ":-abp-contains("@)
            ||| text::occurs(body, ":-abp-properties("@)
        }),
{
    let body = text::trim(rule).skip(at + marker.len());
    lemma_kind_names();
    lemma_kinds_among(marker, body, "procedural"@);
    assert(uses_operator(body) ==> {
            ||| text::occurs(body, ":has-text("@)
            ||| text::occurs(body, ":if("@)
            ||| text::occurs(body, ":if-not("@)
            ||| text::occurs(body, ":matches-attr("@)
            ||| text::occurs(body, ":matches-css("@)
            ||| text::occurs(body, ":matches-css-before("@)
            ||| text::occurs(body, ":matches-css-after("@)
            ||| text::occurs(body, ":matches-media("@)
            ||| text::occurs(body, ":matches-path("@)
            ||| text::occurs(body, ":min-text-length("@)
            ||| text::occurs(body, ":others("@)
            ||| text::occurs(body, ":upward("@)
            ||| text::occurs(body, ":watch-attr("@)
            ||| text::occurs(body, ":xpath("@)
            ||| text::occurs(body, ":remove-attr("@)
            ||| text::occurs(body, ":remove-class("@)
            ||| text::occurs(body, ":-abp-has("@)
            ||| text::occurs(body, ":-abp-contains("@)
            ||| text::occurs(body, ":-abp-properties("@)
    }) by {
        if uses_operator(body) {
            let k = choose|k: int|
                0 <= k < procedural_operators().len() && #[trigger] text::occurs(
                    body,
                    procedural_operators()[k],
                );
            assert(procedural_operators().len() == 19);
        }
    }
    assert(({
            ||| text::occurs(body, ":has-text("@)
            ||| text::occurs(body, ":if("@)
            ||| text::occurs(body, ":if-not("@)
            ||| text::occurs(body, ":matches-attr("@)
            ||| text::occurs(body, ":matches-css("@)
            ||| text::occurs(body, ":matches-css-before("@)
            ||| text::occurs(body, ":matches-css-after("@)
            ||| text::occurs(body, ":matches-media("@)
            ||| text::occurs(body, ":matches-path("@)
            ||| text::occurs(body, ":min-text-length("@)
            ||| text::occurs(body, ":others("@)
            ||| text::occurs(body, ":upward("@)
            ||| text::occurs(body, ":watch-attr("@)
            ||| text::occurs(body, ":xpath("@)
            ||| text::occurs(body, ":remove-attr("@)
            ||| text::occurs(body, ":remove-class("@)
            ||| text::occurs(body, ":-abp-has("@)
            ||| text::occurs(body, ":-abp-contains("@)
            ||| text::occurs(body, ":-abp-properties("@)
    }) ==> uses_operator(body)) by {
        if text::occurs(body, ":has-text("@) {
            assert(text::occurs(body, procedural_operators()[0]));
        }
        if text::occurs(body, ":if("@) {
            assert(text::occurs(body, procedural_operators()[1]));
        }
        if text::occurs(body, ":if-not("@) {
            assert(text::occurs(body, procedural_operators()[2]));
        }
        if text::occurs(body, ":matches-attr("@) {
            assert(text::occurs(body, procedural_operators()[3]));
        }
        if text::occurs(body, ":matches-css("@) {
            assert(text::occurs(body, procedural_operators()[4]));
        }
        if text::occurs(body, ":matches-css-before("@) {
            assert(text::occurs(body, procedural_operators()[5]));
        }
        if text::occurs(body, ":matches-css-after("@) {
            assert(text::occurs(body, procedural_operators()[6]));
        }
        if text::occurs(body, ":matches-media("@) {
            assert(text::occurs(body, procedural_operators()[7]));
        }
        if text::occurs(body, ":matches-path("@) {
            assert(text::occurs(body, procedural_operators()[8]));
        }
        if text::occurs(body, ":min-text-length("@) {
            assert(text::occurs(body, procedural_operators()[9]));
        }
        if text::occurs(body, ":others("@) {
            assert(text::occurs(body, procedural_operators()[10]));
        }
        if text::occurs(body, ":upward("@) {
            assert(text::occurs(body, procedural_operators()[11]));
        }
        if text::occurs(body, ":watch-attr("@) {
            assert(text::occurs(body, procedural_operators()[12]));
        }
        if text::occurs(body, ":xpath("@) {
            assert(text::occurs(body, procedural_operators()[13]));
        }
        if text::occurs(body, ":remove-attr("@) {
            assert(text::occurs(body, procedural_operators()[14]));
        }
        if text::occurs(body, ":remove-class("@) {
            assert(text::occurs(body, procedural_operators()[15]));
        }
        if text::occurs(body, ":-abp-has("@) {
            assert(text::occurs(body, procedural_operators()[16]));
        }
        if text::occurs(body, ":-abp-contains("@) {
            assert(text::occurs(body, procedural_operators()[17]));
        }
        if text::occurs(body, ":-abp-properties("@) {
            assert(text::occurs(body, procedural_operators()[18]));
        }
    }
}

/// The action of a cosmetic rule without a script: it removes exactly if `:remove(` stands in its
/// body or the declaration between the first `{` and the last `}` of its body is `remove:true`, in
/// any case and with any white space and semicolons; and otherwise it styles exactly if its
/// separator holds a `$`, or `:style(` or a `{` stands in its body.
pub proof fn actions_are_read_off_the_body(rule: Seq<char>, at: int, marker: Seq<char>)
    requires
        separator(text::trim(rule)) == Some((at, marker)),
        !text::starts_with(text::trim(rule).skip(at + marker.len()), "+js("@),
        !marker.contains('%'),
    ensures
        ({
            let body = text::trim(rule).skip(at + marker.len());
            let kinds = options_of(rule);
            let declared = exists|selector: Seq<char>, inner: Seq<char>, tail: Seq<char>|
                #![trigger selector + seq!['{'] + inner + seq!['}'] + tail]
                body == selector + seq!['{'] + inner + seq!['}'] + tail && !selector.contains('{')
                    && !tail.contains('}') && text::lower(
                    inner.filter(|c: char| !text::white_space(c) && c != ';'),
                ) == "remove:true"@;
            &&& kinds.contains("remove"@) <==> text::occurs(body, ":remove("@) || declared
            &&& kinds.contains("style"@) <==> !kinds.contains("remove"@) && (marker.contains('$')
                || text::occurs(body, ":style("@) || body.contains('{'))
            &&& kinds.contains("elemhide"@) <==> !kinds.contains("remove"@) && !kinds.contains(
                "style"@,
            ) && !kinds.contains("procedural"@)
        }),
{
    let body = text::trim(rule).skip(at + marker.len());
    lemma_kind_names();
    lemma_kinds_among(marker, body, "remove"@);
    lemma_kinds_among(marker, body, "style"@);
    lemma_kinds_among(marker, body, "elemhide"@);
    lemma_kinds_among(marker, body, "procedural"@);
    if remove_block(body) {
        lemma_block(body);
        assert(body.contains('{')) by {
            text::lemma_find(body, '{');
        }
    }
    assert forall|selector: Seq<char>, inner: Seq<char>, tail: Seq<char>|
        #![trigger selector + seq!['{'] + inner + seq!['}'] + tail]
        body == selector + seq!['{'] + inner + seq!['}'] + tail && !selector.contains('{')
            && !tail.contains('}') && text::lower(
            inner.filter(|c: char| !text::white_space(c) && c != ';'),
        ) == "remove:true"@ implies remove_block(body) && body.contains('{') by {
        lemma_block_of(selector, inner, tail);
        assert(body[selector.len() as int] == '{');
    }
}

/// Compacting leaves every character but white space and semicolons.
proof fn lemma_compact(s: Seq<char>)
    ensures
        compact(s) == s.filter(|c: char| !text::white_space(c) && c != ';'),
    decreases s.len(),
{
    reveal(Seq::filter);
    if s.len() > 0 {
        lemma_compact(s.drop_last());
    }
}

/// A removing block in its parts.
proof fn lemma_block(body: Seq<char>)
    requires
        remove_block(body),
    ensures
        exists|selector: Seq<char>, inner: Seq<char>, tail: Seq<char>|
            #![trigger selector + seq!['{'] + inner + seq!['}'] + tail]
            body == selector + seq!['{'] + inner + seq!['}'] + tail && !selector.contains('{')
                && !tail.contains('}') && text::lower(
                inner.filter(|c: char| !text::white_space(c) && c != ';'),
            ) == "remove:true"@,
{
    text::lemma_find(body, '{');
    text::the_last_position_is_the_last(body, '}');
    let open = text::find(body, '{')->0;
    let close = text::rfind(body, '}')->0;
    let selector = body.take(open);
    let inner = body.subrange(open + 1, close);
    let tail = body.skip(close + 1);
    lemma_compact(inner);
    assert(body =~= selector + seq!['{'] + inner + seq!['}'] + tail);
    assert(!selector.contains('{'));
    assert forall|k: int| 0 <= k < tail.len() implies tail[k] != '}' by {
        assert(tail[k] == body[close + 1 + k]);
    }
}

/// The parts of a removing block make one.
proof fn lemma_block_of(selector: Seq<char>, inner: Seq<char>, tail: Seq<char>)
    requires
        !selector.contains('{'),
        !tail.contains('}'),
        text::lower(inner.filter(|c: char| !text::white_space(c) && c != ';')) == "remove:true"@,
    ensures
        remove_block(selector + seq!['{'] + inner + seq!['}'] + tail),
{
    let body = selector + seq!['{'] + inner + seq!['}'] + tail;
    let open = selector.len() as int;
    let close = open + 1 + inner.len();
    text::lemma_find(body, '{');
    text::the_last_position_is_the_last(body, '}');
    assert(body[open] == '{' && body[close] == '}');
    assert forall|k: int| 0 <= k < open implies body[k] != '{' by {
        assert(selector.contains(selector[k]));
    }
    assert forall|k: int| close < k < body.len() implies body[k] != '}' by {
        assert(tail.contains(tail[k - close - 1]));
    }
    assert(text::find(body, '{') == Some(open));
    assert(text::rfind(body, '}') == Some(close));
    assert(body.subrange(open + 1, close) =~= inner);
    lemma_compact(inner);
}

/// The types of a cosmetic rule stand in a fixed order: first what it does, behind it how it
/// matches, and last that it is an exception; and there is none but the seven.
pub proof fn types_stand_in_order(rule: Seq<char>, at: int, marker: Seq<char>)
    requires
        separator(text::trim(rule)) == Some((at, marker)),
    ensures
        ({
            let kinds = options_of(rule);
            &&& kinds.contains("exception"@) ==> kinds.last() == "exception"@ && kinds.len() > 1
            &&& kinds.contains("remove"@) ==> kinds[0] == "remove"@
            &&& kinds.contains("style"@) ==> kinds[0] == "style"@
            &&& forall|t: Seq<char>| #[trigger]
                kinds.contains(t) ==> t == "scriptlet"@ || t == "js"@ || t == "remove"@ || t
                    == "style"@ || t == "procedural"@ || t == "elemhide"@ || t == "exception"@
        }),
{
    let body = text::trim(rule).skip(at + marker.len());
    lemma_kind_names();
    lemma_kinds_among(marker, body, "exception"@);
    lemma_kinds_among(marker, body, "remove"@);
    lemma_kinds_among(marker, body, "style"@);
    assert forall|t: Seq<char>| #[trigger] options_of(rule).contains(t) implies t == "scriptlet"@
        || t == "js"@ || t == "remove"@ || t == "style"@ || t == "procedural"@ || t == "elemhide"@
        || t == "exception"@ by {
        lemma_kinds_among(marker, body, t);
    }
}

/// An option's text gives the name that stands in it before the `=`, if there is one, in small
/// letters: white space around it and the `~` before it do not count.
pub proof fn options_are_named_before_the_value(
    a: Seq<char>,
    negations: nat,
    b: Seq<char>,
    name: Seq<char>,
    c: Seq<char>,
    value: Seq<char>,
)
    requires
        forall|k: int| 0 <= k < a.len() ==> text::white_space(#[trigger] a[k]),
        forall|k: int| 0 <= k < b.len() ==> text::white_space(#[trigger] b[k]),
        forall|k: int| 0 <= k < c.len() ==> text::white_space(#[trigger] c[k]),
        negations == 0 ==> b.len() == 0,
        name.len() > 0,
        !text::white_space(name.first()) && !text::white_space(name.last()),
        name.first() != '~',
        !name.contains('='),
    ensures
        ({
            let written = a + Seq::new(negations, |k: int| '~') + b + name + c;
            &&& option_name(written) == text::lower(name)
            &&& option_name(written + seq!['='] + value) == text::lower(name)
        }),
{
    let run = Seq::new(negations, |k: int| '~');
    let written = a + run + b + name + c;
    let core = run + b + name;
    assert(core.last() == name.last());
    assert(core.first() == if negations > 0 { '~' } else { name.first() });
    assert(written =~= a + core + c);
    text::trimming_leaves_the_core(a, core, c);
    assert(core =~= run + (b + name));
    assert((b + name).first() != '~');
    text::runs_at_the_front_go(b + name, '~', negations);
    assert(!(b + name).contains('='));
    text::pieces_end_at_the_separator(b + name, Seq::empty(), '=');
    assert(b + name =~= b + name + Seq::<char>::empty());
    text::trimming_leaves_the_core(b, name, Seq::empty());

    let all = written + seq!['='] + value;
    let rest = c + seq!['='] + value;
    text::lemma_trim_end(rest);
    let kept = text::trim_end(rest);
    assert(rest[c.len() as int] == '=');
    assert(kept.len() > c.len());
    let cut = rest.skip(kept.len() as int);
    assert forall|k: int| 0 <= k < cut.len() implies text::white_space(#[trigger] cut[k]) by {
        assert(cut[k] == rest[kept.len() + k]);
    }
    let whole = core + kept;
    assert(whole.last() == kept.last());
    assert(whole.first() == core.first());
    assert(all =~= a + whole + cut);
    text::trimming_leaves_the_core(a, whole, cut);
    assert(whole =~= run + (b + name + kept));
    assert((b + name + kept).first() != '~');
    text::runs_at_the_front_go(b + name + kept, '~', negations);
    let front = b + name + c;
    let back = kept.skip(c.len() as int + 1);
    assert(kept =~= c + seq!['='] + back);
    assert(b + name + kept =~= front + seq!['='] + back);
    assert(!front.contains('=')) by {
        if front.contains('=') {
            let k = choose|k: int| 0 <= k < front.len() && front[k] == '=';
            if k < b.len() {
                assert(text::white_space(b[k]));
            } else if k < b.len() + name.len() {
                assert(name.contains(name[k - b.len()]));
            } else {
                assert(text::white_space(c[k - b.len() - name.len()]));
            }
        }
    }
    text::pieces_end_at_the_separator(front, back, '=');
    text::trimming_leaves_the_core(b, name, c);
}

/// The names among the pieces are those that are made of ASCII letters, digits and hyphens.
proof fn lemma_names_among(pieces: Seq<Seq<char>>, t: Seq<char>)
    ensures
        option_names(pieces).contains(t) <==> looks_like_option(t) && exists|k: int|
            0 <= k < pieces.len() && option_name(#[trigger] pieces[k]) == t,
    decreases pieces.len(),
{
    if pieces.len() > 0 {
        let front = pieces.drop_last();
        lemma_names_among(front, t);
        let name = option_name(pieces.last());
        text::lemma_push_contains(option_names(front), name, t);
        if exists|k: int| 0 <= k < pieces.len() && option_name(#[trigger] pieces[k]) == t {
            let k = choose|k: int| 0 <= k < pieces.len() && option_name(#[trigger] pieces[k]) == t;
            if k < front.len() {
                assert(front[k] == pieces[k]);
            }
        }
        if exists|k: int| 0 <= k < front.len() && option_name(#[trigger] front[k]) == t {
            let k = choose|k: int| 0 <= k < front.len() && option_name(#[trigger] front[k]) == t;
            assert(pieces[k] == front[k]);
        }
        assert(pieces[pieces.len() - 1] == pieces.last());
    }
}

/// Where the first of two names stands, the second has not been seen.
proof fn lemma_names_in_order(pieces: Seq<Seq<char>>, i: int, j: int)
    requires
        0 <= i < j < text::distinct(option_names(pieces)).len(),
    ensures
        exists|p: int|
            0 <= p < pieces.len() && option_name(#[trigger] pieces[p]) == text::distinct(
                option_names(pieces),
            )[i] && forall|q: int|
                0 <= q <= p ==> option_name(#[trigger] pieces[q]) != text::distinct(
                    option_names(pieces),
                )[j],
    decreases pieces.len(),
{
    if pieces.len() == 0 {
        assert(text::distinct(option_names(pieces)).len() == 0);
    } else {
        let front = pieces.drop_last();
        let name = option_name(pieces.last());
        let earlier = text::distinct(option_names(front));
        let all = text::distinct(option_names(pieces));
        if looks_like_option(name) {
            text::the_first_of_equals_stays(option_names(front), name);
        }
        assert(all == earlier || (all == earlier.push(name) && !option_names(front).contains(name)
            && looks_like_option(name)));
        if j < earlier.len() {
            lemma_names_in_order(front, i, j);
            let p = choose|p: int|
                0 <= p < front.len() && option_name(#[trigger] front[p]) == earlier[i]
                    && forall|q: int|
                    0 <= q <= p ==> option_name(#[trigger] front[q]) != earlier[j];
            assert(pieces[p] == front[p]);
            assert forall|q: int| 0 <= q <= p implies option_name(#[trigger] pieces[q])
                != all[j] by {
                assert(pieces[q] == front[q]);
            }
        } else {
            assert(all[j] == name && all[i] == earlier[i]);
            text::lemma_distinct(option_names(front));
            assert(earlier.contains(earlier[i]));
            assert(option_names(front).contains(earlier[i]));
            lemma_names_among(front, earlier[i]);
            let p = choose|p: int|
                0 <= p < front.len() && option_name(#[trigger] front[p]) == earlier[i];
            assert(pieces[p] == front[p]);
            lemma_names_among(front, name);
            assert forall|q: int| 0 <= q <= p implies option_name(#[trigger] pieces[q])
                != all[j] by {
                assert(pieces[q] == front[q]);
            }
        }
    }
}

/// The options of a network rule are the names that the pieces behind its first `$` give, as far
/// as they are made of ASCII letters, digits and hyphens, in the order in which they first come; a
/// rule without a `$` has none.
pub proof fn options_stand_behind_the_first_dollar(
    rule: Seq<char>,
    pattern: Seq<char>,
    opts: Seq<char>,
)
    requires
        separator(text::trim(rule)) is None,
        !pattern.contains('$'),
    ensures
        text::trim(rule) == pattern ==> options_of(rule) == Seq::<Seq<char>>::empty(),
        text::trim(rule) == pattern + seq!['$'] + opts ==> ({
            let names = options_of(rule);
            let pieces = option_pieces(opts);
            &&& forall|t: Seq<char>| #[trigger]
                names.contains(t) <==> t.len() > 0 && (forall|k: int|
                    0 <= k < t.len() ==> 'a' <= #[trigger] t[k] <= 'z' || 'A' <= t[k] <= 'Z' || '0'
                        <= t[k] <= '9' || t[k] == '-') && exists|k: int|
                    0 <= k < pieces.len() && option_name(#[trigger] pieces[k]) == t
            &&& forall|i: int, j: int|
                #![trigger names[i], names[j]]
                0 <= i < j < names.len() ==> names[i] != names[j] && exists|p: int|
                    0 <= p < pieces.len() && option_name(#[trigger] pieces[p]) == names[i]
                        && forall|q: int|
                        0 <= q <= p ==> option_name(#[trigger] pieces[q]) != names[j]
        }),
{
    text::lemma_find(pattern, '$');
    if text::trim(rule) == pattern + seq!['$'] + opts {
        lemma_options_behind_the_dollar(pattern, opts);
    }
}

/// The options of a rule that is given in its parts.
proof fn lemma_options_behind_the_dollar(pattern: Seq<char>, opts: Seq<char>)
    requires
        !pattern.contains('$'),
    ensures
        ({
            let names = network_names(pattern + seq!['$'] + opts);
            let pieces = option_pieces(opts);
            &&& forall|t: Seq<char>| #[trigger]
                names.contains(t) <==> t.len() > 0 && (forall|k: int|
                    0 <= k < t.len() ==> 'a' <= #[trigger] t[k] <= 'z' || 'A' <= t[k] <= 'Z' || '0'
                        <= t[k] <= '9' || t[k] == '-') && exists|k: int|
                    0 <= k < pieces.len() && option_name(#[trigger] pieces[k]) == t
            &&& forall|i: int, j: int|
                #![trigger names[i], names[j]]
                0 <= i < j < names.len() ==> names[i] != names[j] && exists|p: int|
                    0 <= p < pieces.len() && option_name(#[trigger] pieces[p]) == names[i]
                        && forall|q: int|
                        0 <= q <= p ==> option_name(#[trigger] pieces[q]) != names[j]
        }),
{
    let rule = pattern + seq!['$'] + opts;
    let n = pattern.len() as int;
    text::lemma_find(rule, '$');
    assert(rule[n] == '$');
    assert forall|k: int| 0 <= k < n implies rule[k] != '$' by {
        assert(pattern.contains(pattern[k]));
    }
    assert(text::find(rule, '$') == Some(n));
    assert(rule.skip(n + 1) =~= opts);
    let pieces = option_pieces(opts);
    let names = network_names(rule);
    assert(names == text::distinct(option_names(pieces)));
    text::lemma_distinct(option_names(pieces));
    assert forall|t: Seq<char>| #[trigger]
        names.contains(t) == (t.len() > 0 && (forall|k: int|
            0 <= k < t.len() ==> 'a' <= #[trigger] t[k] <= 'z' || 'A' <= t[k] <= 'Z' || '0' <= t[k]
                <= '9' || t[k] == '-') && exists|k: int|
            0 <= k < pieces.len() && option_name(#[trigger] pieces[k]) == t) by {
        assert(names.contains(t) == option_names(pieces).contains(t));
        lemma_names_among(pieces, t);
        assert(looks_like_option(t) ==> forall|k: int|
            0 <= k < t.len() ==> 'a' <= #[trigger] t[k] <= 'z' || 'A' <= t[k] <= 'Z' || '0' <= t[k]
                <= '9' || t[k] == '-') by {
            if looks_like_option(t) {
                assert forall|k: int| 0 <= k < t.len() implies 'a' <= #[trigger] t[k] <= 'z' || 'A'
                    <= t[k] <= 'Z' || '0' <= t[k] <= '9' || t[k] == '-' by {
                    assert(alphanumeric(t[k]) || t[k] == '-');
                }
            }
        }
    }
    assert forall|i: int, j: int|
        #![trigger names[i], names[j]]
        0 <= i < j < names.len() implies names[i] != names[j] && exists|p: int|
        0 <= p < pieces.len() && option_name(#[trigger] pieces[p]) == names[i] && forall|q: int|
            0 <= q <= p ==> option_name(#[trigger] pieces[q]) != names[j] by {
        lemma_names_in_order(pieces, i, j);
    }
}

/// Options without a slash are what stands between the commas.
pub proof fn plain_options_stand_between_commas(opts: Seq<char>)
    requires
        !opts.contains('/'),
    ensures
        option_pieces(opts) == text::split(opts, ','),
    decreases opts.len(),
{
    let plain = text::before(opts, ',');
    lemma_before(opts, ',');
    text::lemma_find(plain, '=');
    text::lemma_find(opts, ',');
    assert(piece_len(opts) == plain.len()) by {
        match text::find(plain, '=') {
            Some(e) => {
                if e + 1 < plain.len() {
                    assert(opts.contains(opts[e + 1]));
                }
            },
            None => {},
        }
    }
    match text::find(opts, ',') {
        Some(i) => {
            let rest = opts.skip(i + 1);
            assert forall|k: int| 0 <= k < rest.len() implies rest[k] != '/' by {
                assert(opts.contains(opts[i + 1 + k]));
            }
            plain_options_stand_between_commas(rest);
        },
        None => {},
    }
}

/// A slash that no other one closes does not hold commas together.
pub proof fn open_values_end_at_the_comma(name: Seq<char>, value: Seq<char>, rest: Seq<char>)
    requires
        looks_like_option(name),
        !value.contains(','),
        !value.contains('/'),
        !rest.contains('/'),
    ensures
        option_pieces(name + seq!['=', '/'] + value + seq![','] + rest) == seq![
            name + seq!['=', '/'] + value,
        ] + option_pieces(rest),
{
    let value_on = seq!['/'] + value + seq![','] + rest;
    let front = seq!['/'] + value;
    let piece = name + seq!['=', '/'] + value;
    let all = piece + seq![','] + rest;
    assert(all =~= name + seq!['='] + value_on);
    assert forall|k: int| 0 <= k < name.len() implies name[k] != ',' && name[k] != '=' by {
        assert(alphanumeric(name[k]) || name[k] == '-');
    }
    lemma_value(name, value_on);
    assert forall|k: int| 0 <= k < front.len() implies front[k] != ',' by {
        if k > 0 {
            assert(value.contains(value[k - 1]));
        }
    }
    text::pieces_end_at_the_separator(front, rest, ',');
    assert(value_on =~= front + seq![','] + rest);
    assert forall|k: int| 1 <= k < value_on.len() implies value_on[k] != '/' by {
        if k < front.len() {
            assert(value.contains(value[k - 1]));
        } else if k > front.len() {
            assert(rest.contains(rest[k - front.len() - 1]));
        }
    }
    lemma_no_slash(value_on, 1);
    assert(piece_len(all) == piece.len());
    assert(all.take(piece.len() as int) =~= piece);
    assert(all.skip(piece.len() as int + 1) =~= rest);
}

/// The options whose value can hold commas between slashes, those among them that also take a
/// replacement, and the flags that can stand behind the last slash.
pub proof fn patterns_are_taken_by_these(name: Seq<char>, flags: Seq<char>)
    ensures
        takes_replacement(name) <==> name == "replace"@ || name == "uritransform"@ || name
            == "urltransform"@,
        takes_pattern(name) <==> name == "replace"@ || name == "uritransform"@ || name
            == "urltransform"@ || name == "removeparam"@ || name == "queryprune"@ || name
            == "domain"@ || name == "from"@ || name == "to"@ || name == "ipaddress"@ || name
            == "cookie"@,
        only_flags(flags) <==> forall|k: int|
            0 <= k < flags.len() ==> "dgimsuvyDGIMSUVY"@.contains(#[trigger] flags[k]),
{
    reveal_strlit("dgimsuvyDGIMSUVY");
    let all = "dgimsuvyDGIMSUVY"@;
    assert(all.len() == 16);
    assert(all[0] == 'd' && all[1] == 'g' && all[2] == 'i' && all[3] == 'm' && all[4] == 's'
        && all[5] == 'u' && all[6] == 'v' && all[7] == 'y');
    assert(all[8] == 'D' && all[9] == 'G' && all[10] == 'I' && all[11] == 'M' && all[12] == 'S'
        && all[13] == 'U' && all[14] == 'V' && all[15] == 'Y');
    assert forall|k: int| 0 <= k < flags.len() implies regex_flag(flags[k]) == all.contains(
        #[trigger] flags[k],
    ) by {
        let flag = flags[k];
        if 'A' <= flag <= 'Z' {
            assert(text::lower_char(flag) as u32 == flag as u32 + 32);
        }
    }
}

/// A slash with something other than flags behind it closes no value: the option then ends at its
/// first comma. (Where the option could have a replacement, a later slash could close it.)
pub proof fn values_close_before_flags_only(
    name: Seq<char>,
    body: Seq<char>,
    junk: Seq<char>,
    rest: Seq<char>,
)
    requires
        looks_like_option(name),
        unslashed(body),
        !junk.contains(','),
        !only_flags(text::trim(junk)),
        takes_replacement(text::lower(name)) ==> !junk.contains('/') && !rest.contains('/'),
    ensures
        ({
            let opts = name + seq!['=', '/'] + body + seq!['/'] + junk + seq![','] + rest;
            option_pieces(opts)[0] == text::before(opts, ',')
        }),
{
    let s = name + seq!['=', '/'] + body + seq!['/'] + junk + seq![','] + rest;
    let v = name.len() as int + 1;
    let second = v + 1 + body.len();
    assert(s.subrange(v + 1, v + 1 + body.len()) =~= body);
    assert(s[second] == '/');
    lemma_next_slash(s, v + 1, body);
    let behind = s.skip(second + 1);
    assert(behind =~= junk + seq![','] + rest);
    text::pieces_end_at_the_separator(junk, rest, ',');
    assert(!can_close(s, second));
    if takes_replacement(text::lower(name)) {
        assert forall|k: int| second + 1 <= k < s.len() implies s[k] != '/' by {
            let i = k - second - 1;
            assert(s[k] == behind[i]);
            if i < junk.len() {
                assert(junk.contains(junk[i]));
            } else if i > junk.len() {
                assert(rest.contains(rest[i - junk.len() - 1]));
            }
        }
        lemma_no_slash(s, second + 1);
    }
    let plain = text::before(s, ',');
    lemma_before(s, ',');
    let n = name.len() as int;
    assert(s[n] == '=' && s[n + 1] == '/');
    assert forall|k: int| 0 <= k < n implies s[k] != ',' && s[k] != '=' by {
        assert(s[k] == name[k]);
        assert(alphanumeric(name[k]) || name[k] == '-');
    }
    assert(plain.len() >= n + 2);
    text::lemma_find(plain, '=');
    assert(plain[n] == '=');
    assert(text::find(plain, '=') == Some(n));
    assert(plain =~= name + seq!['='] + plain.skip(n + 1));
    lemma_option_name(name, plain.skip(n + 1));
    assert(piece_len(s) == plain.len());
}

/// A value that could have a replacement, but has none that closes, ends behind its pattern if
/// that closes.
pub proof fn replacements_can_be_left_out(
    name: Seq<char>,
    body: Seq<char>,
    flags: Seq<char>,
    more: Seq<char>,
    junk: Seq<char>,
)
    requires
        looks_like_option(name),
        takes_replacement(text::lower(name)),
        unslashed(body),
        only_flags(text::trim(flags)),
        unslashed(flags + seq![','] + more),
        !only_flags(text::trim(text::before(junk, ','))),
    ensures
        ({
            let value = pattern_option(name, body, flags);
            let rest = more + seq!['/'] + junk;
            option_pieces(value + seq![','] + rest) == seq![value] + option_pieces(rest)
        }),
{
    let value = pattern_option(name, body, flags);
    let rest = more + seq!['/'] + junk;
    let tail = seq![','] + rest;
    let s = value + tail;
    let between = flags + seq![','] + more;
    let v = name.len() as int + 1;
    let second = v + 1 + body.len();
    let third = second + 1 + between.len();
    assert(s.subrange(v + 1, v + 1 + body.len()) =~= body);
    assert(s[second] == '/');
    lemma_next_slash(s, v + 1, body);
    assert(s.subrange(second + 1, second + 1 + between.len()) =~= between);
    assert(s[third] == '/');
    lemma_next_slash(s, second + 1, between);
    assert(s.skip(second + 1) =~= flags + tail);
    lemma_can_close(s, second, flags, tail);
    assert(s.skip(third + 1) =~= junk);
    assert(!can_close(s, third));
    let opened = body + seq!['/'] + flags + tail;
    assert(s =~= name + seq!['=', '/'] + opened);
    lemma_opening(name, opened);
    assert(piece_len(s) == value.len());
    assert(value + seq![','] + rest =~= s);
    assert(s.take(value.len() as int) =~= value);
    assert(s.skip(value.len() as int + 1) =~= rest);
}

/// An option without a value ends at the first comma, whatever follows; and text without a comma is
/// one option.
pub proof fn options_without_value_end_at_the_comma(
    piece: Seq<char>,
    rest: Seq<char>,
    last: Seq<char>,
)
    requires
        !piece.contains(','),
        !piece.contains('='),
        !last.contains(','),
    ensures
        option_pieces(piece + seq![','] + rest) == seq![piece] + option_pieces(rest),
        option_pieces(last) == seq![last],
{
    let all = piece + seq![','] + rest;
    text::pieces_end_at_the_separator(piece, rest, ',');
    text::lemma_find(piece, '=');
    assert(piece_len(all) == piece.len());
    assert(all.take(piece.len() as int) =~= piece);
    assert(all.skip(piece.len() as int + 1) =~= rest);

    text::pieces_end_at_the_separator(last, rest, ',');
    assert forall|k: int| 0 <= k < last.len() implies text::before(#[trigger] last.skip(k + 1), ',')
        == last.skip(k + 1) by {
        let t = last.skip(k + 1);
        assert forall|i: int| 0 <= i < t.len() implies t[i] != ',' by {
            assert(last.contains(last[k + 1 + i]));
        }
        text::pieces_end_at_the_separator(t, rest, ',');
    }
    assert(piece_len(last) == last.len()) by {
        text::lemma_find(last, '=');
        if let Some(e) = text::find(last, '=') {
            lemma_closing_slash(last, e + 1, takes_replacement(option_name(last)));
            if let Some(k) = closing_slash(last, e + 1, takes_replacement(option_name(last))) {
                assert(text::before(last.skip(k + 1), ',') == last.skip(k + 1));
            }
        }
    }
}

/// A slash that is found stands in the text.
proof fn lemma_slash_found(s: Seq<char>, i: int)
    requires
        0 <= i,
    ensures
        next_slash(s, i) matches Some(k) ==> i <= k < s.len(),
    decreases s.len() - i,
{
    if i < s.len() && s[i] != '/' {
        if s[i] == '\\' {
            if i + 1 < s.len() {
                lemma_slash_found(s, i + 2);
            }
        } else {
            lemma_slash_found(s, i + 1);
        }
    }
}

proof fn lemma_closing_slash(s: Seq<char>, v: int, replacement: bool)
    requires
        0 <= v,
    ensures
        closing_slash(s, v, replacement) matches Some(k) ==> v < k < s.len(),
{
    lemma_slash_found(s, v + 1);
    if let Some(second) = next_slash(s, v + 1) {
        lemma_slash_found(s, second + 1);
    }
}

/// Only the name that an option's text gives decides how its value is read: however the same name
/// is written before the `=`, the option ends at the same place of what follows it.
pub proof fn names_decide_how_values_are_read(a: Seq<char>, b: Seq<char>, value: Seq<char>)
    requires
        !a.contains(',') && !a.contains('='),
        !b.contains(',') && !b.contains('='),
        option_name(a) == option_name(b),
    ensures
        piece_len(a + seq!['='] + value) - a.len() == piece_len(b + seq!['='] + value) - b.len(),
        option_pieces(a + seq!['='] + value).len() == option_pieces(b + seq!['='] + value).len(),
        option_pieces(a + seq!['='] + value).skip(1) == option_pieces(b + seq!['='] + value).skip(
            1,
        ),
{
    lemma_value(a, value);
    lemma_value(b, value);
    let s = a + seq!['='] + value;
    let t = b + seq!['='] + value;
    let m = piece_len(s);
    let n = piece_len(t);
    assert(m - a.len() == n - b.len());
    lemma_piece_len(s);
    lemma_piece_len(t);
    if m < s.len() {
        assert(s.skip(m + 1) =~= t.skip(n + 1));
        assert(option_pieces(s) == seq![s.take(m)] + option_pieces(s.skip(m + 1)));
        assert(option_pieces(t) == seq![t.take(n)] + option_pieces(t.skip(n + 1)));
        assert(option_pieces(s).skip(1) =~= option_pieces(s.skip(m + 1)));
        assert(option_pieces(t).skip(1) =~= option_pieces(t.skip(n + 1)));
    } else {
        assert(option_pieces(s).skip(1) =~= option_pieces(t).skip(1));
    }
}

proof fn lemma_piece_len(s: Seq<char>)
    ensures
        0 <= piece_len(s) <= s.len(),
{
    let plain = text::before(s, ',');
    lemma_before(s, ',');
    text::lemma_find(plain, '=');
    if let Some(e) = text::find(plain, '=') {
        let replacement = takes_replacement(option_name(plain));
        lemma_closing_slash(s, e + 1, replacement);
        if let Some(k) = closing_slash(s, e + 1, replacement) {
            lemma_before(s.skip(k + 1), ',');
        }
    }
}

/// How far the option with the name reaches into what follows its `=`.
spec fn value_len(name: Seq<char>, value: Seq<char>) -> int {
    let end = text::before(value, ',').len() as int;
    if end > 0 && value[0] == '/' && takes_pattern(name) {
        match closing_slash(value, 0, takes_replacement(name)) {
            Some(k) => k + 1 + text::before(value.skip(k + 1), ',').len(),
            None => end,
        }
    } else {
        end
    }
}

proof fn lemma_value(front: Seq<char>, value: Seq<char>)
    requires
        !front.contains(',') && !front.contains('='),
    ensures
        piece_len(front + seq!['='] + value) == front.len() + 1 + value_len(
            option_name(front),
            value,
        ),
        value_len(option_name(front), value) >= 0,
{
    let s = front + seq!['='] + value;
    let n = front.len() as int;
    let p = front + seq!['='];
    assert(!p.contains(',')) by {
        assert forall|k: int| 0 <= k < p.len() implies p[k] != ',' by {
            if k < n {
                assert(front.contains(front[k]));
            }
        }
    }
    text::lemma_find(p, ',');
    text::lemma_find(value, ',');
    text::lemma_find_concat(p, value, ',');
    let end = text::before(value, ',').len() as int;
    lemma_before(value, ',');
    let plain = text::before(s, ',');
    assert(plain =~= p + text::before(value, ','));
    text::lemma_find(front, '=');
    let more = seq!['='] + text::before(value, ',');
    assert(plain =~= front + more);
    text::lemma_find_concat(front, more, '=');
    assert(more.first() == '=');
    assert(text::find(plain, '=') == Some(n));
    assert(plain =~= front + seq!['='] + text::before(value, ','));
    lemma_name_before_value(front, text::before(value, ','));
    assert(option_name(plain) == option_name(front));
    if end > 0 {
        assert(s[n + 1] == value[0]);
        lemma_shifted_closing(p, value, takes_replacement(option_name(front)));
        lemma_closing_slash(value, 0, takes_replacement(option_name(front)));
        if let Some(k) = closing_slash(value, 0, takes_replacement(option_name(front))) {
            assert(s.skip(n + 1 + k + 1) =~= value.skip(k + 1));
        }
    }
}

/// What stands in front of a value moves the slash that closes it.
proof fn lemma_shifted_closing(p: Seq<char>, value: Seq<char>, replacement: bool)
    ensures
        closing_slash(p + value, p.len() as int, replacement) == (match closing_slash(
            value,
            0,
            replacement,
        ) {
            Some(k) => Some(p.len() + k),
            None => None,
        }),
{
    let s = p + value;
    lemma_shifted_slash(p, value, 1);
    lemma_slash_found(value, 1);
    if let Some(second) = next_slash(value, 1) {
        lemma_shifted_slash(p, value, second + 1);
        lemma_slash_found(value, second + 1);
        assert(s.skip(p.len() + second + 1) =~= value.skip(second + 1));
        if let Some(third) = next_slash(value, second + 1) {
            assert(s.skip(p.len() + third + 1) =~= value.skip(third + 1));
        }
    }
}

proof fn lemma_shifted_slash(p: Seq<char>, value: Seq<char>, i: int)
    requires
        0 <= i,
    ensures
        next_slash(p + value, p.len() + i) == (match next_slash(value, i) {
            Some(k) => Some(p.len() + k),
            None => None,
        }),
    decreases value.len() - i,
{
    if i < value.len() {
        assert((p + value)[p.len() + i] == value[i]);
        if value[i] != '/' {
            if value[i] == '\\' {
                if i + 1 < value.len() {
                    lemma_shifted_slash(p, value, i + 2);
                }
            } else {
                lemma_shifted_slash(p, value, i + 1);
            }
        }
    }
}

/// The name does not depend on the value behind it.
proof fn lemma_name_before_value(front: Seq<char>, value: Seq<char>)
    requires
        !front.contains('='),
    ensures
        option_name(front + seq!['='] + value) == option_name(front),
{
    let all = front + seq!['='] + value;
    let rest = seq!['='] + value;
    assert(all =~= front + rest);
    let core = text::trim_start(front);
    lemma_trim_start_kept(front, rest);
    text::lemma_trim_end(core + rest);
    let whole = text::trim_end(core + rest);
    let n = core.len() as int;
    assert((core + rest)[n] == '=');
    assert(whole.len() > n);
    let back = whole.skip(n);
    assert(whole =~= core + back);
    assert(back[0] == '=');
    assert(text::trim(all) == core + back);
    lemma_strip_kept(core, back);
    let named = text::strip_front(core, '~');
    assert(!named.contains('=')) by {
        lemma_trim_start_inside(front);
        lemma_strip_inside(core);
    }
    assert(named + back =~= named + seq!['='] + back.skip(1));
    text::pieces_end_at_the_separator(named, back.skip(1), '=');

    let short = text::trim_end(core);
    text::lemma_trim_end(core);
    let cut = core.skip(short.len() as int);
    assert(core =~= short + cut);
    assert forall|k: int| 0 <= k < cut.len() implies text::white_space(#[trigger] cut[k]) by {
        assert(cut[k] == core[short.len() + k]);
    }
    lemma_strip_trimmed(short, cut);
    let less = text::strip_front(short, '~');
    assert(!less.contains('=')) by {
        assert forall|k: int| 0 <= k < short.len() implies short[k] != '=' by {
            lemma_trim_start_inside(front);
            assert(core.contains(core[k]));
        }
        lemma_strip_inside(short);
    }
    text::pieces_end_at_the_separator(less, Seq::empty(), '=');
    assert(text::trim(named) == text::trim(less));
}

proof fn lemma_trim_start_kept(front: Seq<char>, rest: Seq<char>)
    requires
        rest.len() > 0,
        rest[0] == '=',
    ensures
        text::trim_start(front + rest) == text::trim_start(front) + rest,
    decreases front.len(),
{
    if front.len() == 0 {
        assert(front + rest =~= rest);
        assert(text::trim_start(front) + rest =~= rest);
    } else {
        assert((front + rest).first() == front[0]);
        if text::white_space(front[0]) {
            assert((front + rest).skip(1) =~= front.skip(1) + rest);
            lemma_trim_start_kept(front.skip(1), rest);
        }
    }
}

proof fn lemma_trim_start_inside(s: Seq<char>)
    requires
        !s.contains('='),
    ensures
        !text::trim_start(s).contains('='),
    decreases s.len(),
{
    if s.len() > 0 && text::white_space(s.first()) {
        let t = s.skip(1);
        assert forall|k: int| 0 <= k < t.len() implies t[k] != '=' by {
            assert(s.contains(s[k + 1]));
        }
        lemma_trim_start_inside(t);
    }
}

proof fn lemma_strip_inside(s: Seq<char>)
    requires
        !s.contains('='),
    ensures
        !text::strip_front(s, '~').contains('='),
    decreases s.len(),
{
    if s.len() > 0 && s.first() == '~' {
        let t = s.skip(1);
        assert forall|k: int| 0 <= k < t.len() implies t[k] != '=' by {
            assert(s.contains(s[k + 1]));
        }
        lemma_strip_inside(t);
    }
}

proof fn lemma_strip_kept(core: Seq<char>, back: Seq<char>)
    requires
        back.len() > 0,
        back[0] != '~',
    ensures
        text::strip_front(core + back, '~') == text::strip_front(core, '~') + back,
    decreases core.len(),
{
    if core.len() == 0 {
        assert(core + back =~= back);
        assert(text::strip_front(core, '~') + back =~= back);
    } else {
        assert((core + back).first() == core[0]);
        if core[0] == '~' {
            assert((core + back).skip(1) =~= core.skip(1) + back);
            lemma_strip_kept(core.skip(1), back);
        }
    }
}

/// White space behind a text is trimmed off whether or not a run is taken off its front first.
proof fn lemma_strip_trimmed(short: Seq<char>, cut: Seq<char>)
    requires
        forall|k: int| 0 <= k < cut.len() ==> text::white_space(#[trigger] cut[k]),
    ensures
        text::trim(text::strip_front(short + cut, '~')) == text::trim(
            text::strip_front(short, '~'),
        ),
    decreases cut.len(),
{
    if cut.len() == 0 {
        assert(short + cut =~= short);
    } else {
        let less = cut.drop_last();
        assert forall|k: int| 0 <= k < less.len() implies text::white_space(#[trigger] less[k]) by {
            assert(less[k] == cut[k]);
        }
        lemma_strip_trimmed(short, less);
        let c = cut[cut.len() - 1];
        assert(text::white_space(c));
        let part = short + less;
        assert(short + cut =~= part + seq![c]);
        lemma_strip_kept(part, seq![c]);
        let kept = text::strip_front(part, '~');
        assert(kept + seq![c] =~= kept.push(c));
        text::lemma_trim_push(kept, c);
    }
}

/// White space around a rule changes none of its options, and none is named twice.
pub proof fn options_are_found_in_any_place(
    rule: &str,
    other: &str,
    a: Vec<String>,
    b: Vec<String>,
)
    requires
        call_ensures(rule_options, (rule,), a),
        call_ensures(rule_options, (other,), b),
        text::trim(rule@) == text::trim(other@),
    ensures
        text::of_strings(a@) == text::of_strings(b@),
        text::of_strings(a@).no_duplicates(),
        text::of_strings(a@) == options_of(text::trim(rule@)),
{
    options_are_distinct(rule@);
    options_ignore_surrounding_space(rule@);
}

} // verus!
