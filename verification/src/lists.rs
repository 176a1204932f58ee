//! Filter lists: where they come from, and which of their lines are rules.

use vstd::prelude::*;

use crate::chars;
use crate::text;

verus! {

pub const UBO_URL: &'static str =
    "https://raw.githubusercontent.com/uBlockOrigin/uAssets/master/filters/filters.txt";

pub const EASYLIST_URL: &'static str = "https://easylist.to/easylist/easylist.txt";

pub const EASYPRIVACY_URL: &'static str = "https://easylist.to/easylist/easyprivacy.txt";

/// The URL that a preset's name or an http(s) URL stands for, or what is wrong with the value.
pub open spec fn resolved(value: Seq<char>) -> Result<Seq<char>, Seq<char>> {
    if value == "ubo"@ {
        Ok(UBO_URL@)
    } else if value == "easylist"@ {
        Ok(EASYLIST_URL@)
    } else if value == "easyprivacy"@ {
        Ok(EASYPRIVACY_URL@)
    } else if text::starts_with(value, "http://"@) || text::starts_with(value, "https://"@) {
        Ok(value)
    } else {
        Err(
            "unknown list '"@ + value
                + "': use ubo, easylist, easyprivacy, or an http(s) URL"@,
        )
    }
}

/// The texts of a result of strings.
pub open spec fn texts_of(r: Result<String, String>) -> Result<Seq<char>, Seq<char>> {
    match r {
        Ok(s) => Ok(s@),
        Err(e) => Err(e@),
    }
}

/// Resolves a list, given by the name of a preset or by an http(s) URL, to a URL.
pub fn resolve_list(value: &str) -> (r: Result<String, String>)
    ensures
        texts_of(r) == resolved(value@),
{
    let v: Vec<char> = chars::chars_of(value);
    let v: &[char] = v.as_slice();
    if chars::same(v, chars::chars_of("ubo").as_slice()) {
        Ok(UBO_URL.to_string())
    } else if chars::same(v, chars::chars_of("easylist").as_slice()) {
        Ok(EASYLIST_URL.to_string())
    } else if chars::same(v, chars::chars_of("easyprivacy").as_slice()) {
        Ok(EASYPRIVACY_URL.to_string())
    } else if chars::starts_with(v, chars::chars_of("http://").as_slice()) || chars::starts_with(
        v,
        chars::chars_of("https://").as_slice(),
    ) {
        Ok(value.to_string())
    } else {
        let mut message: Vec<char> = chars::chars_of("unknown list '");
        chars::append(&mut message, v);
        chars::append_str(
            &mut message,
            "': use ubo, easylist, easyprivacy, or an http(s) URL",
        );
        Err(chars::string_of(message.as_slice()))
    }
}

/// The pieces, trimmed, without those that are empty then.
pub open spec fn trimmed(pieces: Seq<Seq<char>>) -> Seq<Seq<char>>
    decreases pieces.len(),
{
    if pieces.len() == 0 {
        Seq::empty()
    } else {
        let earlier = trimmed(pieces.drop_last());
        let last = text::trim(pieces.last());
        if last.len() == 0 {
            earlier
        } else {
            earlier.push(last)
        }
    }
}

/// The tokens between the commas of all values, in order.
pub open spec fn tokens(values: Seq<Seq<char>>) -> Seq<Seq<char>>
    decreases values.len(),
{
    if values.len() == 0 {
        Seq::empty()
    } else {
        tokens(values.drop_last()) + trimmed(text::split(values.last(), ','))
    }
}

/// Puts the tokens of one value behind `out`.
fn push_tokens(out: &mut Vec<String>, value: &str)
    ensures
        text::of_strings(final(out)@) == text::of_strings(old(out)@) + trimmed(
            text::split(value@, ','),
        ),
{
    let all: Vec<char> = chars::chars_of(value);
    let pieces: Vec<&[char]> = chars::split(all.as_slice(), ',');
    let ghost parts = text::of_slices(pieces@);
    let ghost start = text::of_strings(out@);
    let n: usize = pieces.len();
    let mut i: usize = 0;
    assert(start + trimmed(parts.take(0)) == start);
    while i < n
        invariant
            i <= n == pieces@.len(),
            parts == text::of_slices(pieces@),
            text::of_strings(out@) == start + trimmed(parts.take(i as int)),
        decreases n - i,
    {
        assert(parts.take(i + 1).drop_last() == parts.take(i as int));
        let ghost before = out@;
        let piece: &[char] = chars::trim(pieces[i]);
        assert(piece@ == text::trim(parts[i as int]));
        if piece.len() > 0 {
            out.push(chars::string_of(piece));
            assert(text::of_strings(out@) == text::of_strings(before).push(piece@));
            assert(text::of_strings(out@) == start + trimmed(parts.take(i + 1)));
        }
        i += 1;
    }
    assert(parts.take(n as int) == parts);
}

/// Expands values, comma-separated or repeated, into tokens, trimmed, with empty ones dropped.
pub fn list_tokens(values: &[String]) -> (r: Vec<String>)
    ensures
        text::of_strings(r@) == tokens(text::of_strings(values@)),
{
    let mut out: Vec<String> = Vec::new();
    let ghost all = text::of_strings(values@);
    let n: usize = values.len();
    let mut i: usize = 0;
    assert(text::of_strings(out@) == tokens(all.take(0)));
    while i < n
        invariant
            i <= n == values@.len(),
            all == text::of_strings(values@),
            text::of_strings(out@) == tokens(all.take(i as int)),
        decreases n - i,
    {
        assert(all.take(i + 1).drop_last() == all.take(i as int));
        push_tokens(&mut out, values[i].as_str());
        i += 1;
    }
    assert(all.take(n as int) == all);
    out
}

/// Is a trimmed line a rule: not empty, no comment and no header?
pub open spec fn filter_line(line: Seq<char>) -> bool {
    line.len() > 0 && line.first() != '!' && line.first() != '['
}

/// Is a trimmed line a rule: not empty, no comment (`! ...`) and no header (`[...]`)?
pub fn is_filter_line(line: &str) -> (r: bool)
    ensures
        r == filter_line(line@),
{
    let line: Vec<char> = chars::chars_of(line);
    line.len() > 0 && line[0] != '!' && line[0] != '['
}

/// The rules among lines, trimmed and in order.
pub open spec fn rules_among(lines: Seq<Seq<char>>) -> Seq<Seq<char>>
    decreases lines.len(),
{
    if lines.len() == 0 {
        Seq::empty()
    } else {
        let earlier = rules_among(lines.drop_last());
        let last = text::trim(lines.last());
        if filter_line(last) {
            earlier.push(last)
        } else {
            earlier
        }
    }
}

/// The rules of a list. (A carriage return before the line feed is white space.)
pub open spec fn rules_in(list: Seq<char>) -> Seq<Seq<char>> {
    rules_among(text::split(list, '\n'))
}

/// The rules of a list: its lines, trimmed, without the empty ones, comments and headers.
pub fn list_rules(list: &str) -> (r: Vec<String>)
    ensures
        text::of_strings(r@) == rules_in(list@),
{
    let mut out: Vec<String> = Vec::new();
    let all: Vec<char> = chars::chars_of(list);
    let lines: Vec<&[char]> = chars::split(all.as_slice(), '\n');
    let ghost parts = text::of_slices(lines@);
    let n: usize = lines.len();
    let mut i: usize = 0;
    assert(text::of_strings(out@) == rules_among(parts.take(0)));
    while i < n
        invariant
            i <= n == lines@.len(),
            parts == text::of_slices(lines@),
            text::of_strings(out@) == rules_among(parts.take(i as int)),
        decreases n - i,
    {
        assert(parts.take(i + 1).drop_last() == parts.take(i as int));
        let ghost before = out@;
        let line: &[char] = chars::trim(lines[i]);
        assert(line@ == text::trim(parts[i as int]));
        let rule: String = chars::string_of(line);
        if is_filter_line(rule.as_str()) {
            out.push(rule);
            assert(text::of_strings(out@) == text::of_strings(before).push(line@));
        }
        i += 1;
    }
    assert(parts.take(n as int) == parts);
    out
}

proof fn lemma_trimmed(pieces: Seq<Seq<char>>, t: Seq<char>)
    requires
        trimmed(pieces).contains(t),
    ensures
        t.len() > 0,
        text::trim(t) == t,
        exists|k: int| 0 <= k < pieces.len() && t == text::trim(#[trigger] pieces[k]),
    decreases pieces.len(),
{
    if pieces.len() > 0 {
        let earlier = trimmed(pieces.drop_last());
        let last = text::trim(pieces.last());
        text::lemma_push_contains(earlier, last, t);
        if earlier.contains(t) {
            lemma_trimmed(pieces.drop_last(), t);
            let k = choose|k: int|
                0 <= k < pieces.drop_last().len() && t == text::trim(
                    #[trigger] pieces.drop_last()[k],
                );
            assert(pieces[k] == pieces.drop_last()[k]);
        } else {
            text::lemma_trim_twice(pieces.last());
            assert(pieces[pieces.len() - 1] == pieces.last());
        }
    }
}

proof fn lemma_trimmed_concat(a: Seq<Seq<char>>, b: Seq<Seq<char>>)
    ensures
        trimmed(a + b) == trimmed(a) + trimmed(b),
    decreases b.len(),
{
    if b.len() == 0 {
        assert(a + b == a);
    } else {
        assert((a + b).drop_last() == a + b.drop_last());
        assert((a + b).last() == b.last());
        lemma_trimmed_concat(a, b.drop_last());
    }
}

/// A token is not empty, has no white space around it and holds no comma.
pub proof fn tokens_are_clean(values: Seq<Seq<char>>, t: Seq<char>)
    requires
        tokens(values).contains(t),
    ensures
        t.len() > 0,
        text::trim(t) == t,
        !t.contains(','),
    decreases values.len(),
{
    if values.len() > 0 {
        let earlier = tokens(values.drop_last());
        let pieces = text::split(values.last(), ',');
        let k = choose|k: int| 0 <= k < tokens(values).len() && tokens(values)[k] == t;
        if k < earlier.len() {
            assert(earlier[k] == t);
            tokens_are_clean(values.drop_last(), t);
        } else {
            assert(trimmed(pieces)[k - earlier.len()] == t);
            lemma_trimmed(pieces, t);
            text::lemma_split_pieces(values.last(), ',');
            let j = choose|j: int| 0 <= j < pieces.len() && t == text::trim(#[trigger] pieces[j]);
            text::lemma_trim(pieces[j]);
            let at = choose|at: int| text::occurs_at(pieces[j], t, at);
            if t.contains(',') {
                let m = choose|m: int| 0 <= m < t.len() && t[m] == ',';
                assert(pieces[j].subrange(at, at + t.len())[m] == pieces[j][at + m]);
                assert(pieces[j].contains(','));
            }
        }
    }
}

/// It does not matter whether values are repeated or put together with a comma.
pub proof fn commas_stand_for_repetition(values: Seq<Seq<char>>, a: Seq<char>, b: Seq<char>)
    ensures
        tokens(values.push(a + seq![','] + b)) == tokens(values.push(a).push(b)),
{
    text::lemma_split_concat(a, b, ',');
    lemma_trimmed_concat(text::split(a, ','), text::split(b, ','));
    let both = a + seq![','] + b;
    assert(values.push(both).drop_last() == values);
    assert(values.push(a).push(b).drop_last() == values.push(a));
    assert(values.push(a).drop_last() == values);
    assert(tokens(values.push(a)) == tokens(values) + trimmed(text::split(a, ',')));
}

/// A stray flag in the place of a list is refused.
pub proof fn flags_are_no_lists(value: Seq<char>)
    requires
        value.len() > 0,
        value.first() == '-',
    ensures
        resolved(value) is Err,
{
    reveal_strlit("ubo");
    reveal_strlit("easylist");
    reveal_strlit("easyprivacy");
    reveal_strlit("http://");
    reveal_strlit("https://");
    assert("ubo"@[0] == 'u' && "easylist"@[0] == 'e' && "easyprivacy"@[0] == 'e');
    if text::starts_with(value, "http://"@) {
        assert(value.subrange(0, 7)[0] == 'h');
    }
    if text::starts_with(value, "https://"@) {
        assert(value.subrange(0, 8)[0] == 'h');
    }
}

proof fn lemma_rules_among(lines: Seq<Seq<char>>, rule: Seq<char>)
    requires
        rules_among(lines).contains(rule),
    ensures
        filter_line(rule),
        text::trim(rule) == rule,
        exists|k: int| 0 <= k < lines.len() && rule == text::trim(#[trigger] lines[k]),
    decreases lines.len(),
{
    if lines.len() > 0 {
        let earlier = rules_among(lines.drop_last());
        let last = text::trim(lines.last());
        text::lemma_push_contains(earlier, last, rule);
        if earlier.contains(rule) {
            lemma_rules_among(lines.drop_last(), rule);
            let k = choose|k: int|
                0 <= k < lines.drop_last().len() && rule == text::trim(
                    #[trigger] lines.drop_last()[k],
                );
            assert(lines[k] == lines.drop_last()[k]);
        } else {
            text::lemma_trim_twice(lines.last());
            assert(lines[lines.len() - 1] == lines.last());
        }
    }
}

/// A rule of a list is one of its lines without the white space around it, and neither empty nor
/// a comment nor a header.
pub proof fn rules_are_trimmed_lines(list: Seq<char>, rule: Seq<char>)
    requires
        rules_in(list).contains(rule),
    ensures
        filter_line(rule),
        text::trim(rule) == rule,
        exists|k: int|
            0 <= k < text::split(list, '\n').len() && rule == text::trim(
                #[trigger] text::split(list, '\n')[k],
            ),
{
    lemma_rules_among(text::split(list, '\n'), rule);
}

/// Every line that is a rule once the white space around it is gone is among the rules.
pub proof fn no_rule_is_lost(list: Seq<char>, k: int)
    requires
        0 <= k < text::split(list, '\n').len(),
        filter_line(text::trim(text::split(list, '\n')[k])),
    ensures
        rules_in(list).contains(text::trim(text::split(list, '\n')[k])),
{
    lemma_no_line_is_lost(text::split(list, '\n'), k);
}

proof fn lemma_no_line_is_lost(lines: Seq<Seq<char>>, k: int)
    requires
        0 <= k < lines.len(),
        filter_line(text::trim(lines[k])),
    ensures
        rules_among(lines).contains(text::trim(lines[k])),
    decreases lines.len(),
{
    let earlier = rules_among(lines.drop_last());
    text::lemma_push_contains(earlier, text::trim(lines.last()), text::trim(lines[k]));
    if k < lines.len() - 1 {
        lemma_no_line_is_lost(lines.drop_last(), k);
    }
}

/// A carriage return at the end of a line does not change what rule the line holds.
pub proof fn carriage_returns_do_not_count(line: Seq<char>)
    ensures
        text::trim(line.push('\r')) == text::trim(line),
{
    text::lemma_trim_push(line, '\r');
}

/// A preset's name stands for the list's own address, an http(s) URL for itself, and everything
/// else is refused in words that repeat it.
pub proof fn values_resolve_to_these(value: Seq<char>)
    ensures
        resolved("ubo"@) == Ok::<Seq<char>, Seq<char>>(
            "https://raw.githubusercontent.com/uBlockOrigin/uAssets/master/filters/filters.txt"@,
        ),
        resolved("easylist"@) == Ok::<Seq<char>, Seq<char>>(
            "https://easylist.to/easylist/easylist.txt"@,
        ),
        resolved("easyprivacy"@) == Ok::<Seq<char>, Seq<char>>(
            "https://easylist.to/easylist/easyprivacy.txt"@,
        ),
        resolved("http://"@ + value) == Ok::<Seq<char>, Seq<char>>("http://"@ + value),
        resolved("https://"@ + value) == Ok::<Seq<char>, Seq<char>>("https://"@ + value),
        value != "ubo"@ && value != "easylist"@ && value != "easyprivacy"@ && !text::starts_with(
            value,
            "http://"@,
        ) && !text::starts_with(value, "https://"@) ==> resolved(value) == Err::<
            Seq<char>,
            Seq<char>,
        >("unknown list '"@ + value + "': use ubo, easylist, easyprivacy, or an http(s) URL"@),
{
    reveal_strlit("ubo");
    reveal_strlit("easylist");
    reveal_strlit("easyprivacy");
    reveal_strlit("http://");
    reveal_strlit("https://");
    assert("ubo"@[0] == 'u' && "easylist"@[0] == 'e' && "easyprivacy"@[0] == 'e');
    assert("ubo"@.len() == 3 && "easylist"@.len() == 8 && "easyprivacy"@.len() == 11);
    let plain = "http://"@ + value;
    let secure = "https://"@ + value;
    assert(plain[0] == 'h' && secure[0] == 'h');
    assert(plain.subrange(0, 7) =~= "http://"@);
    assert(secure.subrange(0, 8) =~= "https://"@);
}

/// Each value without a comma gives one token, itself without the white space around it, behind
/// those of the values before it; one that is empty then gives none.
pub proof fn each_token_is_listed(values: Seq<Seq<char>>, value: Seq<char>)
    requires
        !value.contains(','),
    ensures
        tokens(Seq::empty()) == Seq::<Seq<char>>::empty(),
        tokens(values.push(value)) == (if text::trim(value).len() > 0 {
            tokens(values).push(text::trim(value))
        } else {
            tokens(values)
        }),
{
    text::pieces_end_at_the_separator(value, Seq::empty(), ',');
    assert(values.push(value).drop_last() =~= values);
    let one = seq![value];
    assert(one.drop_last() =~= Seq::<Seq<char>>::empty());
    assert(trimmed(one.drop_last()) =~= Seq::<Seq<char>>::empty());
    assert(one.last() == value);
    assert(tokens(values.push(value)) =~= (if text::trim(value).len() > 0 {
        tokens(values).push(text::trim(value))
    } else {
        tokens(values)
    }));
}

proof fn lemma_rules_among_concat(a: Seq<Seq<char>>, b: Seq<Seq<char>>)
    ensures
        rules_among(a + b) == rules_among(a) + rules_among(b),
    decreases b.len(),
{
    if b.len() == 0 {
        assert(a + b =~= a);
        assert(rules_among(a) + rules_among(b) =~= rules_among(a));
    } else {
        assert((a + b).drop_last() =~= a + b.drop_last());
        assert((a + b).last() == b.last());
        lemma_rules_among_concat(a, b.drop_last());
        assert(rules_among(a + b) =~= rules_among(a) + rules_among(b));
    }
}

/// A list is read line by line, from the top: a line without the white space around it is a rule
/// unless it is empty then or starts with `!` or `[`.
pub proof fn lists_are_read_line_by_line(list: Seq<char>, line: Seq<char>)
    requires
        !line.contains('\n'),
    ensures
        ({
            let t = text::trim(line);
            let here = if t.len() > 0 && t[0] != '!' && t[0] != '[' {
                seq![t]
            } else {
                Seq::empty()
            };
            &&& rules_in(line) == here
            &&& rules_in(list + seq!['\n'] + line) == rules_in(list) + here
        }),
{
    text::pieces_end_at_the_separator(line, Seq::empty(), '\n');
    let one = seq![line];
    assert(one.drop_last() =~= Seq::<Seq<char>>::empty());
    assert(rules_among(one.drop_last()) =~= Seq::<Seq<char>>::empty());
    assert(one.last() == line);
    text::lemma_split_concat(list, line, '\n');
    lemma_rules_among_concat(text::split(list, '\n'), text::split(line, '\n'));
}

/// Whether a line is a rule hangs on its first character alone: an empty line is none, nor is one
/// that starts with `!` or `[`, and what follows does not matter.
pub proof fn first_characters_tell_rules(c: char, rest: Seq<char>)
    ensures
        filter_line(seq![c] + rest) <==> c != '!' && c != '[',
        !filter_line(Seq::empty()),
{
    assert((seq![c] + rest).first() == c);
}

} // verus!
