//! The mathematics of rule text: every function here is a specification over
//! sequences of characters.

use vstd::prelude::*;

verus! {

/// The characters that have Unicode's `White_Space` property.
pub open spec fn white_space(c: char) -> bool {
    let n = c as u32;
    ||| 0x9 <= n <= 0xd
    ||| n == 0x20
    ||| n == 0x85
    ||| n == 0xa0
    ||| n == 0x1680
    ||| 0x2000 <= n <= 0x200a
    ||| n == 0x2028
    ||| n == 0x2029
    ||| n == 0x202f
    ||| n == 0x205f
    ||| n == 0x3000
}

/// `s` without its leading white space.
pub open spec fn trim_start(s: Seq<char>) -> Seq<char>
    decreases s.len(),
{
    if s.len() > 0 && white_space(s.first()) {
        trim_start(s.skip(1))
    } else {
        s
    }
}

/// `s` without its trailing white space.
pub open spec fn trim_end(s: Seq<char>) -> Seq<char>
    decreases s.len(),
{
    if s.len() > 0 && white_space(s.last()) {
        trim_end(s.drop_last())
    } else {
        s
    }
}

/// `s` without white space at either end.
pub open spec fn trim(s: Seq<char>) -> Seq<char> {
    trim_end(trim_start(s))
}

/// `s` without the run of `c` that it starts with.
pub open spec fn strip_front(s: Seq<char>, c: char) -> Seq<char>
    decreases s.len(),
{
    if s.len() > 0 && s.first() == c {
        strip_front(s.skip(1), c)
    } else {
        s
    }
}

/// `s` without the run of `c` that it ends with.
pub open spec fn strip_back(s: Seq<char>, c: char) -> Seq<char>
    decreases s.len(),
{
    if s.len() > 0 && s.last() == c {
        strip_back(s.drop_last(), c)
    } else {
        s
    }
}

/// An ASCII capital as its small letter; every other character as it is.
pub open spec fn lower_char(c: char) -> char {
    if 'A' <= c <= 'Z' {
        (c as u32 + 32) as char
    } else {
        c
    }
}

/// `s` with its ASCII capitals made small.
pub open spec fn lower(s: Seq<char>) -> Seq<char> {
    s.map_values(|c: char| lower_char(c))
}

/// An ASCII small letter as its capital; every other character as it is.
pub open spec fn upper_char(c: char) -> char {
    if 'a' <= c <= 'z' {
        (c as u32 - 32) as char
    } else {
        c
    }
}

/// `s` with its ASCII small letters made capitals.
pub open spec fn upper(s: Seq<char>) -> Seq<char> {
    s.map_values(|c: char| upper_char(c))
}

/// An ASCII letter.
pub open spec fn letter(c: char) -> bool {
    'a' <= c <= 'z' || 'A' <= c <= 'Z'
}

/// Does `part` stand in `s` at position `i`?
pub open spec fn occurs_at(s: Seq<char>, part: Seq<char>, i: int) -> bool {
    0 <= i <= s.len() - part.len() && s.subrange(i, i + part.len()) == part
}

/// Does `part` stand anywhere in `s`?
pub open spec fn occurs(s: Seq<char>, part: Seq<char>) -> bool {
    exists|i: int| occurs_at(s, part, i)
}

pub open spec fn starts_with(s: Seq<char>, part: Seq<char>) -> bool {
    occurs_at(s, part, 0)
}

pub open spec fn ends_with(s: Seq<char>, part: Seq<char>) -> bool {
    occurs_at(s, part, s.len() - part.len())
}

/// The first position of `c` in `s`.
pub open spec fn find(s: Seq<char>, c: char) -> Option<int>
    decreases s.len(),
{
    if s.len() == 0 {
        None
    } else if s.first() == c {
        Some(0)
    } else {
        match find(s.skip(1), c) {
            Some(i) => Some(i + 1),
            None => None,
        }
    }
}

/// The last position of `c` in `s`.
pub open spec fn rfind(s: Seq<char>, c: char) -> Option<int>
    decreases s.len(),
{
    if s.len() == 0 {
        None
    } else if s.last() == c {
        Some(s.len() - 1)
    } else {
        rfind(s.drop_last(), c)
    }
}

/// The first position of `part` in `s`.
pub open spec fn find_text(s: Seq<char>, part: Seq<char>) -> Option<int>
    decreases s.len(),
{
    if starts_with(s, part) {
        Some(0)
    } else if s.len() == 0 {
        None
    } else {
        match find_text(s.skip(1), part) {
            Some(i) => Some(i + 1),
            None => None,
        }
    }
}

/// The pieces of `s` between the occurrences of `sep`; always at least one.
pub open spec fn split(s: Seq<char>, sep: char) -> Seq<Seq<char>>
    decreases s.len(),
    via split_decreases
{
    match find(s, sep) {
        Some(i) => seq![s.take(i)] + split(s.skip(i + 1), sep),
        None => seq![s],
    }
}

#[via_fn]
proof fn split_decreases(s: Seq<char>, sep: char) {
    lemma_find(s, sep);
}

/// The piece of `s` before the first `sep`, or all of it.
pub open spec fn before(s: Seq<char>, sep: char) -> Seq<char> {
    match find(s, sep) {
        Some(i) => s.take(i),
        None => s,
    }
}

/// `s` with each occurrence of `from`, taken from the left and without overlap, replaced by `to`.
pub open spec fn replace(s: Seq<char>, from: Seq<char>, to: Seq<char>) -> Seq<char>
    decreases s.len(),
{
    if s.len() == 0 || from.len() == 0 {
        s
    } else if starts_with(s, from) {
        to + replace(s.skip(from.len() as int), from, to)
    } else {
        seq![s.first()] + replace(s.skip(1), from, to)
    }
}

/// The parts one after another, with `sep` between neighbours.
pub open spec fn join(parts: Seq<Seq<char>>, sep: Seq<char>) -> Seq<char>
    decreases parts.len(),
{
    if parts.len() == 0 {
        Seq::empty()
    } else if parts.len() == 1 {
        parts[0]
    } else {
        join(parts.drop_last(), sep) + sep + parts.last()
    }
}

/// `items` without what stands earlier in it already.
pub open spec fn distinct(items: Seq<Seq<char>>) -> Seq<Seq<char>>
    decreases items.len(),
{
    if items.len() == 0 {
        Seq::empty()
    } else {
        let earlier = distinct(items.drop_last());
        if earlier.contains(items.last()) {
            earlier
        } else {
            earlier.push(items.last())
        }
    }
}

/// The decimal digits of `n`.
pub open spec fn decimal(n: nat) -> Seq<char>
    decreases n,
{
    let digit = ('0' as u32 + n % 10) as char;
    if n < 10 {
        seq![digit]
    } else {
        decimal(n / 10).push(digit)
    }
}

/// Does `a` come before `b` when compared character by character, a prefix before what extends it?
pub open spec fn precedes(a: Seq<char>, b: Seq<char>) -> bool
    decreases a.len(),
{
    if b.len() == 0 {
        false
    } else if a.len() == 0 {
        true
    } else if a.first() == b.first() {
        precedes(a.skip(1), b.skip(1))
    } else {
        a.first() < b.first()
    }
}

/// What the position that `find` gives says of `s`.
pub proof fn lemma_find(s: Seq<char>, c: char)
    ensures
        find(s, c) matches Some(i) ==> 0 <= i < s.len() && s[i] == c && (forall|j: int|
            0 <= j < i ==> s[j] != c),
        find(s, c) is None ==> !s.contains(c),
    decreases s.len(),
{
    if s.len() > 0 && s.first() != c {
        let t = s.skip(1);
        lemma_find(t, c);
        assert forall|j: int| 1 <= j < s.len() implies s[j] == t[j - 1] by {}
        match find(t, c) {
            Some(i) => {
                assert forall|j: int| 0 <= j < i + 1 implies s[j] != c by {
                    if j > 0 {
                        assert(t[j - 1] != c);
                    }
                }
            },
            None => {
                assert forall|j: int| 0 <= j < s.len() implies s[j] != c by {
                    if j > 0 {
                        assert(t.contains(t[j - 1]));
                    }
                }
            },
        }
    }
}

/// `part` stands at position `i` of `s` exactly when what is left of `s` from there starts with it.
pub proof fn lemma_occurs_at_skip(s: Seq<char>, part: Seq<char>, i: int)
    requires
        0 <= i <= s.len(),
    ensures
        occurs_at(s, part, i) == starts_with(s.skip(i), part),
{
    if part.len() <= s.len() - i {
        assert(s.skip(i).subrange(0, part.len() as int) == s.subrange(i, i + part.len()));
    }
}

/// What the position that `find_text` gives says of `s`.
pub proof fn lemma_find_text(s: Seq<char>, part: Seq<char>)
    ensures
        find_text(s, part) matches Some(i) ==> occurs_at(s, part, i) && (forall|j: int|
            0 <= j < i ==> !occurs_at(s, part, j)),
        find_text(s, part) is Some == occurs(s, part),
    decreases s.len(),
{
    if starts_with(s, part) {
    } else if s.len() > 0 {
        let t = s.skip(1);
        lemma_find_text(t, part);
        assert forall|j: int| 0 <= j implies #[trigger] occurs_at(t, part, j) == occurs_at(
            s,
            part,
            j + 1,
        ) by {
            if j <= t.len() - part.len() {
                assert(t.subrange(j, j + part.len()) == s.subrange(j + 1, j + 1 + part.len()));
            }
        }
        assert forall|j: int| occurs_at(s, part, j) implies occurs_at(t, part, j - 1) by {}
        match find_text(t, part) {
            Some(i) => {
                assert(occurs_at(t, part, i));
                assert forall|j: int| 0 <= j < i + 1 implies !occurs_at(s, part, j) by {
                    if j > 0 {
                        assert(!occurs_at(t, part, j - 1));
                    }
                }
            },
            None => {},
        }
    } else {
        assert forall|j: int| !occurs_at(s, part, j) by {}
    }
}

/// Text that neither starts nor ends with white space is its own trimmed form.
pub proof fn lemma_trim_fixed(s: Seq<char>)
    requires
        s.len() > 0 ==> !white_space(s.first()) && !white_space(s.last()),
    ensures
        trim(s) == s,
{
}

proof fn lemma_trim_start(s: Seq<char>)
    ensures
        trim_start(s).len() > 0 ==> !white_space(trim_start(s).first()),
        trim_start(s).len() <= s.len(),
        trim_start(s) == s.skip(s.len() - trim_start(s).len()),
    decreases s.len(),
{
    if s.len() > 0 && white_space(s.first()) {
        let t = s.skip(1);
        lemma_trim_start(t);
        assert(t.skip(t.len() - trim_start(t).len()) == s.skip(s.len() - trim_start(t).len()));
    } else {
        assert(s.skip(0) == s);
    }
}

/// What `trim_end` leaves is a prefix that does not end with white space; it drops nothing else.
pub proof fn lemma_trim_end(s: Seq<char>)
    ensures
        trim_end(s).len() > 0 ==> !white_space(trim_end(s).last()),
        trim_end(s).len() <= s.len(),
        trim_end(s) == s.take(trim_end(s).len() as int),
        forall|k: int| trim_end(s).len() <= k < s.len() ==> white_space(#[trigger] s[k]),
    decreases s.len(),
{
    if s.len() > 0 && white_space(s.last()) {
        let t = s.drop_last();
        lemma_trim_end(t);
        assert(t.take(trim_end(t).len() as int) == s.take(trim_end(t).len() as int));
        assert forall|k: int| trim_end(s).len() <= k < s.len() implies white_space(
            #[trigger] s[k],
        ) by {
            if k < t.len() {
                assert(t[k] == s[k]);
            }
        }
    } else {
        assert(s.take(s.len() as int) == s);
    }
}

/// Trimmed text is a stretch of the text that neither starts nor ends with white space.
pub proof fn lemma_trim(s: Seq<char>)
    ensures
        trim(s).len() > 0 ==> !white_space(trim(s).first()) && !white_space(trim(s).last()),
        exists|i: int| occurs_at(s, trim(s), i),
{
    let a = trim_start(s);
    let b = trim_end(a);
    lemma_trim_start(s);
    lemma_trim_end(a);
    let i = s.len() - a.len();
    assert(s.subrange(i, i + b.len()) == b);
    assert(occurs_at(s, trim(s), i));
}

/// To trim twice is to trim once.
pub proof fn lemma_trim_twice(s: Seq<char>)
    ensures
        trim(trim(s)) == trim(s),
{
    lemma_trim(s);
    lemma_trim_fixed(trim(s));
}

/// White space behind a text does not change its trimmed form.
pub proof fn lemma_trim_push(s: Seq<char>, c: char)
    requires
        white_space(c),
    ensures
        trim(s.push(c)) == trim(s),
{
    lemma_trim_start_push(s, c);
    let t = trim_start(s);
    if t.len() > 0 {
        assert(t.push(c).drop_last() == t);
    }
}

proof fn lemma_trim_start_push(s: Seq<char>, c: char)
    requires
        white_space(c),
    ensures
        trim_start(s.push(c)) == (if trim_start(s).len() > 0 {
            trim_start(s).push(c)
        } else {
            Seq::empty()
        }),
    decreases s.len(),
{
    if s.len() == 0 {
        assert(s.push(c).skip(1).len() == 0);
        assert(trim_start(s.push(c).skip(1)) == s.push(c).skip(1));
    } else {
        assert(s.push(c).first() == s.first());
        assert(s.push(c).skip(1) == s.skip(1).push(c));
        if white_space(s.first()) {
            lemma_trim_start_push(s.skip(1), c);
        }
    }
}

/// To lower twice is to lower once, and no ASCII capital is left.
pub proof fn lemma_lower(s: Seq<char>)
    ensures
        lower(lower(s)) == lower(s),
        forall|i: int| 0 <= i < s.len() ==> !('A' <= #[trigger] lower(s)[i] <= 'Z'),
{
    assert forall|c: char| !('A' <= #[trigger] lower_char(c) <= 'Z') by {
        if 'A' <= c <= 'Z' {
            assert(c as u32 + 32 <= 122);
        }
    }
    assert forall|i: int| 0 <= i < s.len() implies !('A' <= #[trigger] lower(s)[i] <= 'Z') by {
        assert(lower(s)[i] == lower_char(s[i]));
    }
    assert(lower(lower(s)) =~= lower(s));
}

/// Capitals that are made small stay letters, and everything else stays what it is.
pub proof fn lemma_lower_char(c: char)
    ensures
        lower_char(lower_char(c)) == lower_char(c),
        lower_char(upper_char(c)) == lower_char(c),
        white_space(lower_char(c)) == white_space(c),
        forall|x: char| !letter(x) ==> (#[trigger] same_char(lower_char(c), x) == same_char(c, x)),
{
    if 'A' <= c <= 'Z' {
        assert(65 <= c as u32 <= 90);
        assert(letter(lower_char(c)));
    }
    if 'a' <= c <= 'z' {
        assert(97 <= c as u32 <= 122);
        assert('A' <= upper_char(c) <= 'Z');
        assert(lower_char(upper_char(c)) == c);
    }
}

/// Are the characters the same?
pub open spec fn same_char(a: char, b: char) -> bool {
    a == b
}

/// To make the capitals small changes nothing about where a character stands that is no letter.
pub proof fn lemma_lower_find(s: Seq<char>, c: char)
    requires
        !letter(c),
    ensures
        find(lower(s), c) == find(s, c),
        before(lower(s), c) == lower(before(s, c)),
    decreases s.len(),
{
    if s.len() > 0 {
        lemma_lower_char(s.first());
        assert(same_char(lower(s).first(), c) == same_char(s.first(), c));
        assert(lower(s).skip(1) == lower(s.skip(1)));
        lemma_lower_find(s.skip(1), c);
    }
    lemma_find(s, c);
    match find(s, c) {
        Some(i) => {
            assert(lower(s).take(i) =~= lower(s.take(i)));
        },
        None => {},
    }
}

proof fn lemma_lower_trim_start(s: Seq<char>)
    ensures
        trim_start(lower(s)) == lower(trim_start(s)),
    decreases s.len(),
{
    if s.len() > 0 {
        lemma_lower_char(s.first());
        assert(lower(s).first() == lower_char(s.first()));
        assert(lower(s).skip(1) == lower(s.skip(1)));
        lemma_lower_trim_start(s.skip(1));
    }
}

proof fn lemma_lower_trim_end(s: Seq<char>)
    ensures
        trim_end(lower(s)) == lower(trim_end(s)),
    decreases s.len(),
{
    if s.len() > 0 {
        lemma_lower_char(s.last());
        assert(lower(s).last() == lower_char(s.last()));
        assert(lower(s).drop_last() == lower(s.drop_last()));
        lemma_lower_trim_end(s.drop_last());
    }
}

/// White space around a text can go before or after the capitals.
pub proof fn lemma_lower_trim(s: Seq<char>)
    ensures
        trim(lower(s)) == lower(trim(s)),
{
    lemma_lower_trim_start(s);
    lemma_lower_trim_end(trim_start(s));
}

/// A run of `c` at the start can go before or after the capitals.
pub proof fn lemma_lower_strip_front(s: Seq<char>, c: char)
    requires
        !letter(c),
    ensures
        strip_front(lower(s), c) == lower(strip_front(s, c)),
    decreases s.len(),
{
    if s.len() > 0 {
        lemma_lower_char(s.first());
        assert(same_char(lower(s).first(), c) == same_char(s.first(), c));
        assert(lower(s).skip(1) == lower(s.skip(1)));
        lemma_lower_strip_front(s.skip(1), c);
    }
}

/// To make the letters capitals and then small is to make the capitals small.
pub proof fn lemma_lower_upper(s: Seq<char>)
    ensures
        lower(upper(s)) == lower(s),
{
    assert forall|i: int| 0 <= i < s.len() implies lower(upper(s))[i] == lower(s)[i] by {
        lemma_lower_char(s[i]);
    }
    assert(lower(upper(s)) =~= lower(s));
}

/// What is left when a run of `c` has gone from the end does not end with `c`.
pub proof fn lemma_strip_back(s: Seq<char>, c: char)
    ensures
        strip_back(s, c).len() > 0 ==> strip_back(s, c).last() != c,
        strip_back(s, c).len() <= s.len(),
        strip_back(s, c) == s.take(strip_back(s, c).len() as int),
        strip_back(strip_back(s, c), c) == strip_back(s, c),
    decreases s.len(),
{
    if s.len() > 0 && s.last() == c {
        let t = s.drop_last();
        lemma_strip_back(t, c);
        assert(t.take(strip_back(t, c).len() as int) == s.take(strip_back(t, c).len() as int));
    } else {
        assert(s.take(s.len() as int) == s);
    }
}

/// Dots at the end can go before or after the capitals.
pub proof fn lemma_lower_strip_back(s: Seq<char>)
    ensures
        lower(strip_back(s, '.')) == strip_back(lower(s), '.'),
    decreases s.len(),
{
    if s.len() > 0 {
        assert(lower(s).last() == lower_char(s.last()));
        assert(lower_char(s.last()) == '.' <==> s.last() == '.') by {
            if 'A' <= s.last() <= 'Z' {
                assert(s.last() as u32 + 32 >= 97);
            }
        }
        if s.last() == '.' {
            lemma_lower_strip_back(s.drop_last());
            assert(lower(s).drop_last() == lower(s.drop_last()));
        }
    } else {
        assert(lower(s).len() == 0);
    }
}

/// Does the sequence hold `t` once `x` is put behind it?
pub proof fn lemma_push_contains(s: Seq<Seq<char>>, x: Seq<char>, t: Seq<char>)
    ensures
        s.push(x).contains(t) == (s.contains(t) || t == x),
{
    if s.contains(t) {
        let i = choose|i: int| 0 <= i < s.len() && s[i] == t;
        assert(s.push(x)[i] == t);
    }
    assert(s.push(x)[s.len() as int] == x);
}

/// `distinct` keeps what there is, and holds nothing twice.
pub proof fn lemma_distinct(items: Seq<Seq<char>>)
    ensures
        distinct(items).no_duplicates(),
        forall|t: Seq<char>| #[trigger] distinct(items).contains(t) == items.contains(t),
    decreases items.len(),
{
    if items.len() > 0 {
        let shorter = items.drop_last();
        let last = items.last();
        lemma_distinct(shorter);
        let earlier = distinct(shorter);
        assert(items == shorter.push(last));
        assert forall|t: Seq<char>| #[trigger] distinct(items).contains(t) == items.contains(t) by {
            lemma_push_contains(shorter, last, t);
            lemma_push_contains(earlier, last, t);
        }
        if !earlier.contains(last) {
            let all = earlier.push(last);
            assert forall|i: int, j: int|
                0 <= i < all.len() && 0 <= j < all.len() && i != j implies all[i] != all[j] by {
                if i < earlier.len() && j < earlier.len() {
                    assert(earlier[i] != earlier[j]);
                }
            }
        }
    }
}

/// Where `c` does not stand in `s`, the first `c` of `s` with more behind it stands in the rest.
pub proof fn lemma_find_concat(s: Seq<char>, t: Seq<char>, c: char)
    ensures
        find(s + t, c) == (match find(s, c) {
            Some(i) => Some(i),
            None => match find(t, c) {
                Some(j) => Some(s.len() + j),
                None => None,
            },
        }),
    decreases s.len(),
{
    if s.len() == 0 {
        assert(s + t == t);
    } else {
        assert((s + t).skip(1) == s.skip(1) + t);
        assert((s + t).first() == s.first());
        lemma_find_concat(s.skip(1), t, c);
    }
}

/// The pieces of two texts with the separator between them are those of the first and those of
/// the second.
pub proof fn lemma_split_concat(s: Seq<char>, t: Seq<char>, sep: char)
    ensures
        split(s + seq![sep] + t, sep) == split(s, sep) + split(t, sep),
    decreases s.len(),
{
    let all = s + seq![sep] + t;
    assert(all == s + (seq![sep] + t));
    lemma_find_concat(s, seq![sep] + t, sep);
    lemma_find(s, sep);
    match find(s, sep) {
        Some(i) => {
            let rest = s.skip(i + 1);
            lemma_split_concat(rest, t, sep);
            assert(all.take(i) == s.take(i));
            assert(all.skip(i + 1) == rest + seq![sep] + t);
            assert(split(all, sep) == seq![s.take(i)] + split(rest + seq![sep] + t, sep));
        },
        None => {
            assert((seq![sep] + t).first() == sep);
            assert(find(all, sep) == Some(s.len() as int));
            assert(all.take(s.len() as int) == s);
            assert(all.skip((s.len() + 1) as int) == t);
        },
    }
}

/// No piece holds the separator.
pub proof fn lemma_split_pieces(s: Seq<char>, sep: char)
    ensures
        split(s, sep).len() > 0,
        forall|k: int| 0 <= k < split(s, sep).len() ==> !(#[trigger] split(s, sep)[k]).contains(sep),
    decreases s.len(),
{
    lemma_find(s, sep);
    match find(s, sep) {
        Some(i) => {
            let rest = s.skip(i + 1);
            lemma_split_pieces(rest, sep);
            assert forall|k: int| 0 <= k < split(s, sep).len() implies !(#[trigger] split(
                s,
                sep,
            )[k]).contains(sep) by {
                if k > 0 {
                    assert(split(s, sep)[k] == split(rest, sep)[k - 1]);
                }
            }
        },
        None => {},
    }
}

/// A part stands at a position exactly if its characters are found there, one by one.
pub proof fn parts_stand_character_by_character(s: Seq<char>, part: Seq<char>, i: int)
    ensures
        occurs_at(s, part, i) <==> 0 <= i && i + part.len() <= s.len() && forall|k: int|
            0 <= k < part.len() ==> s[i + k] == #[trigger] part[k],
{
    if 0 <= i && i + part.len() <= s.len() {
        let found = s.subrange(i, i + part.len());
        if found == part {
            assert forall|k: int| 0 <= k < part.len() implies s[i + k] == #[trigger] part[k] by {
                assert(found[k] == s[i + k]);
            }
        }
        if forall|k: int| 0 <= k < part.len() ==> s[i + k] == #[trigger] part[k] {
            assert(found =~= part);
        }
    }
}

/// A text starts with its front, ends with its back and holds what is in between.
pub proof fn texts_hold_their_parts(a: Seq<char>, part: Seq<char>, b: Seq<char>)
    ensures
        starts_with(part + b, part),
        ends_with(a + part, part),
        occurs(a + part + b, part),
{
    assert((part + b).subrange(0, part.len() as int) =~= part);
    assert((a + part).subrange(a.len() as int, (a + part).len() as int) =~= part);
    assert((a + part + b).subrange(a.len() as int, a.len() + part.len() as int) =~= part);
    assert(occurs_at(a + part + b, part, a.len() as int));
}

proof fn lemma_trim_start_concat(a: Seq<char>, rest: Seq<char>)
    requires
        forall|k: int| 0 <= k < a.len() ==> white_space(#[trigger] a[k]),
    ensures
        trim_start(a + rest) == trim_start(rest),
    decreases a.len(),
{
    if a.len() == 0 {
        assert(a + rest =~= rest);
    } else {
        assert(white_space(a[0]));
        assert((a + rest).first() == a[0]);
        assert((a + rest).skip(1) =~= a.skip(1) + rest);
        lemma_trim_start_concat(a.skip(1), rest);
    }
}

proof fn lemma_trim_end_concat(rest: Seq<char>, b: Seq<char>)
    requires
        forall|k: int| 0 <= k < b.len() ==> white_space(#[trigger] b[k]),
    ensures
        trim_end(rest + b) == trim_end(rest),
    decreases b.len(),
{
    if b.len() == 0 {
        assert(rest + b =~= rest);
    } else {
        assert(white_space(b[b.len() - 1]));
        assert((rest + b).last() == b[b.len() - 1]);
        assert((rest + b).drop_last() =~= rest + b.drop_last());
        lemma_trim_end_concat(rest, b.drop_last());
    }
}

/// Trimming takes all white space from both ends of a text and nothing else.
pub proof fn trimming_leaves_the_core(a: Seq<char>, core: Seq<char>, b: Seq<char>)
    requires
        forall|k: int| 0 <= k < a.len() ==> white_space(#[trigger] a[k]),
        forall|k: int| 0 <= k < b.len() ==> white_space(#[trigger] b[k]),
        core.len() > 0 ==> !white_space(core.first()) && !white_space(core.last()),
    ensures
        trim(a + core + b) == core,
{
    assert(a + core + b =~= a + (core + b));
    lemma_trim_start_concat(a, core + b);
    if core.len() == 0 {
        assert(core + b =~= b + Seq::<char>::empty());
        lemma_trim_start_concat(b, Seq::empty());
        assert(trim_start(core + b).len() == 0);
        assert(trim(a + core + b) =~= core);
    } else {
        assert((core + b).first() == core.first());
        lemma_trim_end_concat(core, b);
    }
}

/// A character that trimming takes away is white space.
pub proof fn trimming_takes_white_space_only(s: Seq<char>, k: int)
    requires
        0 <= k < s.len(),
        !white_space(s[k]),
    ensures
        trim(s).contains(s[k]),
    decreases s.len(),
{
    if white_space(s.first()) {
        trimming_takes_white_space_only(s.skip(1), k - 1);
    } else {
        lemma_trim_end(s);
        assert(trim(s)[k] == s[k]);
    }
}

/// A run of one character at the start goes, and nothing else.
pub proof fn runs_at_the_front_go(core: Seq<char>, c: char, n: nat)
    requires
        core.len() > 0 ==> core.first() != c,
    ensures
        strip_front(Seq::new(n, |k: int| c) + core, c) == core,
    decreases n,
{
    let s = Seq::new(n, |k: int| c) + core;
    if n == 0 {
        assert(s =~= core);
    } else {
        assert(s.first() == c);
        assert(s.skip(1) =~= Seq::new((n - 1) as nat, |k: int| c) + core);
        runs_at_the_front_go(core, c, (n - 1) as nat);
    }
}

/// A run of one character at the end goes, and nothing else.
pub proof fn runs_at_the_back_go(core: Seq<char>, c: char, n: nat)
    requires
        core.len() > 0 ==> core.last() != c,
    ensures
        strip_back(core + Seq::new(n, |k: int| c), c) == core,
    decreases n,
{
    let s = core + Seq::new(n, |k: int| c);
    if n == 0 {
        assert(s =~= core);
    } else {
        assert(s.last() == c);
        assert(s.drop_last() =~= core + Seq::new((n - 1) as nat, |k: int| c));
        runs_at_the_back_go(core, c, (n - 1) as nat);
    }
}

/// The last position of a character is one at which it stands and behind which it does not.
pub proof fn the_last_position_is_the_last(s: Seq<char>, c: char)
    ensures
        rfind(s, c) matches Some(i) ==> 0 <= i < s.len() && s[i] == c && (forall|j: int|
            i < j < s.len() ==> s[j] != c),
        rfind(s, c) is None ==> !s.contains(c),
    decreases s.len(),
{
    if s.len() > 0 && s.last() != c {
        let t = s.drop_last();
        the_last_position_is_the_last(t, c);
        match rfind(t, c) {
            Some(i) => {
                assert forall|j: int| i < j < s.len() implies s[j] != c by {
                    if j < t.len() {
                        assert(t[j] != c);
                    }
                }
            },
            None => {
                assert forall|j: int| 0 <= j < s.len() implies s[j] != c by {
                    if j < t.len() {
                        assert(t.contains(t[j]));
                    }
                }
            },
        }
    }
}

/// Text without the separator is one piece, and stands before it as a whole; of text with the
/// separator, what stands before the first one is the first piece.
pub proof fn pieces_end_at_the_separator(a: Seq<char>, b: Seq<char>, sep: char)
    requires
        !a.contains(sep),
    ensures
        split(a, sep) == seq![a],
        before(a, sep) == a,
        before(a + seq![sep] + b, sep) == a,
        split(a + seq![sep] + b, sep) == seq![a] + split(b, sep),
{
    lemma_find(a, sep);
    lemma_split_concat(a, b, sep);
    let all = a + seq![sep] + b;
    assert(all =~= a + (seq![sep] + b));
    lemma_find_concat(a, seq![sep] + b, sep);
    assert((seq![sep] + b).first() == sep);
    assert(all.take(a.len() as int) =~= a);
}

/// The pieces of a text, with the separator between them again, are the text.
pub proof fn pieces_make_the_text(s: Seq<char>, sep: char)
    ensures
        join(split(s, sep), seq![sep]) == s,
    decreases s.len(),
{
    lemma_find(s, sep);
    match find(s, sep) {
        Some(i) => {
            let rest = s.skip(i + 1);
            pieces_make_the_text(rest, sep);
            lemma_split_pieces(rest, sep);
            lemma_join_front(s.take(i), split(rest, sep), seq![sep]);
            assert(s =~= s.take(i) + seq![sep] + rest);
        },
        None => {
            assert(split(s, sep).len() == 1);
        },
    }
}

/// Joined parts start with the first of them.
pub proof fn lemma_join_front(first: Seq<char>, parts: Seq<Seq<char>>, sep: Seq<char>)
    requires
        parts.len() > 0,
    ensures
        join(seq![first] + parts, sep) == first + sep + join(parts, sep),
    decreases parts.len(),
{
    let all = seq![first] + parts;
    assert(all.last() == parts.last());
    assert(all.drop_last() =~= seq![first] + parts.drop_last());
    if parts.len() == 1 {
        assert(all.drop_last() =~= seq![first]);
        assert(join(all.drop_last(), sep) == first);
    } else {
        lemma_join_front(first, parts.drop_last(), sep);
        assert(join(all, sep) =~= first + sep + join(parts, sep));
    }
}

/// Joined parts stand one after another, with the separator between neighbours only.
pub proof fn parts_are_joined_in_order(parts: Seq<Seq<char>>, last: Seq<char>, sep: Seq<char>)
    ensures
        join(Seq::empty(), sep) == Seq::<char>::empty(),
        join(seq![last], sep) == last,
        parts.len() > 0 ==> join(parts.push(last), sep) == join(parts, sep) + sep + last,
{
    assert(parts.push(last).drop_last() =~= parts);
}

proof fn lemma_replace_nothing(s: Seq<char>, from: Seq<char>, to: Seq<char>)
    requires
        !occurs(s, from),
    ensures
        replace(s, from, to) == s,
    decreases s.len(),
{
    if s.len() > 0 && from.len() > 0 {
        let t = s.skip(1);
        assert(!occurs_at(s, from, 0));
        assert forall|i: int| !occurs_at(t, from, i) by {
            if occurs_at(t, from, i) {
                assert(s.subrange(i + 1, i + 1 + from.len()) =~= t.subrange(i, i + from.len()));
                assert(occurs_at(s, from, i + 1));
            }
        }
        lemma_replace_nothing(t, from, to);
        assert(seq![s.first()] + t =~= s);
    }
}

proof fn lemma_replace_first(s: Seq<char>, n: int, from: Seq<char>, to: Seq<char>)
    requires
        from.len() > 0,
        0 <= n,
        occurs_at(s, from, n),
        forall|i: int| 0 <= i < n ==> !occurs_at(s, from, i),
    ensures
        replace(s, from, to) == s.take(n) + to + replace(s.skip(n + from.len()), from, to),
    decreases n,
{
    if n == 0 {
        assert(s.take(0) + to =~= to);
    } else {
        let t = s.skip(1);
        assert(!occurs_at(s, from, 0));
        assert(t.subrange(n - 1, n - 1 + from.len()) =~= s.subrange(n, n + from.len()));
        assert forall|i: int| 0 <= i < n - 1 implies !occurs_at(t, from, i) by {
            assert(!occurs_at(s, from, i + 1));
            if i + from.len() <= t.len() {
                assert(t.subrange(i, i + from.len()) =~= s.subrange(i + 1, i + 1 + from.len()));
            }
        }
        lemma_replace_first(t, n - 1, from, to);
        assert(t.skip(n - 1 + from.len()) =~= s.skip(n + from.len()));
        assert(seq![s.first()] + t.take(n - 1) =~= s.take(n));
        let rest = to + replace(s.skip(n + from.len()), from, to);
        assert(t.take(n - 1) + to + replace(s.skip(n + from.len()), from, to) =~= t.take(n - 1)
            + rest);
        assert(seq![s.first()] + (t.take(n - 1) + rest) =~= (seq![s.first()] + t.take(n - 1))
            + rest);
        assert(s.take(n) + rest =~= s.take(n) + to + replace(s.skip(n + from.len()), from, to));
    }
}

/// Text in which a part does not stand is not changed by replacing it; where the part stands, its
/// first occurrence gives way, and what is behind it is treated in the same way.
pub proof fn occurrences_give_way(a: Seq<char>, from: Seq<char>, b: Seq<char>, to: Seq<char>)
    requires
        from.len() > 0,
    ensures
        !occurs(a, from) ==> replace(a, from, to) == a,
        (forall|i: int| 0 <= i < a.len() ==> !occurs_at(a + from + b, from, i)) ==> replace(
            a + from + b,
            from,
            to,
        ) == a + to + replace(b, from, to),
{
    if !occurs(a, from) {
        lemma_replace_nothing(a, from, to);
    }
    let all = a + from + b;
    let n = a.len() as int;
    if forall|i: int| 0 <= i < a.len() ==> !occurs_at(all, from, i) {
        assert(all.subrange(n, n + from.len()) =~= from);
        assert(occurs_at(all, from, n));
        lemma_replace_first(all, n, from, to);
        assert(all.take(n) =~= a);
        assert(all.skip(n + from.len()) =~= b);
    }
}

/// Of equal items the first stays, where it was.
pub proof fn the_first_of_equals_stays(items: Seq<Seq<char>>, x: Seq<char>)
    ensures
        distinct(Seq::empty()) == Seq::<Seq<char>>::empty(),
        distinct(items.push(x)) == (if items.contains(x) {
            distinct(items)
        } else {
            distinct(items).push(x)
        }),
{
    lemma_distinct(items);
    assert(items.push(x).drop_last() =~= items);
    assert(distinct(items).contains(x) == items.contains(x));
}

/// What is left of items stands in the order in which it first occurred.
pub proof fn first_occurrences_keep_their_order(items: Seq<Seq<char>>, i: int, j: int)
    requires
        0 <= i < j < distinct(items).len(),
    ensures
        exists|p: int|
            0 <= p < items.len() && #[trigger] items[p] == distinct(items)[i] && forall|q: int|
                0 <= q <= p ==> #[trigger] items[q] != distinct(items)[j],
    decreases items.len(),
{
    if items.len() > 0 {
        let front = items.drop_last();
        let earlier = distinct(front);
        lemma_distinct(front);
        if j < earlier.len() {
            first_occurrences_keep_their_order(front, i, j);
            let p = choose|p: int|
                0 <= p < front.len() && #[trigger] front[p] == earlier[i] && forall|q: int|
                    0 <= q <= p ==> #[trigger] front[q] != earlier[j];
            assert(items[p] == front[p]);
            assert forall|q: int| 0 <= q <= p implies #[trigger] items[q] != distinct(
                items,
            )[j] by {
                assert(items[q] == front[q]);
            }
        } else {
            assert(earlier.contains(earlier[i]));
            let p = choose|p: int| 0 <= p < front.len() && front[p] == earlier[i];
            assert(items[p] == distinct(items)[i]);
            assert forall|q: int| 0 <= q <= p implies #[trigger] items[q] != distinct(
                items,
            )[j] by {
                assert(front.contains(front[q]));
                assert(items[q] == front[q]);
            }
        }
    }
}

/// The number that decimal digits stand for.
pub open spec fn number_of(digits: Seq<char>) -> int
    decreases digits.len(),
{
    if digits.len() == 0 {
        0
    } else {
        10 * number_of(digits.drop_last()) + (digits.last() as int - '0' as int)
    }
}

/// The decimal digits of a number stand for it, and do not start with a needless zero.
pub proof fn decimals_stand_for_their_number(n: nat)
    ensures
        number_of(decimal(n)) == n,
        forall|k: int| 0 <= k < decimal(n).len() ==> '0' <= #[trigger] decimal(n)[k] <= '9',
        decimal(n).len() > 0,
        decimal(n).len() > 1 ==> decimal(n)[0] != '0',
    decreases n,
{
    let digit = ('0' as u32 + n % 10) as char;
    assert(48 <= digit as u32 <= 57);
    if n < 10 {
        assert(decimal(n).drop_last() =~= Seq::<char>::empty());
        assert(number_of(decimal(n).drop_last()) == 0);
    } else {
        decimals_stand_for_their_number(n / 10);
        let front = decimal(n / 10);
        assert(decimal(n) == front.push(digit));
        assert(decimal(n).drop_last() =~= front);
        assert(decimal(n).last() == digit);
        assert forall|k: int| 0 <= k < decimal(n).len() implies '0' <= #[trigger] decimal(n)[k]
            <= '9' by {
            if k < front.len() {
                assert(decimal(n)[k] == front[k]);
            }
        }
        if front.len() == 1 {
            assert(front.drop_last() =~= Seq::<char>::empty());
            assert(number_of(front.drop_last()) == 0);
            assert(n / 10 > 0);
        }
        assert(decimal(n)[0] == front[0]);
    }
}

/// A text comes before another exactly if it is a proper prefix of it, or has the smaller
/// character where the two first differ.
pub proof fn texts_are_ordered_by_their_first_difference(a: Seq<char>, b: Seq<char>, k: int)
    requires
        0 <= k <= a.len(),
        k <= b.len(),
        a.take(k) == b.take(k),
        k == a.len() || k == b.len() || a[k] != b[k],
    ensures
        precedes(a, b) <==> k < b.len() && (k == a.len() || a[k] < b[k]),
    decreases k,
{
    if k > 0 {
        assert(a.take(k)[0] == a[0] && b.take(k)[0] == b[0]);
        assert(a.skip(1).take(k - 1) =~= a.take(k).skip(1));
        assert(b.skip(1).take(k - 1) =~= b.take(k).skip(1));
        assert(k < a.len() ==> a.skip(1)[k - 1] == a[k]);
        assert(k < b.len() ==> b.skip(1)[k - 1] == b[k]);
        texts_are_ordered_by_their_first_difference(a.skip(1), b.skip(1), k - 1);
    }
}

/// The texts that slices of characters hold.
pub open spec fn of_slices(v: Seq<&[char]>) -> Seq<Seq<char>> {
    v.map_values(|p: &[char]| p@)
}

/// The texts that strings hold.
pub open spec fn of_strings(v: Seq<String>) -> Seq<Seq<char>> {
    v.map_values(|p: String| p@)
}

/// The texts that string slices hold.
pub open spec fn of_strs(v: Seq<&str>) -> Seq<Seq<char>> {
    v.map_values(|p: &str| p@)
}

/// The texts that vectors of characters hold.
pub open spec fn of_vecs(v: Seq<Vec<char>>) -> Seq<Seq<char>> {
    v.map_values(|p: Vec<char>| p@)
}

/// The text of an optional string.
pub open spec fn of_opt_string(s: Option<String>) -> Option<Seq<char>> {
    match s {
        Some(t) => Some(t@),
        None => None,
    }
}

/// The text of an optional string slice.
pub open spec fn of_opt_str(s: Option<&str>) -> Option<Seq<char>> {
    match s {
        Some(t) => Some(t@),
        None => None,
    }
}

} // verus!
