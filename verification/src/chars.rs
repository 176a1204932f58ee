//! Work on text as slices of characters, each function proved against its namesake in `text`.

use vstd::prelude::*;
use vstd::slice::slice_subrange;

use crate::text;

verus! {

/// The characters of a string.
pub fn chars_of(s: &str) -> (r: Vec<char>)
    ensures
        r@ == s@,
{
    let mut out: Vec<char> = Vec::new();
    for c in it: s.chars()
        invariant
            out@ == it.seq().take(it.index()),
            it.seq() == s@,
    {
        out.push(c);
    }
    out
}

/// Has `c` Unicode's `White_Space` property?
pub fn white_space(c: char) -> (r: bool)
    ensures
        r == text::white_space(c),
{
    let n: u32 = c as u32;
    (0x9 <= n && n <= 0xd) || n == 0x20 || n == 0x85 || n == 0xa0 || n == 0x1680 || (0x2000 <= n
        && n <= 0x200a) || n == 0x2028 || n == 0x2029 || n == 0x202f || n == 0x205f || n == 0x3000
}

pub fn trim(s: &[char]) -> (r: &[char])
    ensures
        r@ == text::trim(s@),
{
    let n: usize = s.len();
    let mut i: usize = 0;
    assert(s@.skip(0) == s@);
    while i < n && white_space(s[i])
        invariant
            i <= n == s@.len(),
            text::trim_start(s@) == text::trim_start(s@.skip(i as int)),
        decreases n - i,
    {
        assert(s@.skip(i as int).skip(1) == s@.skip(i + 1));
        i += 1;
    }
    let mut j: usize = n;
    assert(s@.subrange(i as int, n as int) == s@.skip(i as int));
    while i < j && white_space(s[j - 1])
        invariant
            i <= j <= n == s@.len(),
            text::trim_end(s@.skip(i as int)) == text::trim_end(s@.subrange(i as int, j as int)),
        decreases j,
    {
        assert(s@.subrange(i as int, j as int).drop_last() == s@.subrange(i as int, j - 1));
        j -= 1;
    }
    slice_subrange(s, i, j)
}

/// `s` without the run of `c` that it starts with.
pub fn strip_front(s: &[char], c: char) -> (r: &[char])
    ensures
        r@ == text::strip_front(s@, c),
{
    let n: usize = s.len();
    let mut i: usize = 0;
    assert(s@.skip(0) == s@);
    while i < n && s[i] == c
        invariant
            i <= n == s@.len(),
            text::strip_front(s@, c) == text::strip_front(s@.skip(i as int), c),
        decreases n - i,
    {
        assert(s@.skip(i as int).skip(1) == s@.skip(i + 1));
        i += 1;
    }
    assert(s@.subrange(i as int, n as int) == s@.skip(i as int));
    slice_subrange(s, i, n)
}

/// `s` without the run of `c` that it ends with.
pub fn strip_back(s: &[char], c: char) -> (r: &[char])
    ensures
        r@ == text::strip_back(s@, c),
{
    let mut j: usize = s.len();
    assert(s@.take(j as int) == s@);
    while j > 0 && s[j - 1] == c
        invariant
            j <= s@.len(),
            text::strip_back(s@, c) == text::strip_back(s@.take(j as int), c),
        decreases j,
    {
        assert(s@.take(j as int).drop_last() == s@.take(j - 1));
        j -= 1;
    }
    assert(s@.subrange(0, j as int) == s@.take(j as int));
    slice_subrange(s, 0, j)
}

/// An ASCII capital as its small letter.
pub fn lower_char(c: char) -> (r: char)
    ensures
        r == text::lower_char(c),
{
    if 'A' <= c && c <= 'Z' {
        ((c as u8) + 32) as char
    } else {
        c
    }
}

/// `s` with its ASCII capitals made small.
pub fn lower(s: &[char]) -> (r: Vec<char>)
    ensures
        r@ == text::lower(s@),
{
    let mut out: Vec<char> = Vec::new();
    let n: usize = s.len();
    let mut i: usize = 0;
    while i < n
        invariant
            i <= n == s@.len(),
            out@ == text::lower(s@.take(i as int)),
        decreases n - i,
    {
        out.push(lower_char(s[i]));
        i += 1;
    }
    assert(s@.take(n as int) == s@);
    out
}

/// Are `a` and `b` the same text?
pub fn same(a: &[char], b: &[char]) -> (r: bool)
    ensures
        r == (a@ == b@),
{
    let n: usize = a.len();
    if n != b.len() {
        return false;
    }
    let mut i: usize = 0;
    while i < n
        invariant
            i <= n == a@.len() == b@.len(),
            forall|j: int| 0 <= j < i ==> a@[j] == b@[j],
        decreases n - i,
    {
        if a[i] != b[i] {
            return false;
        }
        i += 1;
    }
    assert(a@ == b@);
    true
}

/// Does `part` stand in `s` at position `i`?
pub fn occurs_at(s: &[char], part: &[char], i: usize) -> (r: bool)
    ensures
        r == text::occurs_at(s@, part@, i as int),
{
    if i > s.len() || part.len() > s.len() - i {
        return false;
    }
    same(slice_subrange(s, i, i + part.len()), part)
}

pub fn starts_with(s: &[char], part: &[char]) -> (r: bool)
    ensures
        r == text::starts_with(s@, part@),
{
    occurs_at(s, part, 0)
}

pub fn ends_with(s: &[char], part: &[char]) -> (r: bool)
    ensures
        r == text::ends_with(s@, part@),
{
    if part.len() > s.len() {
        return false;
    }
    occurs_at(s, part, s.len() - part.len())
}

/// The first position of `c` in `s`.
pub fn find(s: &[char], c: char) -> (r: Option<usize>)
    ensures
        r is Some == text::find(s@, c) is Some,
        r matches Some(i) ==> text::find(s@, c) == Some(i as int) && i < s@.len(),
{
    let n: usize = s.len();
    let mut i: usize = 0;
    assert(s@.skip(0) == s@);
    while i < n
        invariant
            i <= n == s@.len(),
            text::find(s@, c) == (match text::find(s@.skip(i as int), c) {
                Some(k) => Some(k + i),
                None => None,
            }),
        decreases n - i,
    {
        if s[i] == c {
            return Some(i);
        }
        assert(s@.skip(i as int).skip(1) == s@.skip(i + 1));
        i += 1;
    }
    None
}

/// The last position of `c` in `s`.
pub fn rfind(s: &[char], c: char) -> (r: Option<usize>)
    ensures
        r is Some == text::rfind(s@, c) is Some,
        r matches Some(i) ==> text::rfind(s@, c) == Some(i as int) && i < s@.len(),
{
    let mut j: usize = s.len();
    assert(s@.take(j as int) == s@);
    while j > 0
        invariant
            j <= s@.len(),
            text::rfind(s@, c) == text::rfind(s@.take(j as int), c),
        decreases j,
    {
        if s[j - 1] == c {
            return Some(j - 1);
        }
        assert(s@.take(j as int).drop_last() == s@.take(j - 1));
        j -= 1;
    }
    None
}

/// The first position of `part` in `s`.
pub fn find_text(s: &[char], part: &[char]) -> (r: Option<usize>)
    ensures
        r is Some == text::find_text(s@, part@) is Some,
        r matches Some(i) ==> text::find_text(s@, part@) == Some(i as int) && i + part@.len()
            <= s@.len(),
{
    let n: usize = s.len();
    let mut i: usize = 0;
    assert(s@.skip(0) == s@);
    loop
        invariant
            i <= n == s@.len(),
            text::find_text(s@, part@) == (match text::find_text(s@.skip(i as int), part@) {
                Some(k) => Some(k + i),
                None => None,
            }),
        decreases n - i,
    {
        proof {
            text::lemma_occurs_at_skip(s@, part@, i as int);
        }
        if occurs_at(s, part, i) {
            return Some(i);
        }
        if i == n {
            return None;
        }
        assert(s@.skip(i as int).skip(1) == s@.skip(i + 1));
        i += 1;
    }
}

/// Does `part` stand anywhere in `s`?
pub fn occurs(s: &[char], part: &[char]) -> (r: bool)
    ensures
        r == text::occurs(s@, part@),
{
    proof {
        text::lemma_find_text(s@, part@);
    }
    find_text(s, part).is_some()
}

/// Does `c` stand anywhere in `s`?
pub fn contains(s: &[char], c: char) -> (r: bool)
    ensures
        r == s@.contains(c),
{
    proof {
        text::lemma_find(s@, c);
    }
    find(s, c).is_some()
}

/// The pieces of `s` between the occurrences of `sep`.
pub fn split(s: &[char], sep: char) -> (r: Vec<&[char]>)
    ensures
        text::of_slices(r@) == text::split(s@, sep),
        r@.len() > 0,
{
    let mut out: Vec<&[char]> = Vec::new();
    let n: usize = s.len();
    let mut start: usize = 0;
    assert(s@.skip(0) == s@);
    loop
        invariant
            start <= n == s@.len(),
            text::split(s@, sep) == text::of_slices(out@) + text::split(s@.skip(start as int), sep),
        decreases n - start,
    {
        let rest: &[char] = slice_subrange(s, start, n);
        assert(rest@ == s@.skip(start as int));
        let ghost done = out@;
        match find(rest, sep) {
            Some(i) => {
                let piece: &[char] = slice_subrange(rest, 0, i);
                out.push(piece);
                assert(piece@ == rest@.take(i as int));
                assert(rest@.skip(i + 1) == s@.skip(start + i + 1));
                assert(text::of_slices(out@) == text::of_slices(done).push(piece@));
                start = start + i + 1;
            },
            None => {
                out.push(rest);
                assert(text::of_slices(out@) == text::of_slices(done).push(rest@));
                return out;
            },
        }
    }
}

/// The piece of `s` before the first `sep`, or all of it.
pub fn before(s: &[char], sep: char) -> (r: &[char])
    ensures
        r@ == text::before(s@, sep),
{
    match find(s, sep) {
        Some(i) => {
            assert(s@.subrange(0, i as int) == s@.take(i as int));
            slice_subrange(s, 0, i)
        },
        None => s,
    }
}

/// Puts `more` behind what `out` holds.
pub fn append(out: &mut Vec<char>, more: &[char])
    ensures
        final(out)@ == old(out)@ + more@,
{
    let n: usize = more.len();
    let mut i: usize = 0;
    let ghost start = out@;
    assert(start + more@.take(0) == start);
    while i < n
        invariant
            i <= n == more@.len(),
            out@ == start + more@.take(i as int),
        decreases n - i,
    {
        out.push(more[i]);
        assert(out@ == start + more@.take(i + 1));
        i += 1;
    }
    assert(more@.take(n as int) == more@);
}

/// Puts the characters of `more` behind what `out` holds.
pub fn append_str(out: &mut Vec<char>, more: &str)
    ensures
        final(out)@ == old(out)@ + more@,
{
    append(out, chars_of(more).as_slice());
}

/// `s` with each occurrence of `from` replaced by `to`.
pub fn replace(s: &[char], from: &[char], to: &[char]) -> (r: Vec<char>)
    requires
        from@.len() > 0,
    ensures
        r@ == text::replace(s@, from@, to@),
{
    let mut out: Vec<char> = Vec::new();
    let n: usize = s.len();
    let mut i: usize = 0;
    assert(s@.skip(0) == s@);
    while i < n
        invariant
            i <= n == s@.len(),
            from@.len() > 0,
            text::replace(s@, from@, to@) == out@ + text::replace(
                s@.skip(i as int),
                from@,
                to@,
            ),
        decreases n - i,
    {
        let ghost done = out@;
        let ghost rest = s@.skip(i as int);
        proof {
            text::lemma_occurs_at_skip(s@, from@, i as int);
        }
        if occurs_at(s, from, i) {
            append(&mut out, to);
            assert(rest.skip(from@.len() as int) == s@.skip(i + from@.len()));
            assert(done + (to@ + text::replace(s@.skip(i + from@.len()), from@, to@)) == out@
                + text::replace(s@.skip(i + from@.len()), from@, to@));
            i += from.len();
        } else {
            out.push(s[i]);
            assert(rest.skip(1) == s@.skip(i + 1));
            assert(done + (seq![rest.first()] + text::replace(s@.skip(i + 1), from@, to@)) == out@
                + text::replace(s@.skip(i + 1), from@, to@));
            i += 1;
        }
    }
    assert(s@.skip(n as int).len() == 0);
    out
}

/// The decimal digits of `n`.
pub fn decimal(n: usize) -> (r: Vec<char>)
    ensures
        r@ == text::decimal(n as nat),
    decreases n,
{
    let digit: char = (48u8 + (n % 10) as u8) as char;
    let mut out: Vec<char> = if n < 10 {
        Vec::new()
    } else {
        decimal(n / 10)
    };
    out.push(digit);
    assert(n < 10 ==> out@ == seq![digit]);
    out
}

/// Does `a` come before `b`?
pub fn precedes(a: &[char], b: &[char]) -> (r: bool)
    ensures
        r == text::precedes(a@, b@),
{
    let n: usize = a.len();
    let m: usize = b.len();
    let mut i: usize = 0;
    assert(a@.skip(0) == a@ && b@.skip(0) == b@);
    while i < n && i < m
        invariant
            i <= n == a@.len(),
            i <= m == b@.len(),
            text::precedes(a@, b@) == text::precedes(a@.skip(i as int), b@.skip(i as int)),
        decreases n - i,
    {
        if a[i] != b[i] {
            return a[i] < b[i];
        }
        assert(a@.skip(i as int).skip(1) == a@.skip(i + 1));
        assert(b@.skip(i as int).skip(1) == b@.skip(i + 1));
        i += 1;
    }
    i < m
}

/// `String::push` puts the character behind what the string holds.
pub assume_specification[ String::push ](s: &mut String, c: char)
    ensures
        final(s)@ == old(s)@.push(c),
;

/// The string of the given characters.
pub fn string_of(s: &[char]) -> (r: String)
    ensures
        r@ == s@,
{
    let mut out: String = String::new();
    let n: usize = s.len();
    let mut i: usize = 0;
    while i < n
        invariant
            i <= n == s@.len(),
            out@ == s@.take(i as int),
        decreases n - i,
    {
        out.push(s[i]);
        assert(out@ == s@.take(i + 1));
        i += 1;
    }
    assert(s@.take(n as int) == s@);
    out
}

/// Are the two strings the same text?
pub fn same_str(a: &str, b: &str) -> (r: bool)
    ensures
        r == (a@ == b@),
{
    same(chars_of(a).as_slice(), chars_of(b).as_slice())
}

/// Is `t` among the texts of `list`?
pub fn holds(list: &Vec<String>, t: &[char]) -> (r: bool)
    ensures
        r == text::of_strings(list@).contains(t@),
{
    let n: usize = list.len();
    let mut i: usize = 0;
    while i < n
        invariant
            i <= n == list@.len(),
            forall|j: int| 0 <= j < i ==> text::of_strings(list@)[j] != t@,
        decreases n - i,
    {
        assert(text::of_strings(list@)[i as int] == list@[i as int]@);
        if same(chars_of(list[i].as_str()).as_slice(), t) {
            return true;
        }
        i += 1;
    }
    false
}

/// The parts one after another, with `sep` between neighbours.
pub fn join(parts: &[String], sep: &str) -> (r: Vec<char>)
    ensures
        r@ == text::join(text::of_strings(parts@), sep@),
{
    let mut out: Vec<char> = Vec::new();
    let ghost all = text::of_strings(parts@);
    let n: usize = parts.len();
    let mut i: usize = 0;
    assert(all.take(0).len() == 0);
    while i < n
        invariant
            i <= n == parts@.len(),
            all == text::of_strings(parts@),
            out@ == text::join(all.take(i as int), sep@),
        decreases n - i,
    {
        assert(all[i as int] == parts@[i as int]@);
        assert(all.take(i + 1).drop_last() == all.take(i as int));
        if i > 0 {
            append_str(&mut out, sep);
        }
        append_str(&mut out, parts[i].as_str());
        assert(i == 0 ==> out@ == all[0]);
        i += 1;
    }
    assert(all.take(n as int) == all);
    out
}

} // verus!
