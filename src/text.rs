//! Character-level helpers on text: conversion between `String` and
//! `Vec<char>`, trimming, searching and line structure.
use vstd::prelude::*;
use vstd::std_specs::iter::IteratorSpec;

verus! {

/// Relies on `String::push`: appends one character to the string.
#[verifier::external_body]
fn push_char(s: &mut String, c: char)
    ensures
        final(s)@ == old(s)@.push(c),
{
    s.push(c)
}

/// The characters of `s`, in order.
pub fn chars_of(s: &str) -> (r: Vec<char>)
    ensures
        r@ == s@,
{
    let mut out: Vec<char> = Vec::new();
    let mut it = s.chars();
    loop
        invariant
            it.obeys_prophetic_iter_laws(),
            out@ + it.remaining() == s@,
            it.decrease() is Some,
        ensures
            out@ == s@,
        decreases it.decrease()->0,
    {
        match it.next() {
            Some(c) => {
                out.push(c);
            },
            None => {
                assert(out@ + it.remaining() =~= out@);
                break;
            },
        }
    }
    out
}

/// The string made of the characters of `v`.
pub fn string_of(v: &Vec<char>) -> (r: String)
    ensures
        r@ == v@,
{
    let mut out = String::new();
    let mut i: usize = 0;
    while i < v.len()
        invariant
            i <= v@.len(),
            out@ == v@.subrange(0, i as int),
        decreases v@.len() - i,
    {
        push_char(&mut out, v[i]);
        i = i + 1;
    }
    out
}

/// Whether `c` is white space in Unicode's sense (the `White_Space`
/// property), as `char::is_whitespace` documents it.
pub open spec fn is_ws(c: char) -> bool {
    ('\u{9}' <= c && c <= '\u{d}') || c == ' ' || c == '\u{85}' || c == '\u{a0}' || c
        == '\u{1680}' || ('\u{2000}' <= c && c <= '\u{200a}') || c == '\u{2028}' || c
        == '\u{2029}' || c == '\u{202f}' || c == '\u{205f}' || c == '\u{3000}'
}

/// Whether `c` is white space in Unicode's sense.
pub fn is_whitespace(c: char) -> (r: bool)
    ensures
        r == is_ws(c),
{
    ('\u{9}' <= c && c <= '\u{d}') || c == ' ' || c == '\u{85}' || c == '\u{a0}' || c
        == '\u{1680}' || ('\u{2000}' <= c && c <= '\u{200a}') || c == '\u{2028}' || c
        == '\u{2029}' || c == '\u{202f}' || c == '\u{205f}' || c == '\u{3000}'
}

/// `s` without its leading white space.
pub open spec fn trim_start(s: Seq<char>) -> Seq<char>
    decreases s.len(),
{
    if s.len() > 0 && is_ws(s[0]) {
        trim_start(s.drop_first())
    } else {
        s
    }
}

/// `s` without its trailing white space.
pub open spec fn trim_end(s: Seq<char>) -> Seq<char>
    decreases s.len(),
{
    if s.len() > 0 && is_ws(s.last()) {
        trim_end(s.drop_last())
    } else {
        s
    }
}

/// `s` without its leading and trailing white space.
pub open spec fn trim(s: Seq<char>) -> Seq<char> {
    trim_end(trim_start(s))
}

/// `s` without the run of spaces and tabs at its end.
pub open spec fn trim_blank_tail(s: Seq<char>) -> Seq<char>
    decreases s.len(),
{
    if s.len() > 0 && (s.last() == ' ' || s.last() == '\t') {
        trim_blank_tail(s.drop_last())
    } else {
        s
    }
}

/// The position of the first line feed at or after `q`, or the length of
/// `t` when there is none.
pub open spec fn line_end(t: Seq<char>, q: int) -> int
    decreases t.len() - q,
{
    if q < 0 || q >= t.len() || t[q] == '\n' {
        q
    } else {
        line_end(t, q + 1)
    }
}

/// The start of the line after the one that starts at `q`, or the length of
/// `t` when that line is the last.
pub open spec fn after_line(t: Seq<char>, q: int) -> int {
    if line_end(t, q) < t.len() {
        line_end(t, q) + 1
    } else {
        t.len() as int
    }
}

/// The line that starts at `q`, without its line feed.
pub open spec fn line_at(t: Seq<char>, q: int) -> Seq<char> {
    t.subrange(q, line_end(t, q))
}

/// The lines of `s`, split at line feeds; a line feed that ends `s` does not
/// open a last, empty line.
pub open spec fn lines_of(s: Seq<char>) -> Seq<Seq<char>>
    decreases s.len() via lines_of_decreases
{
    if s.len() == 0 {
        Seq::empty()
    } else {
        let e = line_end(s, 0);
        if e >= s.len() {
            seq![s]
        } else {
            seq![s.subrange(0, e)] + lines_of(s.subrange(e + 1, s.len() as int))
        }
    }
}

#[via_fn]
proof fn lines_of_decreases(s: Seq<char>) {
    lemma_line_end(s, 0);
}

/// The first position at or after `from` where `pat` occurs in `t`, or -1.
pub open spec fn find_from(t: Seq<char>, from: int, pat: Seq<char>) -> int
    decreases t.len() + 1 - from,
{
    if from < 0 || from + pat.len() > t.len() {
        -1
    } else if t.subrange(from, from + pat.len()) == pat {
        from
    } else {
        find_from(t, from + 1, pat)
    }
}

/// Whether `pat` occurs in `hay`.
pub open spec fn contains(hay: Seq<char>, pat: Seq<char>) -> bool {
    find_from(hay, 0, pat) >= 0
}

pub proof fn lemma_line_end(t: Seq<char>, q: int)
    requires
        0 <= q,
    ensures
        q <= line_end(t, q),
        q <= t.len() ==> line_end(t, q) <= t.len(),
        q > t.len() ==> line_end(t, q) == q,
        line_end(t, q) < t.len() ==> t[line_end(t, q)] == '\n',
        forall|j: int| q <= j < line_end(t, q) ==> t[j] != '\n',
    decreases t.len() - q,
{
    if q < t.len() && t[q] != '\n' {
        lemma_line_end(t, q + 1);
    }
}

pub proof fn lemma_after_line(t: Seq<char>, q: int)
    requires
        0 <= q < t.len(),
    ensures
        q < after_line(t, q) <= t.len(),
        line_end(t, q) <= t.len(),
{
    lemma_line_end(t, q);
}

pub proof fn lemma_line_end_shift(s: Seq<char>, a: int, q: int)
    requires
        0 <= a <= q <= s.len(),
    ensures
        line_end(s.subrange(a, s.len() as int), q - a) == line_end(s, q) - a,
    decreases s.len() - q,
{
    if q < s.len() && s[q] != '\n' {
        lemma_line_end_shift(s, a, q + 1);
    }
}

pub proof fn lemma_find_from(t: Seq<char>, from: int, pat: Seq<char>)
    requires
        0 <= from,
    ensures
        find_from(t, from, pat) == -1 || (from <= find_from(t, from, pat) && find_from(t, from, pat)
            + pat.len() <= t.len() && t.subrange(
            find_from(t, from, pat),
            find_from(t, from, pat) + pat.len(),
        ) == pat),
        forall|m: int|
            from <= m && (find_from(t, from, pat) == -1 || m < find_from(t, from, pat)) && m
                + pat.len() <= t.len() ==> #[trigger] t.subrange(m, m + pat.len()) != pat,
    decreases t.len() + 1 - from,
{
    if from + pat.len() <= t.len() && t.subrange(from, from + pat.len()) != pat {
        lemma_find_from(t, from + 1, pat);
    }
}

/// The position of the first line feed at or after `q`, or the length of
/// `t` when there is none.
pub fn find_line_end(t: &Vec<char>, q: usize) -> (r: usize)
    requires
        q <= t@.len(),
    ensures
        r == line_end(t@, q as int),
{
    let mut j = q;
    proof {
        lemma_line_end(t@, q as int);
    }
    while j < t.len() && t[j] != '\n'
        invariant
            q <= j <= t@.len(),
            line_end(t@, j as int) == line_end(t@, q as int),
        decreases t@.len() - j,
    {
        j = j + 1;
    }
    j
}

/// The start of the line after the one that starts at `q`, or the length of
/// `t` when that line is the last.
pub fn next_line_start(t: &Vec<char>, q: usize) -> (r: usize)
    requires
        q <= t@.len(),
    ensures
        r == after_line(t@, q as int),
{
    let e = find_line_end(t, q);
    if e < t.len() {
        e + 1
    } else {
        t.len()
    }
}

/// The views of a sequence of character vectors.
pub open spec fn texts_view(v: Seq<Vec<char>>) -> Seq<Seq<char>> {
    v.map_values(|l: Vec<char>| l@)
}

/// The lines of `s`.
pub fn split_lines(s: &Vec<char>) -> (r: Vec<Vec<char>>)
    ensures
        texts_view(r@) == lines_of(s@),
{
    let mut out: Vec<Vec<char>> = Vec::new();
    let mut a: usize = 0;
    assert(s@.subrange(0, s@.len() as int) =~= s@);
    while a < s.len()
        invariant
            a <= s@.len(),
            texts_view(out@) + lines_of(s@.subrange(a as int, s@.len() as int)) == lines_of(s@),
        decreases s@.len() - a,
    {
        let ghost rest = s@.subrange(a as int, s@.len() as int);
        let e = find_line_end(s, a);
        proof {
            lemma_line_end_shift(s@, a as int, a as int);
            lemma_line_end(s@, a as int);
        }
        let line = slice_of(s, a, e);
        let ghost before = texts_view(out@);
        out.push(line);
        assert(texts_view(out@) =~= before.push(line@));
        assert(rest.subrange(0, e - a) =~= line@);
        if e == s.len() {
            assert(lines_of(rest) == seq![rest]);
            assert(rest =~= line@);
            assert(lines_of(s@.subrange(s@.len() as int, s@.len() as int)) =~= Seq::<Seq<char>>::empty());
            assert(texts_view(out@) + Seq::<Seq<char>>::empty() =~= before + lines_of(rest));
            a = e;
        } else {
            assert(rest.subrange(e - a + 1, rest.len() as int) =~= s@.subrange(e + 1, s@.len() as int));
            assert(lines_of(rest) == seq![line@] + lines_of(s@.subrange(e + 1, s@.len() as int)));
            assert(texts_view(out@) + lines_of(s@.subrange(e + 1, s@.len() as int)) =~= before + lines_of(rest));
            a = e + 1;
        }
    }
    assert(lines_of(s@.subrange(a as int, s@.len() as int)) =~= Seq::<Seq<char>>::empty());
    assert(texts_view(out@) =~= texts_view(out@) + Seq::<Seq<char>>::empty());
    out
}

/// Whether `a` and `b` hold the same characters.
pub fn same_text(a: &Vec<char>, b: &Vec<char>) -> (r: bool)
    ensures
        r == (a@ == b@),
{
    if a.len() != b.len() {
        return false;
    }
    let mut i: usize = 0;
    while i < a.len()
        invariant
            a@.len() == b@.len(),
            i <= a@.len(),
            forall|j: int| 0 <= j < i ==> a@[j] == b@[j],
        decreases a@.len() - i,
    {
        if a[i] != b[i] {
            return false;
        }
        i = i + 1;
    }
    assert(a@ =~= b@);
    true
}

/// Whether `pat` occurs in `t` at position `m`.
pub fn matches_at(t: &Vec<char>, m: usize, pat: &Vec<char>) -> (r: bool)
    ensures
        r == (m + pat@.len() <= t@.len() && t@.subrange(m as int, m + pat@.len()) == pat@),
{
    if pat.len() > t.len() || m > t.len() - pat.len() {
        return false;
    }
    let n = t.len();
    let mut i: usize = 0;
    while i < pat.len()
        invariant
            n == t@.len(),
            m + pat@.len() <= t@.len(),
            i <= pat@.len(),
            forall|j: int| 0 <= j < i ==> t@[m + j] == pat@[j],
        decreases pat@.len() - i,
    {
        assert(m + i < t@.len());
        if t[m + i] != pat[i] {
            assert(t@.subrange(m as int, m + pat@.len())[i as int] != pat@[i as int]);
            return false;
        }
        i = i + 1;
    }
    assert(t@.subrange(m as int, m + pat@.len()) =~= pat@);
    true
}

/// The first position at or after `from` where `pat` occurs in `t`.
pub fn find_pattern(t: &Vec<char>, from: usize, pat: &Vec<char>) -> (r: Option<usize>)
    ensures
        match r {
            Some(m) => m as int == find_from(t@, from as int, pat@),
            None => find_from(t@, from as int, pat@) == -1,
        },
{
    if pat.len() > t.len() || from > t.len() - pat.len() {
        return None;
    }
    let mut m = from;
    loop
        invariant
            from <= m <= t@.len() - pat@.len(),
            find_from(t@, m as int, pat@) == find_from(t@, from as int, pat@),
        decreases t@.len() - m,
    {
        if matches_at(t, m, pat) {
            return Some(m);
        }
        if m == t.len() - pat.len() {
            assert(find_from(t@, m + 1, pat@) == -1);
            return None;
        }
        m = m + 1;
    }
}

/// Whether `pat` occurs in `hay` between positions `a` and `b`.
pub fn contains_between(hay: &Vec<char>, a: usize, b: usize, pat: &Vec<char>) -> (r: bool)
    requires
        a <= b <= hay@.len(),
    ensures
        r == contains(hay@.subrange(a as int, b as int), pat@),
{
    let ghost line = hay@.subrange(a as int, b as int);
    if pat.len() > b - a {
        return false;
    }
    let mut m = a;
    loop
        invariant
            a <= m <= b - pat@.len(),
            b <= hay@.len(),
            line == hay@.subrange(a as int, b as int),
            find_from(line, (m - a) as int, pat@) == find_from(line, 0, pat@),
        decreases b - m,
    {
        let hit = matches_at(hay, m, pat);
        assert(line.subrange(m - a, m - a + pat@.len()) =~= hay@.subrange(
            m as int,
            m + pat@.len(),
        ));
        if hit {
            return true;
        }
        if m == b - pat.len() {
            assert(find_from(line, m + 1 - a, pat@) == -1);
            return false;
        }
        m = m + 1;
    }
}

/// The characters of `v` from position `a` up to `b`.
pub fn slice_of(v: &Vec<char>, a: usize, b: usize) -> (r: Vec<char>)
    requires
        a <= b <= v@.len(),
    ensures
        r@ == v@.subrange(a as int, b as int),
{
    let mut out: Vec<char> = Vec::new();
    let mut i = a;
    while i < b
        invariant
            a <= i <= b,
            b <= v@.len(),
            out@ == v@.subrange(a as int, i as int),
        decreases b - i,
    {
        out.push(v[i]);
        assert(v@.subrange(a as int, i + 1) =~= v@.subrange(a as int, i as int).push(v@[i as int]));
        i = i + 1;
    }
    out
}

/// Appends the characters of `v` from position `a` up to `b` to `out`.
pub fn extend_from(out: &mut Vec<char>, v: &Vec<char>, a: usize, b: usize)
    requires
        a <= b <= v@.len(),
    ensures
        final(out)@ == old(out)@ + v@.subrange(a as int, b as int),
{
    let mut i = a;
    while i < b
        invariant
            a <= i <= b,
            b <= v@.len(),
            out@ == old(out)@ + v@.subrange(a as int, i as int),
        decreases b - i,
    {
        out.push(v[i]);
        assert(v@.subrange(a as int, i + 1) =~= v@.subrange(a as int, i as int).push(v@[i as int]));
        i = i + 1;
    }
}

/// `s` without its leading and trailing white space.
pub fn trimmed(s: &Vec<char>) -> (r: Vec<char>)
    ensures
        r@ == trim(s@),
{
    let mut a: usize = 0;
    assert(s@.subrange(0, s@.len() as int) =~= s@);
    while a < s.len() && is_whitespace(s[a])
        invariant
            a <= s@.len(),
            trim_start(s@) == trim_start(s@.subrange(a as int, s@.len() as int)),
        decreases s@.len() - a,
    {
        assert(s@.subrange(a as int, s@.len() as int).drop_first() =~= s@.subrange(
            a + 1,
            s@.len() as int,
        ));
        a = a + 1;
    }
    let ghost front = s@.subrange(a as int, s@.len() as int);
    assert(trim_start(s@) == front);
    let mut b: usize = s.len();
    assert(front.subrange(0, (b - a) as int) =~= front);
    while b > a && is_whitespace(s[b - 1])
        invariant
            a <= b <= s@.len(),
            front == s@.subrange(a as int, s@.len() as int),
            trim_end(front) == trim_end(s@.subrange(a as int, b as int)),
        decreases b,
    {
        assert(s@.subrange(a as int, b as int).drop_last() =~= s@.subrange(a as int, b - 1));
        b = b - 1;
    }
    slice_of(s, a, b)
}

/// `s` without the run of spaces and tabs at its end.
pub fn trim_blanks_end(s: &Vec<char>, end: usize) -> (r: usize)
    requires
        end <= s@.len(),
    ensures
        r <= end,
        s@.subrange(0, r as int) == trim_blank_tail(s@.subrange(0, end as int)),
{
    let mut b = end;
    while b > 0 && (s[b - 1] == ' ' || s[b - 1] == '\t')
        invariant
            b <= end <= s@.len(),
            trim_blank_tail(s@.subrange(0, b as int)) == trim_blank_tail(
                s@.subrange(0, end as int),
            ),
        decreases b,
    {
        assert(s@.subrange(0, b as int).drop_last() =~= s@.subrange(0, b - 1));
        b = b - 1;
    }
    b
}

} // verus!
