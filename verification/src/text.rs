//! Texts as sequences of characters: conversion between strings and
//! character vectors, white space and trimming, the division of a text into
//! lines and into parts, and the order of dictionaries.

use vstd::prelude::*;
use crate::seqs::{leading, lemma_leading_at, lemma_leading_run, lemma_trailing_at, trailing};

verus! {

/// Appends one character to a string; this is `String::push`, which adds the
/// character at the end and changes nothing else.
#[verifier::external_body]
pub(crate) fn push_char(s: &mut String, c: char)
    ensures
        final(s)@ == old(s)@.push(c),
{
    s.push(c);
}

/// The characters of `s`, in order.
pub fn chars_of(s: &str) -> (out: Vec<char>)
    ensures
        out@ == s@,
{
    let mut out: Vec<char> = Vec::new();
    for c in it: s.chars()
        invariant
            out@ == it.seq().take(it.index() as int),
            it.seq() == s@,
    {
        out.push(c);
    }
    out
}

/// The string made of the characters `v`, in order.
pub fn string_of(v: &[char]) -> (out: String)
    ensures
        out@ == v@,
{
    let mut out = String::new();
    let mut i: usize = 0;
    while i < v.len()
        invariant
            i <= v.len(),
            out@ == v@.take(i as int),
        decreases v.len() - i,
    {
        push_char(&mut out, v[i]);
        i += 1;
    }
    out
}

/// The views of a sequence of strings.
pub open spec fn views(v: Seq<String>) -> Seq<Seq<char>> {
    Seq::new(v.len(), |i: int| v[i]@)
}

/// The views of a sequence with one more string are the views of the
/// sequence with one more view.
pub proof fn lemma_views_push(v: Seq<String>, l: String)
    ensures
        views(v.push(l)) == views(v).push(l@),
{
    assert(views(v.push(l)) =~= views(v).push(l@));
}

/// The views of a sequence of character vectors.
pub open spec fn char_views(v: Seq<Vec<char>>) -> Seq<Seq<char>> {
    Seq::new(v.len(), |i: int| v[i]@)
}

/// White space: blank, tab, line feed, carriage return, vertical tab and form
/// feed.
pub open spec fn is_space(c: char) -> bool {
    c == ' ' || c == '\t' || c == '\n' || c == '\r' || c == '\x0b' || c == '\x0c'
}

/// Whether `c` is white space.
pub fn is_space_char(c: char) -> (r: bool)
    ensures
        r == is_space(c),
{
    c == ' ' || c == '\t' || c == '\n' || c == '\r' || c == '\x0b' || c == '\x0c'
}

/// A text is blank when it holds nothing but white space; the empty text is
/// blank.
pub open spec fn is_blank(s: Seq<char>) -> bool {
    forall|i: int| 0 <= i < s.len() ==> is_space(#[trigger] s[i])
}

/// Whether `v` is blank.
pub fn blank(v: &[char]) -> (r: bool)
    ensures
        r == is_blank(v@),
{
    let mut i: usize = 0;
    while i < v.len()
        invariant
            i <= v.len(),
            forall|j: int| 0 <= j < i ==> is_space(#[trigger] v@[j]),
        decreases v.len() - i,
    {
        if !is_space_char(v[i]) {
            return false;
        }
        i += 1;
    }
    true
}

/// The test for white space, as a value.
pub open spec fn space() -> spec_fn(char) -> bool {
    |c: char| is_space(c)
}

/// `s` without its leading white space.
pub open spec fn trim_start(s: Seq<char>) -> Seq<char> {
    s.skip(leading(s, space()) as int)
}

/// `s` without its trailing white space.
pub open spec fn trim_end(s: Seq<char>) -> Seq<char> {
    s.take(s.len() - trailing(s, space()))
}

/// `s` without its leading and trailing white space.
pub open spec fn trim(s: Seq<char>) -> Seq<char> {
    trim_end(trim_start(s))
}

/// The trimmed form of `v`.
pub fn trimmed(v: &[char]) -> (out: Vec<char>)
    ensures
        out@ == trim(v@),
{
    let n = v.len();
    let mut a: usize = 0;
    while a < n && is_space_char(v[a])
        invariant
            a <= n,
            n == v.len(),
            forall|j: int| 0 <= j < a ==> is_space(#[trigger] v@[j]),
        decreases n - a,
    {
        a += 1;
    }
    let mut b: usize = n;
    while b > a && is_space_char(v[b - 1])
        invariant
            a <= b <= n,
            n == v.len(),
            forall|j: int| b <= j < n ==> is_space(#[trigger] v@[j]),
        decreases b,
    {
        b -= 1;
    }
    let mut out: Vec<char> = Vec::new();
    let mut i: usize = a;
    while i < b
        invariant
            a <= i <= b <= n,
            n == v.len(),
            out@ == v@.subrange(a as int, i as int),
        decreases b - i,
    {
        out.push(v[i]);
        i += 1;
    }
    proof {
        assert(a < n ==> !space()(v@[a as int]));
        lemma_leading_at(v@, space(), a as int);
        let t = v@.skip(a as int);
        assert forall|j: int| t.len() - (n - b) <= j < t.len() implies space()(#[trigger] t[j]) by {
            assert(t[j] == v@[j + a]);
        }
        if b > a {
            assert(t[b - a - 1] == v@[b - 1]);
        }
        lemma_trailing_at(t, space(), n - b);
        assert(t.take(b - a) =~= v@.subrange(a as int, b as int));
    }
    out
}

/// Whether `s` holds no line feed.
pub open spec fn is_line(s: Seq<char>) -> bool {
    free_of(s, '\n')
}

/// The lines of a text. Each line feed ends a line; what follows the last
/// line feed is a line of its own unless it is empty. The lines hold no line
/// feed, and the empty text has no line.
pub open spec fn split_lines(s: Seq<char>) -> Seq<Seq<char>>
    decreases s.len(),
{
    if s.len() == 0 {
        Seq::empty()
    } else {
        let i = index_of_char(s, '\n');
        if i < s.len() {
            seq![s.take(i as int)] + split_lines(s.skip(i as int + 1))
        } else {
            seq![s]
        }
    }
}

/// The text made of the given lines, each followed by a line feed.
pub open spec fn join_lines(lines: Seq<Seq<char>>) -> Seq<char>
    decreases lines.len(),
{
    if lines.len() == 0 {
        Seq::empty()
    } else {
        lines[0] + seq!['\n'] + join_lines(lines.drop_first())
    }
}

/// Joining one more line appends it, with its line feed, to the text.
pub proof fn lemma_join_push(lines: Seq<Seq<char>>, l: Seq<char>)
    ensures
        join_lines(lines.push(l)) == join_lines(lines) + l + seq!['\n'],
    decreases lines.len(),
{
    if lines.len() == 0 {
        let p = lines.push(l);
        assert(p.drop_first() =~= Seq::<Seq<char>>::empty());
        assert(join_lines(p.drop_first()) =~= Seq::<char>::empty());
        assert(join_lines(p) == p[0] + seq!['\n'] + join_lines(p.drop_first()));
        assert(join_lines(lines) =~= Seq::<char>::empty());
        assert(join_lines(p) =~= join_lines(lines) + l + seq!['\n']);
    } else {
        let rest = lines.drop_first();
        lemma_join_push(rest, l);
        assert(lines.push(l).drop_first() =~= rest.push(l));
        assert(lines.push(l)[0] == lines[0]);
        assert(join_lines(lines.push(l)) =~= join_lines(lines) + l + seq!['\n']);
    }
}

/// Splitting the joined text gives the lines back, provided that none of them
/// holds a line feed.
pub proof fn lemma_split_join(lines: Seq<Seq<char>>)
    requires
        forall|i: int| 0 <= i < lines.len() ==> is_line(#[trigger] lines[i]),
    ensures
        split_lines(join_lines(lines)) == lines,
    decreases lines.len(),
{
    if lines.len() == 0 {
    } else {
        let l = lines[0];
        let rest = lines.drop_first();
        let j = join_lines(lines);
        assert(is_line(l));
        assert(j == l + seq!['\n'] + join_lines(rest));
        assert(j[l.len() as int] == '\n');
        assert forall|i: int| 0 <= i < l.len() implies #[trigger] j[i] != '\n' by {
            assert(j[i] == l[i]);
        }
        lemma_leading_at(j, other_than('\n'), l.len() as int);
        assert(j.take(l.len() as int) =~= l);
        assert(j.skip(l.len() as int + 1) =~= join_lines(rest));
        assert forall|i: int| 0 <= i < rest.len() implies is_line(#[trigger] rest[i]) by {
            assert(rest[i] == lines[i + 1]);
        }
        lemma_split_join(rest);
        assert(seq![l] + rest =~= lines);
    }
}

/// The lines of the text `v`.
pub fn lines_of(v: &[char]) -> (out: Vec<Vec<char>>)
    ensures
        char_views(out@) == split_lines(v@),
{
    let n = v.len();
    let mut out: Vec<Vec<char>> = Vec::new();
    let mut cur: Vec<char> = Vec::new();
    let mut start: usize = 0;
    let mut i: usize = 0;
    proof {
        assert(v@.skip(0) =~= v@);
        assert(char_views(out@) + split_lines(v@.skip(0)) =~= split_lines(v@));
    }
    while i < n
        invariant
            start <= i <= n,
            n == v.len(),
            cur@ == v@.subrange(start as int, i as int),
            forall|j: int| start <= j < i ==> #[trigger] v@[j] != '\n',
            char_views(out@) + split_lines(v@.skip(start as int)) == split_lines(v@),
        decreases n - i,
    {
        let c = v[i];
        if c == '\n' {
            proof {
                let s = v@.skip(start as int);
                assert forall|j: int| 0 <= j < i - start implies #[trigger] s[j] != '\n' by {
                    assert(s[j] == v@[j + start]);
                }
                assert(s[i - start] == '\n');
                lemma_leading_at(s, other_than('\n'), i - start);
                assert(s.take(i - start) =~= cur@);
                assert(s.skip(i - start + 1) =~= v@.skip(i + 1));
                assert(char_views(out@.push(cur)) =~= char_views(out@) + seq![cur@]);
                assert(char_views(out@.push(cur)) + split_lines(v@.skip(i + 1)) =~= char_views(
                    out@,
                ) + split_lines(s));
            }
            out.push(cur);
            cur = Vec::new();
            start = i + 1;
        } else {
            cur.push(c);
        }
        i += 1;
    }
    if start < n {
        proof {
            let s = v@.skip(start as int);
            assert forall|j: int| 0 <= j < s.len() implies #[trigger] s[j] != '\n' by {
                assert(s[j] == v@[j + start]);
            }
            lemma_leading_at(s, other_than('\n'), s.len() as int);
            assert(s =~= cur@);
            assert(char_views(out@.push(cur)) =~= char_views(out@) + seq![cur@]);
        }
        out.push(cur);
    } else {
        proof {
            assert(v@.skip(start as int).len() == 0);
            assert(char_views(out@) + Seq::<Seq<char>>::empty() =~= char_views(out@));
        }
    }
    out
}

/// The test for blank lines, as a value.
pub open spec fn blank_line() -> spec_fn(Seq<char>) -> bool {
    |l: Seq<char>| is_blank(l)
}

/// The test for texts other than `k`, as a value.
pub open spec fn differs_from(k: Seq<char>) -> spec_fn(Seq<char>) -> bool {
    |x: Seq<char>| x != k
}

/// The place of the first occurrence of `k` in `keys`, or the length of
/// `keys` where it does not occur.
pub open spec fn first_index_of(keys: Seq<Seq<char>>, k: Seq<char>) -> nat {
    leading(keys, differs_from(k))
}

/// Whether the two texts are the same.
pub fn same_text(a: &str, b: &str) -> (r: bool)
    ensures
        r == (a@ == b@),
{
    let x = chars_of(a);
    let y = chars_of(b);
    same_chars(x.as_slice(), y.as_slice())
}

/// Whether the two runs of characters are the same.
pub fn same_chars(x: &[char], y: &[char]) -> (r: bool)
    ensures
        r == (x@ == y@),
{
    if x.len() != y.len() {
        return false;
    }
    let mut i: usize = 0;
    while i < x.len()
        invariant
            i <= x.len(),
            x.len() == y.len(),
            forall|j: int| 0 <= j < i ==> x@[j] == y@[j],
        decreases x.len() - i,
    {
        if x[i] != y[i] {
            return false;
        }
        i += 1;
    }
    proof {
        assert(x@ =~= y@);
    }
    true
}

// ---------------------------------------------------------------------
// Division by a separator

/// The test for characters other than `c`, as a value.
pub open spec fn other_than(c: char) -> spec_fn(char) -> bool {
    |x: char| x != c
}

/// The place of the first `c` in `s`, or the length of `s` where it holds
/// none.
pub open spec fn index_of_char(s: Seq<char>, c: char) -> nat {
    leading(s, other_than(c))
}

/// Whether `s` holds no `c`.
pub open spec fn free_of(s: Seq<char>, c: char) -> bool {
    forall|i: int| 0 <= i < s.len() ==> #[trigger] s[i] != c
}

/// The parts of `s` between the occurrences of `sep`. There is one part more
/// than there are separators, so the empty text has one part, the empty one.
pub open spec fn split_on(s: Seq<char>, sep: char) -> Seq<Seq<char>>
    decreases s.len(),
{
    let i = index_of_char(s, sep);
    if i < s.len() {
        seq![s.take(i as int)] + split_on(s.skip(i as int + 1), sep)
    } else {
        seq![s]
    }
}

/// The text made of the given parts with `sep` between each two of them.
pub open spec fn join_with(parts: Seq<Seq<char>>, sep: char) -> Seq<char>
    decreases parts.len(),
{
    if parts.len() == 0 {
        Seq::empty()
    } else if parts.len() == 1 {
        parts[0]
    } else {
        parts[0] + seq![sep] + join_with(parts.drop_first(), sep)
    }
}

/// A text has at least one part, its parts hold no separator, and joined
/// they give the text back.
pub proof fn lemma_join_split(s: Seq<char>, sep: char)
    ensures
        split_on(s, sep).len() > 0,
        forall|i: int|
            0 <= i < split_on(s, sep).len() ==> free_of(#[trigger] split_on(s, sep)[i], sep),
        join_with(split_on(s, sep), sep) == s,
    decreases s.len(),
{
    let i = index_of_char(s, sep) as int;
    lemma_leading_run(s, other_than(sep));
    if i < s.len() {
        let rest = s.skip(i + 1);
        lemma_join_split(rest, sep);
        let parts = split_on(s, sep);
        let tail = split_on(rest, sep);
        assert(parts == seq![s.take(i)] + tail);
        assert(parts.drop_first() =~= tail);
        assert(parts[0] == s.take(i));
        assert forall|j: int| 0 <= j < parts.len() implies free_of(#[trigger] parts[j], sep) by {
            if j > 0 {
                assert(parts[j] == tail[j - 1]);
            }
        }
        assert(join_with(parts, sep) == s.take(i) + seq![sep] + join_with(tail, sep));
        assert(s.take(i) + seq![sep] + rest =~= s);
    } else {
        assert(split_on(s, sep) == seq![s]);
    }
}

/// Dividing the joined text gives the parts back, provided that there is at
/// least one and none of them holds the separator.
pub proof fn lemma_split_join_with(parts: Seq<Seq<char>>, sep: char)
    requires
        parts.len() > 0,
        forall|i: int| 0 <= i < parts.len() ==> free_of(#[trigger] parts[i], sep),
    ensures
        split_on(join_with(parts, sep), sep) == parts,
    decreases parts.len(),
{
    let p = parts[0];
    assert(free_of(p, sep));
    if parts.len() == 1 {
        lemma_leading_at(p, other_than(sep), p.len() as int);
        assert(seq![p] =~= parts);
    } else {
        let rest = parts.drop_first();
        let j = join_with(parts, sep);
        assert(j == p + seq![sep] + join_with(rest, sep));
        assert(j[p.len() as int] == sep);
        assert forall|i: int| 0 <= i < p.len() implies #[trigger] j[i] != sep by {
            assert(j[i] == p[i]);
        }
        lemma_leading_at(j, other_than(sep), p.len() as int);
        assert(j.take(p.len() as int) =~= p);
        assert(j.skip(p.len() as int + 1) =~= join_with(rest, sep));
        assert forall|i: int| 0 <= i < rest.len() implies free_of(#[trigger] rest[i], sep) by {
            assert(rest[i] == parts[i + 1]);
        }
        lemma_split_join_with(rest, sep);
        assert(seq![p] + rest =~= parts);
    }
}

/// The parts of `v` between the occurrences of `sep`.
pub fn split(v: &[char], sep: char) -> (out: Vec<Vec<char>>)
    ensures
        char_views(out@) == split_on(v@, sep),
{
    let n = v.len();
    let mut out: Vec<Vec<char>> = Vec::new();
    let mut cur: Vec<char> = Vec::new();
    let mut start: usize = 0;
    let mut i: usize = 0;
    proof {
        assert(v@.skip(0) =~= v@);
        assert(char_views(out@) + split_on(v@.skip(0), sep) =~= split_on(v@, sep));
    }
    while i < n
        invariant
            start <= i <= n,
            n == v.len(),
            cur@ == v@.subrange(start as int, i as int),
            forall|j: int| start <= j < i ==> #[trigger] v@[j] != sep,
            char_views(out@) + split_on(v@.skip(start as int), sep) == split_on(v@, sep),
        decreases n - i,
    {
        let c = v[i];
        if c == sep {
            proof {
                let s = v@.skip(start as int);
                assert forall|j: int| 0 <= j < i - start implies #[trigger] s[j] != sep by {
                    assert(s[j] == v@[j + start]);
                }
                assert(s[i - start] == sep);
                lemma_leading_at(s, other_than(sep), i - start);
                assert(s.take(i - start) =~= cur@);
                assert(s.skip(i - start + 1) =~= v@.skip(i + 1));
                assert(char_views(out@.push(cur)) =~= char_views(out@) + seq![cur@]);
                assert(char_views(out@.push(cur)) + split_on(v@.skip(i + 1), sep) =~= char_views(
                    out@,
                ) + split_on(s, sep));
            }
            out.push(cur);
            cur = Vec::new();
            start = i + 1;
        } else {
            cur.push(c);
        }
        i += 1;
    }
    proof {
        let s = v@.skip(start as int);
        assert forall|j: int| 0 <= j < s.len() implies #[trigger] s[j] != sep by {
            assert(s[j] == v@[j + start]);
        }
        lemma_leading_at(s, other_than(sep), s.len() as int);
        assert(s =~= cur@);
        assert(char_views(out@.push(cur)) =~= char_views(out@) + seq![cur@]);
    }
    out.push(cur);
    out
}

/// Joining one more part appends it behind a separator, or gives the part
/// itself where it is the first.
pub proof fn lemma_join_with_push(parts: Seq<Seq<char>>, sep: char, p: Seq<char>)
    ensures
        join_with(parts.push(p), sep) == if parts.len() == 0 {
            p
        } else {
            join_with(parts, sep) + seq![sep] + p
        },
    decreases parts.len(),
{
    let q = parts.push(p);
    if parts.len() == 0 {
        assert(q[0] == p);
    } else if parts.len() == 1 {
        assert(q.drop_first() =~= seq![p]);
        assert(join_with(q.drop_first(), sep) == p);
        assert(q[0] == parts[0]);
    } else {
        let rest = parts.drop_first();
        lemma_join_with_push(rest, sep, p);
        assert(q.drop_first() =~= rest.push(p));
        assert(q[0] == parts[0]);
        assert(join_with(q, sep) =~= join_with(parts, sep) + seq![sep] + p);
    }
}

/// The text made of the given parts with `sep` between each two of them.
pub fn join_chars(parts: &Vec<Vec<char>>, sep: char) -> (out: Vec<char>)
    ensures
        out@ == join_with(char_views(parts@), sep),
{
    let ghost ps = char_views(parts@);
    let mut out: Vec<char> = Vec::new();
    let mut i: usize = 0;
    proof {
        assert(ps.take(0) =~= Seq::<Seq<char>>::empty());
    }
    while i < parts.len()
        invariant
            i <= parts.len(),
            ps == char_views(parts@),
            out@ == join_with(ps.take(i as int), sep),
        decreases parts.len() - i,
    {
        proof {
            lemma_join_with_push(ps.take(i as int), sep, ps[i as int]);
            assert(ps.take(i as int).push(ps[i as int]) =~= ps.take(i + 1));
        }
        if i > 0 {
            out.push(sep);
        }
        let p = &parts[i];
        let mut j: usize = 0;
        let ghost before = out@;
        while j < p.len()
            invariant
                j <= p.len(),
                out@ == before + p@.take(j as int),
            decreases p.len() - j,
        {
            out.push(p[j]);
            proof {
                assert(p@.take(j + 1) =~= p@.take(j as int).push(p@[j as int]));
            }
            j += 1;
        }
        proof {
            assert(p@.take(p.len() as int) =~= p@);
            assert(p@ == ps[i as int]);
        }
        i += 1;
    }
    proof {
        assert(ps.take(parts.len() as int) =~= ps);
    }
    out
}

// ---------------------------------------------------------------------
// The order of dictionaries

/// Whether `a` comes before `b`, or is equal to it, in the order of
/// dictionaries: by the first character in which they differ, and a text
/// before each of its extensions.
pub open spec fn lex_le(a: Seq<char>, b: Seq<char>) -> bool
    decreases a.len(),
{
    if a.len() == 0 {
        true
    } else if b.len() == 0 {
        false
    } else if a[0] != b[0] {
        a[0] < b[0]
    } else {
        lex_le(a.drop_first(), b.drop_first())
    }
}

/// Of two texts, one comes before the other or is equal to it.
pub proof fn lemma_lex_total(a: Seq<char>, b: Seq<char>)
    ensures
        lex_le(a, b) || lex_le(b, a),
    decreases a.len(),
{
    if a.len() > 0 && b.len() > 0 && a[0] == b[0] {
        lemma_lex_total(a.drop_first(), b.drop_first());
    }
}

/// The order of dictionaries is transitive.
pub proof fn lemma_lex_transitive(a: Seq<char>, b: Seq<char>, c: Seq<char>)
    requires
        lex_le(a, b),
        lex_le(b, c),
    ensures
        lex_le(a, c),
    decreases a.len(),
{
    if a.len() > 0 && b.len() > 0 && c.len() > 0 && a[0] == b[0] && b[0] == c[0] {
        lemma_lex_transitive(a.drop_first(), b.drop_first(), c.drop_first());
    }
}

/// Two texts that come before each other are the same text.
pub proof fn lemma_lex_antisymmetric(a: Seq<char>, b: Seq<char>)
    requires
        lex_le(a, b),
        lex_le(b, a),
    ensures
        a == b,
    decreases a.len(),
{
    if a.len() > 0 && b.len() > 0 {
        assert(a[0] == b[0]);
        lemma_lex_antisymmetric(a.drop_first(), b.drop_first());
        assert(a =~= seq![a[0]] + a.drop_first());
        assert(b =~= seq![b[0]] + b.drop_first());
    } else {
        assert(a =~= b);
    }
}

/// Whether `a` comes before `b`, or is equal to it, in the order of
/// dictionaries.
pub fn lex_le_chars(a: &[char], b: &[char]) -> (r: bool)
    ensures
        r == lex_le(a@, b@),
{
    let mut i: usize = 0;
    proof {
        assert(a@.skip(0) =~= a@);
        assert(b@.skip(0) =~= b@);
    }
    while i < a.len() && i < b.len()
        invariant
            i <= a.len(),
            i <= b.len(),
            lex_le(a@, b@) == lex_le(a@.skip(i as int), b@.skip(i as int)),
        decreases a.len() - i,
    {
        let x: char = a[i];
        let y: char = b[i];
        proof {
            let sa = a@.skip(i as int);
            let sb = b@.skip(i as int);
            assert(sa[0] == a@[i as int]);
            assert(sb[0] == b@[i as int]);
            assert(sa.drop_first() =~= a@.skip(i + 1));
            assert(sb.drop_first() =~= b@.skip(i + 1));
        }
        if x != y {
            return x < y;
        }
        i += 1;
    }
    i == a.len()
}

} // verus!
