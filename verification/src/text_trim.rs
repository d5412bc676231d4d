//! First-line extraction and Unicode whitespace trimming.

use vstd::prelude::*;
use crate::text::{chars_of, string_from_chars};

verus! {

/// `char::is_whitespace`: the Unicode `White_Space` characters.
pub open spec fn is_white(c: char) -> bool {
    ||| c == '\t' || c == '\n' || c == '\x0B' || c == '\x0C' || c == '\r' || c == ' '
    ||| c == '\u{85}' || c == '\u{A0}' || c == '\u{1680}'
    ||| ('\u{2000}' <= c && c <= '\u{200A}')
    ||| c == '\u{2028}' || c == '\u{2029}' || c == '\u{202F}' || c == '\u{205F}' || c == '\u{3000}'
}

pub fn is_white_char(c: char) -> (b: bool)
    ensures
        b == is_white(c),
{
    c == '\t' || c == '\n' || c == '\x0B' || c == '\x0C' || c == '\r' || c == ' ' || c == '\u{85}'
        || c == '\u{A0}' || c == '\u{1680}' || ('\u{2000}' <= c && c <= '\u{200A}') || c == '\u{2028}'
        || c == '\u{2029}' || c == '\u{202F}' || c == '\u{205F}' || c == '\u{3000}'
}

/// Index of the first `\n` in `s`, or its length.
pub open spec fn line_end(s: Seq<char>, i: int) -> int
    decreases s.len() - i,
{
    if i >= s.len() {
        s.len() as int
    } else if s[i] == '\n' {
        i
    } else {
        line_end(s, i + 1)
    }
}

/// The first line of `s` as `str::lines` yields it (a trailing `\r` is
/// dropped), or empty when `s` is empty.
pub open spec fn first_line(s: Seq<char>) -> Seq<char> {
    let l = s.take(line_end(s, 0));
    if l.len() > 0 && l.last() == '\r' {
        l.drop_last()
    } else {
        l
    }
}

/// Index of the first non-whitespace character at or after `i`.
pub open spec fn trim_start_at(s: Seq<char>, i: int) -> int
    decreases s.len() - i,
{
    if i >= s.len() {
        s.len() as int
    } else if is_white(s[i]) {
        trim_start_at(s, i + 1)
    } else {
        i
    }
}

/// One past the last non-whitespace character before `j`.
pub open spec fn trim_end_at(s: Seq<char>, j: int) -> int
    decreases j,
{
    if j <= 0 {
        0
    } else if is_white(s[j - 1]) {
        trim_end_at(s, j - 1)
    } else {
        j
    }
}

/// `str::trim`.
pub open spec fn trimmed(s: Seq<char>) -> Seq<char> {
    let a = trim_start_at(s, 0);
    let b = trim_end_at(s, s.len() as int);
    if a >= b {
        Seq::empty()
    } else {
        s.subrange(a, b)
    }
}

proof fn lemma_line_end(s: Seq<char>, i: int)
    requires
        0 <= i <= s.len(),
    ensures
        i <= line_end(s, i) <= s.len(),
    decreases s.len() - i,
{
    if i < s.len() && s[i] != '\n' {
        lemma_line_end(s, i + 1);
    }
}

proof fn lemma_trim_start(s: Seq<char>, i: int)
    requires
        0 <= i <= s.len(),
    ensures
        i <= trim_start_at(s, i) <= s.len(),
    decreases s.len() - i,
{
    if i < s.len() && is_white(s[i]) {
        lemma_trim_start(s, i + 1);
    }
}

proof fn lemma_trim_end(s: Seq<char>, j: int)
    requires
        0 <= j <= s.len(),
    ensures
        0 <= trim_end_at(s, j) <= j,
    decreases j,
{
    if j > 0 && is_white(s[j - 1]) {
        lemma_trim_end(s, j - 1);
    }
}

/// The first line of `text`, trimmed of surrounding whitespace.
pub fn first_line_trimmed(text: &str) -> (r: String)
    ensures
        r@ == trimmed(first_line(text@)),
{
    let cs = chars_of(text);
    let ghost s = text@;
    let mut e: usize = 0;
    while e < cs.len() && cs[e] != '\n'
        invariant
            cs@ == s,
            e <= cs@.len(),
            line_end(s, e as int) == line_end(s, 0),
        decreases cs.len() - e,
    {
        e = e + 1;
    }
    proof {
        lemma_line_end(s, 0);
    }
    let mut end = e;
    if end > 0 && cs[end - 1] == '\r' {
        end = end - 1;
    }
    let line = vstd::slice::slice_subrange(cs.as_slice(), 0, end);
    let ghost l = line@;
    proof {
        assert(l == first_line(s));
    }
    let mut a: usize = 0;
    while a < line.len() && is_white_char(line[a])
        invariant
            line@ == l,
            a <= l.len(),
            trim_start_at(l, a as int) == trim_start_at(l, 0),
        decreases line.len() - a,
    {
        a = a + 1;
    }
    let mut b: usize = line.len();
    while b > 0 && is_white_char(line[b - 1])
        invariant
            line@ == l,
            b <= l.len(),
            trim_end_at(l, b as int) == trim_end_at(l, l.len() as int),
        decreases b,
    {
        b = b - 1;
    }
    if a >= b {
        String::new()
    } else {
        string_from_chars(vstd::slice::slice_subrange(line, a, b))
    }
}

} // verus!
