//! Character-level helpers shared by the naming and parsing code.

use vstd::prelude::*;

verus! {

/// `String::push` appends one character.
pub assume_specification[ String::push ](s: &mut String, ch: char)
    ensures
        final(s)@ == old(s)@.push(ch),
;

/// The characters of `s`, in order.
pub fn chars_of(s: &str) -> (v: Vec<char>)
    ensures
        v@ == s@,
{
    let mut v: Vec<char> = Vec::new();
    for c in it: s.chars()
        invariant
            v@ == it.seq().take(it.index() as int),
    {
        v.push(c);
    }
    v
}

/// A `String` holding exactly the given characters.
pub fn string_from_chars(v: &[char]) -> (s: String)
    ensures
        s@ == v@,
{
    let mut s = String::new();
    let mut i: usize = 0;
    while i < v.len()
        invariant
            i <= v.len(),
            s@ == v@.take(i as int),
        decreases v.len() - i,
    {
        s.push(v[i]);
        i = i + 1;
        proof { assert(v@.take(i as int) == v@.take(i - 1).push(v@[i - 1])); }
    }
    proof { assert(v@.take(v@.len() as int) == v@); }
    s
}

} // verus!

verus! {

/// ASCII upper-case letters map to lower case; everything else is kept.
pub open spec fn lower_char(c: char) -> char {
    if 'A' <= c <= 'Z' {
        ((c as u32) + 32) as char
    } else {
        c
    }
}

/// `s` with every ASCII letter in lower case.
pub open spec fn lower_seq(s: Seq<char>) -> Seq<char> {
    s.map_values(|c: char| lower_char(c))
}

pub fn ascii_lower_char(c: char) -> (l: char)
    ensures
        l == lower_char(c),
{
    if 'A' <= c && c <= 'Z' {
        ((c as u8) + 32) as char
    } else {
        c
    }
}

/// `s` with every ASCII letter in lower case (`str::to_ascii_lowercase`).
pub fn ascii_lower(s: &str) -> (r: String)
    ensures
        r@ == lower_seq(s@),
{
    let cs = chars_of(s);
    let mut out: Vec<char> = Vec::new();
    let mut i: usize = 0;
    while i < cs.len()
        invariant
            i <= cs@.len(),
            cs@ == s@,
            out@ == lower_seq(s@).take(i as int),
        decreases cs.len() - i,
    {
        out.push(ascii_lower_char(cs[i]));
        i = i + 1;
        proof {
            assert(out@ == lower_seq(s@).take(i as int));
        }
    }
    proof {
        assert(lower_seq(s@).take(i as int) == lower_seq(s@));
    }
    string_from_chars(out.as_slice())
}

/// `v[start..start + w.len()]` equals `w`.
pub fn chars_match_at(v: &Vec<char>, start: usize, w: &Vec<char>) -> (r: bool)
    requires
        start + w@.len() <= v@.len(),
    ensures
        r == (v@.subrange(start as int, start + w@.len()) == w@),
{
    let vl = v.len();
    let mut k: usize = 0;
    while k < w.len()
        invariant
            vl == v@.len(),
            start + w@.len() <= v@.len(),
            k <= w@.len(),
            forall|q: int| 0 <= q < k ==> v@[start + q] == w@[q],
        decreases w.len() - k,
    {
        if v[start + k] != w[k] {
            proof {
                assert(v@.subrange(start as int, start + w@.len())[k as int] != w@[k as int]);
            }
            return false;
        }
        k = k + 1;
    }
    proof {
        assert(v@.subrange(start as int, start + w@.len()) =~= w@);
    }
    true
}

/// Equality of the characters of two strings.
pub fn str_eq(a: &str, b: &str) -> (r: bool)
    ensures
        r == (a@ == b@),
{
    let av = chars_of(a);
    let bv = chars_of(b);
    if av.len() != bv.len() {
        return false;
    }
    let r = chars_match_at(&av, 0, &bv);
    proof {
        assert(av@.subrange(0, bv@.len() as int) =~= av@);
    }
    r
}

/// Equality up to ASCII case (`str::eq_ignore_ascii_case`).
pub fn eq_ignore_ascii_case(a: &str, b: &str) -> (r: bool)
    ensures
        r == (lower_seq(a@) == lower_seq(b@)),
{
    let la = ascii_lower(a);
    let lb = ascii_lower(b);
    str_eq(la.as_str(), lb.as_str())
}

/// `needle` occurs somewhere in `hay`.
pub open spec fn has_infix(hay: Seq<char>, needle: Seq<char>) -> bool {
    exists|i: int| 0 <= i && i + needle.len() <= hay.len() && #[trigger] hay.subrange(i, i + needle.len()) == needle
}

/// `hay` starts with `p`.
pub open spec fn has_prefix(hay: Seq<char>, p: Seq<char>) -> bool {
    p.len() <= hay.len() && hay.subrange(0, p.len() as int) == p
}

/// `hay` ends with `p`.
pub open spec fn has_suffix(hay: Seq<char>, p: Seq<char>) -> bool {
    p.len() <= hay.len() && hay.subrange(hay.len() - p.len(), hay.len() as int) == p
}

/// Substring search (`str::contains` with a string pattern).
pub fn str_contains(hay: &str, needle: &str) -> (r: bool)
    ensures
        r == has_infix(hay@, needle@),
{
    let h = chars_of(hay);
    let w = chars_of(needle);
    if w.len() > h.len() {
        return false;
    }
    let last = h.len() - w.len();
    let mut i: usize = 0;
    loop
        invariant
            h@ == hay@,
            w@ == needle@,
            last + w@.len() == h@.len(),
            i <= last,
            forall|q: int| 0 <= q < i ==> #[trigger] h@.subrange(q, q + w@.len()) != w@,
        decreases last - i,
    {
        if chars_match_at(&h, i, &w) {
            return true;
        }
        if i == last {
            return false;
        }
        i = i + 1;
    }
}

/// `str::starts_with` with a string pattern.
pub fn str_starts_with(hay: &str, p: &str) -> (r: bool)
    ensures
        r == has_prefix(hay@, p@),
{
    let h = chars_of(hay);
    let w = chars_of(p);
    if w.len() > h.len() {
        return false;
    }
    chars_match_at(&h, 0, &w)
}

/// `str::ends_with` with a string pattern.
pub fn str_ends_with(hay: &str, p: &str) -> (r: bool)
    ensures
        r == has_suffix(hay@, p@),
{
    let h = chars_of(hay);
    let w = chars_of(p);
    if w.len() > h.len() {
        return false;
    }
    chars_match_at(&h, h.len() - w.len(), &w)
}

/// The decimal digit character for `d < 10`.
pub open spec fn digit_char(d: nat) -> char {
    ((d + 48) as u32) as char
}

/// Decimal representation of `n`, without leading zeros.
pub open spec fn decimal(n: nat) -> Seq<char>
    decreases n,
{
    if n < 10 {
        seq![digit_char(n)]
    } else {
        decimal(n / 10).push(digit_char(n % 10))
    }
}

/// Append the decimal representation of `n` to `s`.
pub fn push_decimal(s: &mut String, n: u64)
    ensures
        final(s)@ == old(s)@ + decimal(n as nat),
    decreases n,
{
    if n >= 10 {
        push_decimal(s, n / 10);
    }
    let d = (n % 10) as u8;
    s.push((d + 48) as char);
    proof {
        assert(digit_char((n % 10) as nat) == ((d + 48) as char));
    }
}

/// The decimal representation of `n` as a new string.
pub fn decimal_string(n: u64) -> (s: String)
    ensures
        s@ == decimal(n as nat),
{
    let mut s = String::new();
    push_decimal(&mut s, n);
    proof {
        assert(Seq::<char>::empty() + decimal(n as nat) == decimal(n as nat));
    }
    s
}

} // verus!
