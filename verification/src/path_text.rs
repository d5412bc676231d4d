//! Unix path handling on the characters of a path: the final component,
//! stem and extension, and joining.

use vstd::prelude::*;
use crate::text::{chars_of, string_from_chars, decimal, push_decimal};

verus! {

/// The characters after the last `/` of `s`.
pub open spec fn last_segment(s: Seq<char>) -> Seq<char>
    decreases s.len(),
{
    if s.len() == 0 || s.last() == '/' {
        Seq::empty()
    } else {
        last_segment(s.drop_last()).push(s.last())
    }
}

/// The final component of a path, as `Path::file_name` gives it: trailing
/// slashes and `.` components are skipped, and a final `..` (or no
/// component at all) gives nothing.
pub open spec fn path_file_name(s: Seq<char>) -> Option<Seq<char>>
    decreases s.len(),
{
    if s.len() == 0 {
        None
    } else if s.last() == '/' {
        path_file_name(s.drop_last())
    } else if last_segment(s) == seq!['.'] {
        path_file_name(s.drop_last())
    } else if last_segment(s) == seq!['.', '.'] {
        None
    } else {
        Some(last_segment(s))
    }
}

proof fn lemma_last_segment(s: Seq<char>, start: int, end: int)
    requires
        0 <= start <= end <= s.len(),
        forall|k: int| start <= k < end ==> s[k] != '/',
        start == 0 || s[start - 1] == '/',
    ensures
        last_segment(s.take(end)) == s.subrange(start, end),
    decreases end,
{
    let t = s.take(end);
    if end == start {
        if start > 0 {
            assert(t.last() == '/');
        }
    } else {
        assert(t.drop_last() == s.take(end - 1));
        lemma_last_segment(s, start, end - 1);
        assert(s.subrange(start, end - 1).push(s[end - 1]) == s.subrange(start, end));
    }
}

/// The final component of `path` (`Path::file_name`).
pub fn file_name(path: &str) -> (r: Option<String>)
    ensures
        r matches Some(n) ==> path_file_name(path@) == Some(n@),
        r is None ==> path_file_name(path@) is None,
{
    let cs = chars_of(path);
    let ghost s = path@;
    let mut end: usize = cs.len();
    proof {
        assert(s.take(end as int) == s);
    }
    loop
        invariant
            s == path@,
            cs@ == s,
            end <= cs@.len(),
            path_file_name(s.take(end as int)) == path_file_name(s),
        decreases end,
    {
        if end == 0 {
            proof {
                assert(s.take(0).len() == 0);
            }
            return None;
        }
        if cs[end - 1] == '/' {
            proof {
                assert(s.take(end as int).drop_last() == s.take(end - 1));
            }
            end = end - 1;
            continue;
        }
        let mut start: usize = end;
        while start > 0 && cs[start - 1] != '/'
            invariant
                cs@ == s,
                start <= end <= cs@.len(),
                forall|k: int| start <= k < end ==> s[k] != '/',
            decreases start,
        {
            start = start - 1;
        }
        proof {
            lemma_last_segment(s, start as int, end as int);
            assert(s.take(end as int).last() == s[end - 1]);
        }
        let len = end - start;
        if len == 1 && cs[start] == '.' {
            proof {
                assert(s.subrange(start as int, end as int) == seq!['.']);
                assert(s.take(end as int).drop_last() == s.take(start as int));
            }
            end = start;
            continue;
        }
        if len == 2 && cs[start] == '.' && cs[start + 1] == '.' {
            proof {
                assert(s.subrange(start as int, end as int) == seq!['.', '.']);
                let t = s.take(end as int);
                assert(t.len() > 0 && t.last() != '/');
                assert(last_segment(t) != seq!['.']);
                assert(path_file_name(t) is None);
            }
            return None;
        }
        proof {
            if s.subrange(start as int, end as int) == seq!['.'] {
                assert(s.subrange(start as int, end as int)[0] == cs@[start as int]);
            }
            if s.subrange(start as int, end as int) == seq!['.', '.'] {
                assert(s.subrange(start as int, end as int)[0] == cs@[start as int]);
                assert(s.subrange(start as int, end as int)[1] == cs@[start + 1]);
            }
        }
        let seg = vstd::slice::slice_subrange(cs.as_slice(), start, end);
        proof {
            let t = s.take(end as int);
            assert(t.len() > 0 && t.last() != '/');
            let g = s.subrange(start as int, end as int);
            assert(last_segment(t) == g);
            if g == seq!['.'] {
                assert(g.len() == 1 && g[0] == cs@[start as int]);
            }
            if g == seq!['.', '.'] {
                assert(g.len() == 2 && g[0] == cs@[start as int] && g[1] == cs@[start + 1]);
            }
            assert(path_file_name(t) == Some(last_segment(t)));
        }
        return Some(string_from_chars(seg));
    }
}


/// Index of the last `.` in `s`, or -1 when there is none.
pub open spec fn last_dot(s: Seq<char>) -> int
    decreases s.len(),
{
    if s.len() == 0 {
        -1
    } else if s.last() == '.' {
        s.len() - 1
    } else {
        last_dot(s.drop_last())
    }
}

/// A file name split into stem and extension at its last dot, as
/// `Path::file_stem` and `Path::extension` split it: a name whose only dot
/// leads it (such as `.hidden`) has no extension.
pub open spec fn stem_and_extension(name: Seq<char>) -> (Seq<char>, Option<Seq<char>>) {
    let i = last_dot(name);
    if i <= 0 {
        (name, None)
    } else {
        (name.take(i), Some(name.skip(i + 1)))
    }
}

proof fn lemma_last_dot(s: Seq<char>, k: int)
    requires
        -1 <= k < s.len(),
        k >= 0 ==> s[k] == '.',
        forall|j: int| k < j < s.len() ==> s[j] != '.',
    ensures
        last_dot(s) == k,
    decreases s.len(),
{
    if s.len() > 0 && s.last() != '.' {
        lemma_last_dot(s.drop_last(), k);
    }
}

/// Split a file name into stem and optional extension.
pub fn split_extension(name: &str) -> (r: (String, Option<String>))
    ensures
        r.0@ == stem_and_extension(name@).0,
        r.1 matches Some(e) ==> stem_and_extension(name@).1 == Some(e@),
        r.1 is None ==> stem_and_extension(name@).1 is None,
{
    let cs = chars_of(name);
    let mut k: usize = cs.len();
    while k > 0 && cs[k - 1] != '.'
        invariant
            cs@ == name@,
            k <= cs@.len(),
            forall|j: int| k <= j < cs@.len() ==> cs@[j] != '.',
        decreases k,
    {
        k = k - 1;
    }
    proof {
        lemma_last_dot(name@, k - 1);
    }
    if k <= 1 {
        (string_from_chars(cs.as_slice()), None)
    } else {
        let stem = vstd::slice::slice_subrange(cs.as_slice(), 0, k - 1);
        let ext = vstd::slice::slice_subrange(cs.as_slice(), k, cs.len());
        proof {
            assert(cs@.subrange(0, k - 1) == name@.take(k - 1));
            assert(cs@.subrange(k as int, cs@.len() as int) == name@.skip(k as int));
        }
        (string_from_chars(stem), Some(string_from_chars(ext)))
    }
}

/// The name tried for the `n`-th copy of a file: `stem (n).ext`, with
/// `file` standing in for an empty name.
pub open spec fn collision_name(name: Seq<char>, n: nat) -> Seq<char> {
    let parts = if name.len() == 0 {
        (seq!['f', 'i', 'l', 'e'], None::<Seq<char>>)
    } else {
        stem_and_extension(name)
    };
    let ext = match parts.1 {
        Some(e) => seq!['.'] + e,
        None => Seq::empty(),
    };
    parts.0 + seq![' ', '('] + decimal(n) + seq![')'] + ext
}

/// Build `stem (n).ext` for `name`.
pub fn collision_candidate(name: &str, n: u64) -> (r: String)
    ensures
        r@ == collision_name(name@, n as nat),
{
    let (stem, ext) = if name.unicode_len() == 0 {
        let mut f = String::new();
        f.push('f');
        f.push('i');
        f.push('l');
        f.push('e');
        (f, None)
    } else {
        split_extension(name)
    };
    proof {
        if name@.len() == 0 {
            assert(stem@ == seq!['f', 'i', 'l', 'e']);
        }
    }
    let ghost parts = if name@.len() == 0 {
        (seq!['f', 'i', 'l', 'e'], None::<Seq<char>>)
    } else {
        stem_and_extension(name@)
    };
    let mut out = stem;
    out.push(' ');
    out.push('(');
    push_decimal(&mut out, n);
    out.push(')');
    let ghost head = out@;
    proof {
        assert(head =~= parts.0 + seq![' ', '('] + decimal(n as nat) + seq![')']);
    }
    match ext {
        Some(e) => {
            out.push('.');
            out.append(e.as_str());
            proof {
                assert(out@ =~= head + (seq!['.'] + e@));
            }
        },
        None => {
            proof {
                assert(out@ =~= head + Seq::<char>::empty());
            }
        },
    }
    out
}

/// `Path::join` for Unix paths: an absolute `name` replaces `dir`, and a
/// separator is added only when `dir` is non-empty and lacks one.
pub open spec fn join_path(dir: Seq<char>, name: Seq<char>) -> Seq<char> {
    if name.len() > 0 && name[0] == '/' {
        name
    } else if dir.len() == 0 || dir.last() == '/' {
        dir + name
    } else {
        dir + seq!['/'] + name
    }
}

/// Join `name` onto `dir`.
pub fn path_join(dir: &str, name: &str) -> (r: String)
    ensures
        r@ == join_path(dir@, name@),
{
    let d = chars_of(dir);
    let n = chars_of(name);
    if n.len() > 0 && n[0] == '/' {
        return string_from_chars(n.as_slice());
    }
    let mut out = string_from_chars(d.as_slice());
    if d.len() > 0 && d[d.len() - 1] != '/' {
        out.push('/');
    }
    out.append(name);
    out
}

} // verus!
