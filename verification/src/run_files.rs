//! Which benchmark run logs are pruned, and the labelling template that
//! belongs to each run log.

use vstd::prelude::*;
use vstd::relations::{sorted_by, total_ordering};
use crate::text::{chars_of, chars_match_at, has_prefix, has_suffix, str_starts_with, str_ends_with, string_from_chars};
use crate::benchmark::MAX_RUN_FILES;

verus! {

broadcast use vstd::seq_lib::group_to_multiset_ensures;

/// Lexicographic order on character sequences by code point, as `str`
/// compares (for UTF-8 text, the same order as comparing the bytes).
pub open spec fn lex_le(a: Seq<char>, b: Seq<char>) -> bool
    decreases a.len(),
{
    if a.len() == 0 {
        true
    } else if b.len() == 0 {
        false
    } else if a[0] != b[0] {
        (a[0] as int) < (b[0] as int)
    } else {
        lex_le(a.drop_first(), b.drop_first())
    }
}

/// `lex_le` as a relation.
pub open spec fn lex_order() -> spec_fn(Seq<char>, Seq<char>) -> bool {
    |a: Seq<char>, b: Seq<char>| lex_le(a, b)
}

proof fn lemma_lex_reflexive(a: Seq<char>)
    ensures
        lex_le(a, a),
    decreases a.len(),
{
    if a.len() > 0 {
        lemma_lex_reflexive(a.drop_first());
    }
}

proof fn lemma_lex_antisymmetric(a: Seq<char>, b: Seq<char>)
    requires
        lex_le(a, b),
        lex_le(b, a),
    ensures
        a == b,
    decreases a.len(),
{
    if a.len() > 0 && b.len() > 0 && a[0] == b[0] {
        lemma_lex_antisymmetric(a.drop_first(), b.drop_first());
        assert(a =~= seq![a[0]] + a.drop_first());
        assert(b =~= seq![b[0]] + b.drop_first());
    } else if a.len() == 0 && b.len() == 0 {
        assert(a =~= b);
    }
}

proof fn lemma_lex_transitive(a: Seq<char>, b: Seq<char>, c: Seq<char>)
    requires
        lex_le(a, b),
        lex_le(b, c),
    ensures
        lex_le(a, c),
    decreases a.len(),
{
    if a.len() > 0 && b.len() > 0 && c.len() > 0 && a[0] == b[0] && b[0] == c[0] {
        lemma_lex_transitive(a.drop_first(), b.drop_first(), c.drop_first());
    }
}

proof fn lemma_lex_connected(a: Seq<char>, b: Seq<char>)
    ensures
        lex_le(a, b) || lex_le(b, a),
    decreases a.len(),
{
    if a.len() > 0 && b.len() > 0 {
        if a[0] == b[0] {
            lemma_lex_connected(a.drop_first(), b.drop_first());
        } else {
            assert((a[0] as int) != (b[0] as int));
        }
    }
}

/// The lexicographic order is a total order.
pub proof fn lemma_lex_total()
    ensures
        total_ordering(lex_order()),
{
    assert forall|a: Seq<char>| #[trigger] lex_order()(a, a) by {
        lemma_lex_reflexive(a);
    }
    assert forall|a: Seq<char>, b: Seq<char>| #[trigger] lex_order()(a, b) && #[trigger] lex_order()(b, a) implies a
        == b by {
        lemma_lex_antisymmetric(a, b);
    }
    assert forall|a: Seq<char>, b: Seq<char>, c: Seq<char>| #[trigger] lex_order()(a, b) && #[trigger] lex_order()(
        b,
        c,
    ) implies lex_order()(a, c) by {
        lemma_lex_transitive(a, b, c);
    }
    assert forall|a: Seq<char>, b: Seq<char>| #[trigger] lex_order()(a, b) || #[trigger] lex_order()(b, a) by {
        lemma_lex_connected(a, b);
    }
}

/// Whether `a` sorts before or equal to `b`.
pub fn str_lex_le(a: &str, b: &str) -> (r: bool)
    ensures
        r == lex_le(a@, b@),
{
    let av = chars_of(a);
    let bv = chars_of(b);
    let mut i: usize = 0;
    proof {
        assert(a@.skip(0) =~= a@);
        assert(b@.skip(0) =~= b@);
    }
    while i < av.len() && i < bv.len() && av[i] == bv[i]
        invariant
            av@ == a@,
            bv@ == b@,
            i <= av@.len(),
            i <= bv@.len(),
            lex_le(a@, b@) == lex_le(a@.skip(i as int), b@.skip(i as int)),
        decreases av.len() - i,
    {
        proof {
            assert(a@.skip(i as int).drop_first() =~= a@.skip(i + 1));
            assert(b@.skip(i as int).drop_first() =~= b@.skip(i + 1));
        }
        i = i + 1;
    }
    if i == av.len() {
        true
    } else if i == bv.len() {
        false
    } else {
        av[i] < bv[i]
    }
}

/// File names of benchmark run logs start with this.
pub const RUN_PREFIX: &'static str = "aspen-benchmark-";

/// File names of benchmark run logs end with this.
pub const RUN_SUFFIX: &'static str = ".jsonl";

/// The labelling template of a run starts with this in place of the run prefix.
pub const LABELS_PREFIX: &'static str = "aspen-labels-";

/// A benchmark run log's file name.
pub open spec fn is_run_name(n: Seq<char>) -> bool {
    has_prefix(n, RUN_PREFIX@) && has_suffix(n, RUN_SUFFIX@)
}

/// Whether a file name is a benchmark run log's.
pub fn is_run_file_name(name: &str) -> (b: bool)
    ensures
        b == is_run_name(name@),
{
    str_starts_with(name, RUN_PREFIX) && str_ends_with(name, RUN_SUFFIX)
}

/// The text of each name.
pub open spec fn texts(v: Seq<String>) -> Seq<Seq<char>> {
    v.map_values(|s: String| s@)
}

/// The run logs among `names`, in the order given.
pub open spec fn run_names(names: Seq<String>) -> Seq<Seq<char>> {
    texts(names).filter(|n: Seq<char>| is_run_name(n))
}

/// How many of `count` run logs are deleted so that, with the run about to
/// start, at most `MAX_RUN_FILES` remain.
pub open spec fn excess_runs(count: nat) -> nat {
    if count < MAX_RUN_FILES {
        0
    } else {
        (count + 1 - MAX_RUN_FILES) as nat
    }
}

/// The run logs to delete from a folder holding `names`: the oldest (in
/// name order) of them, as many as keep the folder under the limit once
/// the new run is written.
pub open spec fn prune_selection(names: Seq<String>) -> Seq<Seq<char>> {
    let runs = run_names(names);
    runs.sort_by(lex_order()).take(excess_runs(runs.len()) as int)
}

/// Insert `x` into the sorted `out` after every name that sorts before or
/// equal to it.
fn insert_sorted(out: &mut Vec<String>, x: String)
    requires
        sorted_by(texts(old(out)@), lex_order()),
    ensures
        sorted_by(texts(final(out)@), lex_order()),
        texts(final(out)@).to_multiset() == texts(old(out)@).to_multiset().insert(x@),
{
    let ghost before = texts(out@);
    proof {
        lemma_lex_total();
    }
    let mut p: usize = 0;
    while p < out.len() && str_lex_le(out[p].as_str(), x.as_str())
        invariant
            before == texts(out@),
            p <= out@.len(),
            sorted_by(before, lex_order()),
            total_ordering(lex_order()),
            forall|q: int| 0 <= q < p ==> lex_le(#[trigger] before[q], x@),
        decreases out.len() - p,
    {
        p = p + 1;
    }
    proof {
        assert forall|q: int| p <= q < before.len() implies lex_le(x@, #[trigger] before[q]) by {
            assert(!lex_le(before[p as int], x@));
            lemma_lex_connected(before[p as int], x@);
            if q > p {
                assert(lex_order()(before[p as int], before[q]));
                lemma_lex_transitive(x@, before[p as int], before[q]);
            }
        }
    }
    out.insert(p, x);
    proof {
        let after = texts(out@);
        assert(after =~= before.insert(p as int, x@));
        assert forall|i: int, j: int| 0 <= i < j < after.len() implies #[trigger] lex_order()(after[i], after[j]) by {
            if j < p {
                assert(lex_order()(before[i], before[j]));
            } else if j == p {
                assert(lex_le(before[i], x@));
            } else if i < p {
                assert(lex_le(before[i], x@));
                assert(lex_le(x@, before[j - 1]));
                lemma_lex_transitive(before[i], x@, before[j - 1]);
            } else if i == p {
                assert(lex_le(x@, before[j - 1]));
            } else {
                assert(lex_order()(before[i - 1], before[j - 1]));
            }
        }
    }
}

/// The run logs to delete before a new run starts, given the file names in
/// the benchmark folder: when the folder already holds `MAX_RUN_FILES` run
/// logs or more, the oldest ones by name, leaving room for one more.
pub fn runs_to_prune(names: &[String]) -> (r: Vec<String>)
    ensures
        texts(r@) == prune_selection(names@),
        r@.len() == excess_runs(run_names(names@).len()),
        run_names(names@).len() - r@.len() < MAX_RUN_FILES,
{
    let ghost all = texts(names@);
    let ghost pred = |n: Seq<char>| is_run_name(n);
    let mut sorted: Vec<String> = Vec::new();
    let mut i: usize = 0;
    proof {
        reveal(Seq::filter);
        assert(all.take(0).filter(pred) =~= Seq::<Seq<char>>::empty());
    }
    while i < names.len()
        invariant
            i <= names@.len(),
            all == texts(names@),
            pred == (|n: Seq<char>| is_run_name(n)),
            sorted_by(texts(sorted@), lex_order()),
            texts(sorted@).to_multiset() == all.take(i as int).filter(pred).to_multiset(),
        decreases names.len() - i,
    {
        proof {
            reveal(Seq::filter);
            assert(all.take(i + 1).drop_last() =~= all.take(i as int));
            assert(all.take(i + 1).last() == names@[i as int]@);
        }
        if is_run_file_name(names[i].as_str()) {
            insert_sorted(&mut sorted, names[i].clone());
        }
        i = i + 1;
    }
    proof {
        assert(all.take(names@.len() as int) =~= all);
        let runs = all.filter(pred);
        assert(runs == run_names(names@));
        lemma_lex_total();
        runs.lemma_sort_by_ensures(lex_order());
        vstd::seq_lib::lemma_sorted_unique(texts(sorted@), runs.sort_by(lex_order()), lex_order());
        assert(texts(sorted@).len() == runs.len()) by {
            vstd::seq_lib::to_multiset_len(texts(sorted@));
            vstd::seq_lib::to_multiset_len(runs);
        }
    }
    let count = sorted.len();
    let excess: usize = if count < MAX_RUN_FILES {
        0
    } else {
        count - MAX_RUN_FILES + 1
    };
    let mut r: Vec<String> = Vec::new();
    let mut k: usize = 0;
    while k < excess
        invariant
            k <= excess <= sorted@.len(),
            texts(r@) == texts(sorted@).take(k as int),
        decreases excess - k,
    {
        let ghost before = r@;
        r.push(sorted[k].clone());
        proof {
            assert(texts(r@) =~= texts(before).push(sorted@[k as int]@));
            assert(texts(r@) =~= texts(sorted@).take(k + 1));
        }
        k = k + 1;
    }
    r
}

/// Position of the first occurrence of `pat` in `s` at or after `i`.
pub open spec fn first_occurrence(s: Seq<char>, pat: Seq<char>, i: int) -> Option<int>
    decreases s.len() + 1 - i,
{
    if i < 0 || i + pat.len() > s.len() {
        None
    } else if s.subrange(i, i + pat.len()) == pat {
        Some(i)
    } else {
        first_occurrence(s, pat, i + 1)
    }
}

/// `str::replacen(pat, rep, 1)`: the first occurrence of `pat` replaced.
pub open spec fn replace_first(s: Seq<char>, pat: Seq<char>, rep: Seq<char>) -> Seq<char> {
    match first_occurrence(s, pat, 0) {
        Some(i) => s.take(i) + rep + s.skip(i + pat.len()),
        None => s,
    }
}

/// The labelling template's name for a run log's name: the run prefix
/// becomes the labels prefix, and the first `.jsonl` becomes `.csv`.
pub open spec fn labels_name(run: Seq<char>) -> Seq<char> {
    LABELS_PREFIX@ + replace_first(run.skip(RUN_PREFIX@.len() as int), RUN_SUFFIX@, ".csv"@)
}

/// The name of the labelling template that belongs to a run log.
pub fn labels_file_name(run: &str) -> (s: String)
    requires
        is_run_name(run@),
    ensures
        s@ == labels_name(run@),
{
    let cs = chars_of(run);
    let pat = chars_of(RUN_SUFFIX);
    let start = RUN_PREFIX.unicode_len();
    proof {
        reveal_strlit("aspen-benchmark-");
        reveal_strlit(".jsonl");
    }
    let ghost rest = run@.skip(start as int);
    assert(pat@.len() == 6);
    let mut out = String::from_str(LABELS_PREFIX);
    let mut i: usize = start;
    let mut found: Option<usize> = None;
    while found.is_none() && pat.len() <= cs.len() - i
        invariant
            cs@ == run@,
            pat@ == RUN_SUFFIX@,
            pat@.len() == 6,
            start <= i <= cs@.len(),
            start == RUN_PREFIX@.len(),
            rest == run@.skip(start as int),
            found is None ==> first_occurrence(rest, pat@, (i - start) as int) == first_occurrence(rest, pat@, 0),
            found matches Some(at) ==> start <= at && at + pat@.len() <= cs@.len() && first_occurrence(
                rest,
                pat@,
                0,
            ) == Some((at - start) as int),
        decreases cs.len() - i + (if found is None { 1int } else { 0int }),
    {
        proof {
            assert(rest.subrange(i - start, i - start + pat@.len()) =~= cs@.subrange(i as int, i + pat@.len()));
        }
        if chars_match_at(&cs, i, &pat) {
            found = Some(i);
        } else {
            i = i + 1;
        }
    }
    match found {
        Some(at) => {
            let total = cs.len();
            let after = at + pat.len();
            let head = vstd::slice::slice_subrange(cs.as_slice(), start, at);
            let tail = vstd::slice::slice_subrange(cs.as_slice(), after, total);
            let h = string_from_chars(head);
            let t = string_from_chars(tail);
            out.append(h.as_str());
            out.append(".csv");
            out.append(t.as_str());
            proof {
                assert(rest.take(at - start) =~= cs@.subrange(start as int, at as int));
                assert(rest.skip(at - start + pat@.len()) =~= cs@.subrange(at + pat@.len(), cs@.len() as int));
                assert(out@ =~= labels_name(run@));
            }
        },
        None => {
            let t = string_from_chars(vstd::slice::slice_subrange(cs.as_slice(), start, cs.len()));
            out.append(t.as_str());
            proof {
                assert(first_occurrence(rest, pat@, (i - start) as int) is None);
                assert(t@ =~= rest);
                assert(out@ =~= labels_name(run@));
            }
        },
    }
    out
}

} // verus!
