//! The decisions of a deduplication run that do not touch the disk: which
//! images stay unique, how model names and model answers are read.

use vstd::prelude::*;
use crate::text::{chars_of, string_from_chars, str_contains, has_infix};
use crate::path_text::{file_name, path_file_name};
use crate::dedupe::ImageRecord;

verus! {

/// Progress of a deduplication run.
#[derive(Debug, Clone)]
pub struct ProgressEvent {
    pub stage: String,
    pub message: String,
    pub current: u64,
    pub total: u64,
}

/// Outcome of a deduplication run.
#[derive(Debug, Clone)]
pub struct DeduplicateResult {
    pub folder: String,
    pub scanned: usize,
    pub duplicate_groups: usize,
    pub kept_good: usize,
    pub rejected: usize,
    pub unique_untouched: usize,
    pub errors: Vec<String>,
    pub good_dir: String,
    pub rejected_dir: String,
    pub ai_reranked: usize,
    /// Path of the burst-benchmark log when diagnostic capture was enabled.
    pub benchmark_log: Option<String>,
}

/// The final component of `path`, or `image` when it has none.
pub open spec fn display_name(path: Seq<char>) -> Seq<char> {
    match path_file_name(path) {
        Some(n) => n,
        None => "image"@,
    }
}

/// The file name shown for `path` in messages.
pub fn file_name_str(path: &str) -> (s: String)
    ensures
        s@ == display_name(path@),
{
    match file_name(path) {
        Some(n) => n,
        None => String::from_str("image"),
    }
}

/// `i` belongs to one of the groups.
pub open spec fn in_some_group(groups: Seq<Seq<usize>>, i: usize) -> bool {
    exists|g: int| 0 <= g < groups.len() && #[trigger] groups[g].contains(i)
}

fn group_contains(group: &Vec<usize>, i: usize) -> (b: bool)
    ensures
        b == group@.contains(i),
{
    let mut k: usize = 0;
    while k < group.len()
        invariant
            k <= group@.len(),
            forall|q: int| 0 <= q < k ==> group@[q] != i,
        decreases group.len() - k,
    {
        if group[k] == i {
            return true;
        }
        k = k + 1;
    }
    false
}

/// The indices below `n` that belong to no duplicate group, increasing.
pub fn unique_indices(n: usize, groups: &Vec<Vec<usize>>) -> (u: Vec<usize>)
    ensures
        forall|k: int| 0 <= k < u@.len() ==> (#[trigger] u@[k]) < n,
        forall|k: int, l: int| 0 <= k < l < u@.len() ==> u@[k] < u@[l],
        forall|i: usize| i < n ==> (u@.contains(i) <==> !in_some_group(groups.deep_view(), i)),
{
    let ghost gs = groups.deep_view();
    let mut u: Vec<usize> = Vec::new();
    let mut i: usize = 0;
    while i < n
        invariant
            gs == groups.deep_view(),
            i <= n,
            forall|k: int| 0 <= k < u@.len() ==> (#[trigger] u@[k]) < i,
            forall|k: int, l: int| 0 <= k < l < u@.len() ==> u@[k] < u@[l],
            forall|j: usize| j < i ==> (u@.contains(j) <==> !in_some_group(gs, j)),
        decreases n - i,
    {
        let mut found = false;
        let mut g: usize = 0;
        while g < groups.len()
            invariant
                gs == groups.deep_view(),
                g <= groups@.len(),
                found == exists|q: int| 0 <= q < g && #[trigger] gs[q].contains(i),
            decreases groups.len() - g,
        {
            if group_contains(&groups[g], i) {
                found = true;
            }
            proof {
                assert(gs[g as int] == groups@[g as int]@);
            }
            g = g + 1;
        }
        let ghost before = u@;
        if !found {
            u.push(i);
        }
        proof {
            assert forall|j: usize| j < i + 1 implies (u@.contains(j) <==> !in_some_group(gs, j)) by {
                if u@.contains(j) && j < i {
                    let k = choose|k: int| 0 <= k < u@.len() && u@[k] == j;
                    if k < before.len() {
                        assert(before[k] == j);
                    }
                }
                if before.contains(j) {
                    let k = choose|k: int| 0 <= k < before.len() && before[k] == j;
                    assert(u@[k] == j);
                }
                if j == i && u@.contains(j) && found {
                    let k = choose|k: int| 0 <= k < u@.len() && u@[k] == j;
                    assert(before[k] < i);
                }
                if j == i && !found {
                    assert(u@[u@.len() - 1] == i);
                }
            }
        }
        i = i + 1;
    }
    u
}


/// The full Unicode lower-case mapping of `s`.
pub uninterp spec fn unicode_lowercase(s: Seq<char>) -> Seq<char>;

/// `str::to_lowercase`: Unicode lower-casing. Only the name of the result is
/// stated; the Unicode case tables are not described.
#[verifier::external_body]
fn to_lowercase(s: &str) -> (r: String)
    ensures
        r@ == unicode_lowercase(s@),
{
    s.to_lowercase()
}

/// Fragments of the names of vision-capable model families.
pub open spec fn vision_families() -> Seq<Seq<char>> {
    seq![
        "vl"@, "vision"@, "llava"@, "moondream"@, "minicpm-v"@, "bakllava"@, "gemma3"@, "pixtral"@,
        "internvl"@, "cogvlm"@,
    ]
}

/// Whether an already lower-cased model name contains the name of a
/// vision-capable family.
pub fn lowercase_name_looks_vision(m: &str) -> (b: bool)
    ensures
        b == exists|i: int| 0 <= i < vision_families().len() && has_infix(m@, #[trigger] vision_families()[i]),
{
    let families = [
        "vl", "vision", "llava", "moondream", "minicpm-v", "bakllava", "gemma3", "pixtral", "internvl",
        "cogvlm",
    ];
    proof {
        assert(families@.map_values(|f: &str| f@) =~= vision_families());
    }
    let mut i: usize = 0;
    while i < 10
        invariant
            i <= 10,
            families@.len() == 10,
            families@.map_values(|f: &str| f@) == vision_families(),
            forall|k: int| 0 <= k < i ==> !has_infix(m@, #[trigger] vision_families()[k]),
        decreases 10 - i,
    {
        let f = families[i];
        proof {
            assert(vision_families()[i as int] == families@[i as int]@);
        }
        if str_contains(m, f) {
            return true;
        }
        i = i + 1;
    }
    false
}

/// Whether a model's name suggests a vision-capable family, ignoring case.
pub fn model_name_looks_vision(model: &str) -> (b: bool)
    ensures
        b == exists|i: int|
            0 <= i < vision_families().len() && has_infix(unicode_lowercase(model@), #[trigger] vision_families()[i]),
{
    let m = to_lowercase(model);
    lowercase_name_looks_vision(m.as_str())
}

/// Whether `model` accepts image inputs: never for an empty name; yes when
/// `api_check` (asked only for a non-empty name) reports the capability;
/// otherwise by the family-name heuristic.
pub fn ollama_model_supports_vision<F: FnOnce(&str) -> Option<bool>>(model: &str, api_check: F) -> (b: bool)
    requires
        forall|s: &str| #[trigger] api_check.requires((s,)),
    ensures
        model@.len() == 0 ==> !b,
        model@.len() > 0 ==> exists|a: Option<bool>|
            #![trigger api_check.ensures((model,), a)]
            api_check.ensures((model,), a) && b == (a == Some(true) || exists|i: int|
                0 <= i < vision_families().len() && has_infix(unicode_lowercase(model@), #[trigger] vision_families()[i])),
{
    if model.unicode_len() == 0 {
        return false;
    }
    if api_check(model) == Some(true) {
        return true;
    }
    model_name_looks_vision(model)
}

/// Number of leading ASCII digits of `s` from position `i`.
pub open spec fn digits_from(s: Seq<char>, i: int) -> int
    decreases s.len() - i,
{
    if i >= s.len() || !('0' <= s[i] && s[i] <= '9') {
        i
    } else {
        digits_from(s, i + 1)
    }
}

/// The value of the decimal digits `s[0..k]`.
pub open spec fn digits_value(s: Seq<char>, k: int) -> nat
    decreases k,
{
    if k <= 0 {
        0
    } else {
        digits_value(s, k - 1) * 10 + ((s[k - 1] as u32) - 48) as nat
    }
}

/// `str::parse::<usize>` of the run of leading digits: nothing when there is
/// no digit or the number does not fit.
pub open spec fn leading_number(s: Seq<char>) -> Option<nat> {
    let k = digits_from(s, 0);
    if k == 0 || digits_value(s, k) > usize::MAX {
        None
    } else {
        Some(digits_value(s, k))
    }
}

/// The first candidate whose file name occurs in `answer`, from position `i`.
pub open spec fn first_named(answer: Seq<char>, cands: Seq<(usize, String)>, i: int) -> Option<usize>
    decreases cands.len() - i,
{
    if i >= cands.len() {
        None
    } else if has_infix(answer, cands[i].1@) {
        Some(cands[i].0)
    } else {
        first_named(answer, cands, i + 1)
    }
}

/// How a vision model's reply selects a candidate: a leading number counts
/// from one into the list; otherwise the first file name mentioned.
pub open spec fn vision_choice(answer: Seq<char>, cands: Seq<(usize, String)>) -> Option<usize> {
    match leading_number(answer) {
        Some(n) if 1 <= n <= cands.len() => Some(cands[n - 1].0),
        _ => first_named(answer, cands, 0),
    }
}

proof fn lemma_digits_from(s: Seq<char>, i: int)
    requires
        0 <= i <= s.len(),
    ensures
        i <= digits_from(s, i) <= s.len(),
    decreases s.len() - i,
{
    if i < s.len() && '0' <= s[i] && s[i] <= '9' {
        lemma_digits_from(s, i + 1);
    }
}

proof fn lemma_digits_value_mono(s: Seq<char>, j: int, k: int)
    requires
        0 <= j <= k <= s.len(),
        forall|q: int| 0 <= q < k ==> '0' <= #[trigger] s[q] && s[q] <= '9',
    ensures
        digits_value(s, j) <= digits_value(s, k),
    decreases k - j,
{
    if j < k {
        lemma_digits_value_mono(s, j, k - 1);
    }
}

/// Read a vision model's reply into the index of the chosen candidate.
pub fn parse_vision_answer(answer: &str, candidate_map: &[(usize, String)]) -> (r: Option<usize>)
    ensures
        r == vision_choice(answer@, candidate_map@),
{
    let cs = chars_of(answer);
    let ghost s = answer@;
    let mut k: usize = 0;
    let mut value: usize = 0;
    let mut overflow = false;
    while k < cs.len() && '0' <= cs[k] && cs[k] <= '9'
        invariant
            cs@ == s,
            k <= cs@.len(),
            digits_from(s, k as int) == digits_from(s, 0),
            forall|q: int| 0 <= q < k ==> '0' <= #[trigger] s[q] && s[q] <= '9',
            !overflow ==> value as nat == digits_value(s, k as int),
            overflow ==> digits_value(s, k as int) > usize::MAX,
        decreases cs.len() - k,
    {
        let d = (cs[k] as u32 - 48) as usize;
        if !overflow {
            if value > (usize::MAX - d) / 10 {
                overflow = true;
                proof {
                    assert(digits_value(s, k + 1) == digits_value(s, k as int) * 10 + d) by {
                        assert((s[k as int] as u32) - 48 == d);
                    }
                    assert((value + 1) * 10 > usize::MAX - d) by (nonlinear_arith)
                        requires
                            value > (usize::MAX - d) / 10,
                            d <= 9,
                    ;
                    assert(value * 10 + d > usize::MAX) by (nonlinear_arith)
                        requires
                            (value + 1) * 10 > usize::MAX - d,
                            value > (usize::MAX - d) / 10,
                            d <= 9,
                    ;
                }
            } else {
                proof {
                    assert(value * 10 + d <= usize::MAX) by (nonlinear_arith)
                        requires
                            value <= (usize::MAX - d) / 10,
                            d <= 9,
                    ;
                }
                value = value * 10 + d;
            }
        } else {
            proof {
                assert(digits_value(s, k + 1) >= digits_value(s, k as int)) by (nonlinear_arith)
                    requires
                        digits_value(s, k + 1) == digits_value(s, k as int) * 10 + (((s[k as int] as u32) - 48) as nat),
                ;
            }
        }
        k = k + 1;
    }
    proof {
        lemma_digits_from(s, 0);
    }
    proof {
        assert(digits_from(s, k as int) == k);
    }
    if k > 0 && !overflow && value >= 1 && value <= candidate_map.len() {
        return Some(candidate_map[value - 1].0);
    }
    proof {
        assert(vision_choice(s, candidate_map@) == first_named(s, candidate_map@, 0));
    }
    let mut i: usize = 0;
    while i < candidate_map.len()
        invariant
            vision_choice(s, candidate_map@) == first_named(s, candidate_map@, 0),
            i <= candidate_map@.len(),
            first_named(s, candidate_map@, i as int) == first_named(s, candidate_map@, 0),
            s == answer@,
        decreases candidate_map.len() - i,
    {
        if str_contains(answer, candidate_map[i].1.as_str()) {
            return Some(candidate_map[i].0);
        }
        i = i + 1;
    }
    None
}

/// The first member of `group` whose file name occurs in a text model's
/// `answer`, or that contains the whole answer.
pub open spec fn answered_member(answer: Seq<char>, group: Seq<usize>, records: Seq<ImageRecord>, i: int) -> Option<usize>
    decreases group.len() - i,
{
    if i >= group.len() {
        None
    } else {
        let name = match path_file_name(records[group[i] as int].path@) {
            Some(n) => n,
            None => Seq::empty(),
        };
        if has_infix(answer, name) || has_infix(name, answer) {
            Some(group[i])
        } else {
            answered_member(answer, group, records, i + 1)
        }
    }
}

/// The file name of record `idx`, empty when its path has none.
pub open spec fn record_file_name(records: Seq<ImageRecord>, idx: usize) -> Seq<char> {
    match path_file_name(records[idx as int].path@) {
        Some(n) => n,
        None => Seq::empty(),
    }
}

proof fn lemma_answered_member_from(answer: Seq<char>, group: Seq<usize>, records: Seq<ImageRecord>, i: int)
    requires
        0 <= i <= group.len(),
    ensures
        answered_member(answer, group, records, i) matches Some(m) ==> exists|j: int|
            i <= j < group.len() && group[j] == m && (has_infix(answer, record_file_name(records, group[j]))
                || has_infix(record_file_name(records, group[j]), answer)) && forall|q: int|
                i <= q < j ==> !has_infix(answer, record_file_name(records, #[trigger] group[q])) && !has_infix(
                    record_file_name(records, group[q]),
                    answer,
                ),
        answered_member(answer, group, records, i) is None ==> forall|q: int|
            i <= q < group.len() ==> !has_infix(answer, record_file_name(records, #[trigger] group[q])) && !has_infix(
                record_file_name(records, group[q]),
                answer,
            ),
    decreases group.len() - i,
{
    if i < group.len() {
        lemma_answered_member_from(answer, group, records, i + 1);
        let name = record_file_name(records, group[i]);
        if !(has_infix(answer, name) || has_infix(name, answer)) {
            if let Some(m) = answered_member(answer, group, records, i + 1) {
                let j = choose|j: int|
                    i + 1 <= j < group.len() && group[j] == m && (has_infix(answer, record_file_name(records, group[j]))
                        || has_infix(record_file_name(records, group[j]), answer)) && forall|q: int|
                        i + 1 <= q < j ==> !has_infix(answer, record_file_name(records, #[trigger] group[q]))
                            && !has_infix(record_file_name(records, group[q]), answer);
                assert forall|q: int| i <= q < j implies !has_infix(answer, record_file_name(records, #[trigger] group[q]))
                    && !has_infix(record_file_name(records, group[q]), answer) by {
                    if q > i {
                        assert(i + 1 <= q < j);
                    }
                }
            }
        }
    }
}

/// A text model's answer picks the first group member whose file name occurs
/// in the answer or contains the whole answer (the answer may name the file
/// without its extension); no member is picked only when none matches.
pub proof fn law_answer_picks_first_named_member(answer: Seq<char>, group: Seq<usize>, records: Seq<ImageRecord>)
    ensures
        answered_member(answer, group, records, 0) matches Some(m) ==> exists|j: int|
            0 <= j < group.len() && group[j] == m && (has_infix(answer, record_file_name(records, group[j]))
                || has_infix(record_file_name(records, group[j]), answer)) && forall|q: int|
                0 <= q < j ==> !has_infix(answer, record_file_name(records, #[trigger] group[q])) && !has_infix(
                    record_file_name(records, group[q]),
                    answer,
                ),
        answered_member(answer, group, records, 0) is None ==> forall|q: int|
            0 <= q < group.len() ==> !has_infix(answer, record_file_name(records, #[trigger] group[q])) && !has_infix(
                record_file_name(records, group[q]),
                answer,
            ),
{
    lemma_answered_member_from(answer, group, records, 0);
}

/// Which group member a text model named in `answer`.
pub fn pick_answered_file(answer: &str, group: &[usize], records: &[ImageRecord]) -> (r: Option<usize>)
    requires
        forall|k: int| 0 <= k < group@.len() ==> (#[trigger] group@[k]) < records@.len(),
    ensures
        r == answered_member(answer@, group@, records@, 0),
{
    let mut i: usize = 0;
    while i < group.len()
        invariant
            i <= group@.len(),
            forall|k: int| 0 <= k < group@.len() ==> (#[trigger] group@[k]) < records@.len(),
            answered_member(answer@, group@, records@, i as int) == answered_member(answer@, group@, records@, 0),
        decreases group.len() - i,
    {
        let idx = group[i];
        let name = match file_name(records[idx].path.as_str()) {
            Some(n) => n,
            None => String::new(),
        };
        if str_contains(answer, name.as_str()) || str_contains(name.as_str(), answer) {
            return Some(idx);
        }
        i = i + 1;
    }
    None
}


/// Where a file goes and why.
#[derive(Debug, Clone, Copy, PartialEq, Eq, Structural)]
pub enum Placement {
    /// The winner of a duplicate group, placed in `Images-Good`.
    Kept,
    /// A losing member of a duplicate group, placed in `Rejected`.
    Rejected,
    /// A file in no group, placed in `Images-Good`.
    Unique,
}

impl Placement {
    /// Whether the file lands in `Images-Good`.
    pub fn is_good(self) -> (b: bool)
        ensures
            b == (self != Placement::Rejected),
    {
        !matches!(self, Placement::Rejected)
    }

    /// The outcome recorded in the benchmark log.
    pub fn label(self) -> (s: &'static str)
        ensures
            s@ == match self {
                Placement::Kept => "kept"@,
                Placement::Rejected => "rejected"@,
                Placement::Unique => "unique"@,
            },
    {
        match self {
            Placement::Kept => "kept",
            Placement::Rejected => "rejected",
            Placement::Unique => "unique",
        }
    }
}

/// The placements of one group: the winner is kept, every other member rejected.
pub open spec fn group_placements(group: Seq<usize>, winner: usize) -> Seq<(usize, Placement)> {
    group.map_values(|i: usize| (i, if i == winner { Placement::Kept } else { Placement::Rejected }))
}

/// The placements of the first `k` groups, in order.
pub open spec fn groups_placements(groups: Seq<Seq<usize>>, winners: Seq<usize>, k: int) -> Seq<(usize, Placement)>
    decreases k,
{
    if k <= 0 {
        Seq::empty()
    } else {
        groups_placements(groups, winners, k - 1) + group_placements(groups[k - 1], winners[k - 1])
    }
}

/// Every placement of a run: group by group, then the unique files.
pub open spec fn run_placements(groups: Seq<Seq<usize>>, winners: Seq<usize>, unique: Seq<usize>) -> Seq<(usize, Placement)> {
    groups_placements(groups, winners, groups.len() as int) + unique.map_values(|i: usize| (i, Placement::Unique))
}

/// The order in which a run places its files, with each file's destination.
pub fn placement_plan(groups: &Vec<Vec<usize>>, winners: &Vec<usize>, unique: &Vec<usize>) -> (p: Vec<(usize, Placement)>)
    requires
        winners@.len() == groups@.len(),
    ensures
        p@ == run_placements(groups.deep_view(), winners@, unique@),
{
    let ghost gs = groups.deep_view();
    let mut p: Vec<(usize, Placement)> = Vec::new();
    let mut g: usize = 0;
    while g < groups.len()
        invariant
            gs == groups.deep_view(),
            winners@.len() == groups@.len(),
            g <= groups@.len(),
            p@ == groups_placements(gs, winners@, g as int),
        decreases groups.len() - g,
    {
        let ghost before = p@;
        let group = &groups[g];
        let w = winners[g];
        proof {
            assert(gs[g as int] == group@);
        }
        let mut k: usize = 0;
        while k < group.len()
            invariant
                k <= group@.len(),
                p@ == before + group_placements(group@.take(k as int), w),
            decreases group.len() - k,
        {
            let i = group[k];
            p.push((i, if i == w { Placement::Kept } else { Placement::Rejected }));
            proof {
                assert(group_placements(group@.take(k + 1), w) =~= group_placements(group@.take(k as int), w).push(
                    (i, if i == w { Placement::Kept } else { Placement::Rejected }),
                ));
            }
            k = k + 1;
        }
        proof {
            assert(group@.take(group@.len() as int) == group@);
        }
        g = g + 1;
    }
    let ghost mid = p@;
    let mut k: usize = 0;
    while k < unique.len()
        invariant
            k <= unique@.len(),
            p@ == mid + unique@.take(k as int).map_values(|i: usize| (i, Placement::Unique)),
        decreases unique.len() - k,
    {
        p.push((unique[k], Placement::Unique));
        proof {
            assert(unique@.take(k + 1).map_values(|i: usize| (i, Placement::Unique)) =~= unique@.take(
                k as int,
            ).map_values(|i: usize| (i, Placement::Unique)).push((unique@[k as int], Placement::Unique)));
        }
        k = k + 1;
    }
    proof {
        assert(unique@.take(unique@.len() as int) == unique@);
    }
    p
}

/// Files kept in `Images-Good` and files rejected among the placements that succeeded.
pub open spec fn tally(outcomes: Seq<(Placement, bool)>) -> (int, int)
    decreases outcomes.len(),
{
    if outcomes.len() == 0 {
        (0, 0)
    } else {
        let t = tally(outcomes.drop_last());
        let (pl, ok) = outcomes.last();
        if !ok {
            t
        } else if pl == Placement::Rejected {
            (t.0, t.1 + 1)
        } else {
            (t.0 + 1, t.1)
        }
    }
}

/// Count kept and rejected files among placements that succeeded.
pub fn count_outcomes(outcomes: &[(Placement, bool)]) -> (c: (usize, usize))
    ensures
        c.0 as int == tally(outcomes@).0,
        c.1 as int == tally(outcomes@).1,
{
    let mut kept: usize = 0;
    let mut rejected: usize = 0;
    let mut i: usize = 0;
    while i < outcomes.len()
        invariant
            i <= outcomes@.len(),
            kept as int == tally(outcomes@.take(i as int)).0,
            rejected as int == tally(outcomes@.take(i as int)).1,
            kept + rejected <= i,
        decreases outcomes.len() - i,
    {
        let (pl, ok) = outcomes[i];
        proof {
            assert(outcomes@.take(i + 1).drop_last() == outcomes@.take(i as int));
        }
        if ok {
            if pl == Placement::Rejected {
                rejected = rejected + 1;
            } else {
                kept = kept + 1;
            }
        }
        i = i + 1;
    }
    proof {
        assert(outcomes@.take(outcomes@.len() as int) == outcomes@);
    }
    (kept, rejected)
}

} // verus!
