//! What the burst benchmark records about each group, and the labelling
//! template the photographer fills in.

use vstd::prelude::*;
use crate::dedupe::{ImageRecord, hamming, popcount, same_content};
use crate::text::{chars_of, string_from_chars, push_decimal, decimal};
use crate::path_text::{path_join, join_path};
use crate::pipeline::{file_name_str, display_name};

verus! {

/// Bump when the record shape changes so older logs stay interpretable.
pub const SCHEMA_VERSION: u32 = 1;

/// How many runs are kept in the benchmark folder.
pub const MAX_RUN_FILES: usize = 20;

/// Who chose the keeper for a group.
#[derive(Debug, Clone, Copy, PartialEq, Eq, Structural)]
pub struct WinnerDecision {
    pub algo: usize,
    pub ai: Option<usize>,
    pub final_pick: usize,
}

/// How the keeper was decided: the AI overrode the algorithm, agreed
/// with it, or was not asked.
pub fn decision_path(decision: WinnerDecision) -> (s: &'static str)
    ensures
        s@ == match decision.ai {
            Some(w) => if w != decision.algo {
                "ai-override"@
            } else {
                "ai-agreed"@
            },
            None => "algorithm"@,
        },
{
    match decision.ai {
        Some(w) => if w != decision.algo {
            "ai-override"
        } else {
            "ai-agreed"
        },
        None => "algorithm",
    }
}

/// Hash distances between two members of a group.
#[derive(Debug, Clone, Copy, PartialEq, Eq, Structural)]
pub struct PairDistance {
    pub a: usize,
    pub b: usize,
    pub phash_distance: Option<u32>,
    pub dhash_distance: Option<u32>,
    pub identical_blake3: bool,
}

/// Distance between two optional hashes, when both exist.
pub open spec fn opt_distance(x: Option<u64>, y: Option<u64>) -> Option<u32> {
    match (x, y) {
        (Some(p), Some(q)) => Some(popcount(p ^ q) as u32),
        _ => None,
    }
}

/// The recorded distances for records `a` and `b`.
pub open spec fn pair_record(r: Seq<ImageRecord>, a: usize, b: usize) -> PairDistance {
    PairDistance {
        a,
        b,
        phash_distance: opt_distance(r[a as int].phash, r[b as int].phash),
        dhash_distance: opt_distance(r[a as int].dhash, r[b as int].dhash),
        identical_blake3: same_content(r[a as int], r[b as int]),
    }
}

/// Pairs `(group[i], group[j])` with `i < j`, `i` below `m`, in order.
pub open spec fn group_pairs_upto(r: Seq<ImageRecord>, g: Seq<usize>, m: int) -> Seq<PairDistance>
    decreases m,
{
    if m <= 0 {
        Seq::empty()
    } else {
        group_pairs_upto(r, g, m - 1) + Seq::new(
            (g.len() - m) as nat,
            |k: int| pair_record(r, g[m - 1], g[m + k]),
        )
    }
}

fn opt_hamming(x: Option<u64>, y: Option<u64>) -> (d: Option<u32>)
    ensures
        d == opt_distance(x, y),
{
    match (x, y) {
        (Some(p), Some(q)) => Some(hamming(p, q)),
        _ => None,
    }
}

/// Every pairwise distance within a group, in member order.
pub fn group_pairs(group: &[usize], records: &[ImageRecord]) -> (v: Vec<PairDistance>)
    requires
        forall|k: int| 0 <= k < group@.len() ==> (#[trigger] group@[k]) < records@.len(),
    ensures
        v@ == group_pairs_upto(records@, group@, group@.len() as int),
{
    let mut v: Vec<PairDistance> = Vec::new();
    let mut i: usize = 0;
    while i < group.len()
        invariant
            i <= group@.len(),
            forall|k: int| 0 <= k < group@.len() ==> (#[trigger] group@[k]) < records@.len(),
            v@ == group_pairs_upto(records@, group@, i as int),
        decreases group.len() - i,
    {
        let ghost before = v@;
        let a = group[i];
        let mut j: usize = i + 1;
        while j < group.len()
            invariant
                i < group@.len(),
                i + 1 <= j <= group@.len(),
                a == group@[i as int],
                forall|k: int| 0 <= k < group@.len() ==> (#[trigger] group@[k]) < records@.len(),
                v@ == before + Seq::new((j - i - 1) as nat, |k: int| pair_record(records@, group@[i as int], group@[i + 1 + k])),
            decreases group.len() - j,
        {
            let b = group[j];
            let p = PairDistance {
                a,
                b,
                phash_distance: opt_hamming(records[a].phash, records[b].phash),
                dhash_distance: opt_hamming(records[a].dhash, records[b].dhash),
                identical_blake3: records[a].blake3 == records[b].blake3,
            };
            v.push(p);
            proof {
                assert(v@ =~= before + Seq::new((j + 1 - i - 1) as nat, |k: int| pair_record(records@, group@[i as int], group@[i + 1 + k])));
            }
            j = j + 1;
        }
        proof {
            assert(v@ =~= group_pairs_upto(records@, group@, i + 1));
        }
        i = i + 1;
    }
    v
}

/// `s` with each double quote doubled.
pub open spec fn double_quotes(s: Seq<char>) -> Seq<char>
    decreases s.len(),
{
    if s.len() == 0 {
        Seq::empty()
    } else {
        double_quotes(s.drop_last()) + if s.last() == '"' {
            seq!['"', '"']
        } else {
            seq![s.last()]
        }
    }
}

/// `s` needs quoting in a CSV cell.
pub open spec fn needs_quotes(s: Seq<char>) -> bool {
    exists|i: int| 0 <= i < s.len() && (#[trigger] s[i] == ',' || s[i] == '"' || s[i] == '\n')
}

/// A CSV cell: quoted, with inner quotes doubled, when it holds a comma,
/// quote or newline; otherwise as is.
pub open spec fn csv_cell(s: Seq<char>) -> Seq<char> {
    if needs_quotes(s) {
        seq!['"'] + double_quotes(s) + seq!['"']
    } else {
        s
    }
}

/// Encode `value` as one CSV cell.
pub fn csv_field(value: &str) -> (r: String)
    ensures
        r@ == csv_cell(value@),
{
    let cs = chars_of(value);
    let mut special = false;
    let mut i: usize = 0;
    while i < cs.len()
        invariant
            cs@ == value@,
            i <= cs@.len(),
            special == exists|k: int| 0 <= k < i && (#[trigger] cs@[k] == ',' || cs@[k] == '"' || cs@[k] == '\n'),
        decreases cs.len() - i,
    {
        let c = cs[i];
        if c == ',' || c == '"' || c == '\n' {
            special = true;
        }
        i = i + 1;
    }
    if !special {
        return string_from_chars(cs.as_slice());
    }
    let mut out = String::new();
    out.push('"');
    let mut j: usize = 0;
    while j < cs.len()
        invariant
            cs@ == value@,
            j <= cs@.len(),
            out@ == seq!['"'] + double_quotes(cs@.take(j as int)),
        decreases cs.len() - j,
    {
        let c = cs[j];
        out.push(c);
        if c == '"' {
            out.push('"');
        }
        proof {
            assert(cs@.take(j + 1).drop_last() == cs@.take(j as int));
            assert(out@ =~= seq!['"'] + double_quotes(cs@.take(j + 1)));
        }
        j = j + 1;
    }
    out.push('"');
    proof {
        assert(cs@.take(cs@.len() as int) == cs@);
    }
    out
}

/// The header of the labelling template.
pub const LABEL_HEADER: &'static str = "group,files_in_group,aspen_picked,your_pick,your_reason,confidence_1_to_5\n";

/// One row of the labelling template: the group, its members' file names
/// joined by ` | `, the app's pick, and three blank columns.
pub open spec fn label_line(group_index: nat, members: Seq<char>, pick: Seq<char>) -> Seq<char> {
    decimal(group_index) + seq![','] + csv_cell(members) + seq![','] + csv_cell(pick) + ",,,\n"@
}

/// Build one row of the labelling template.
pub fn label_row(group_index: usize, members: &str, pick: &str) -> (r: String)
    ensures
        r@ == label_line(group_index as nat, members@, pick@),
{
    let mut out = String::new();
    push_decimal(&mut out, group_index as u64);
    out.push(',');
    let m = csv_field(members);
    out.append(m.as_str());
    out.push(',');
    let p = csv_field(pick);
    out.append(p.as_str());
    out.append(",,,\n");
    proof {
        assert(out@ =~= label_line(group_index as nat, members@, pick@));
    }
    out
}

/// Names joined with ` | `.
pub open spec fn joined_names(names: Seq<Seq<char>>) -> Seq<char>
    decreases names.len(),
{
    if names.len() == 0 {
        Seq::empty()
    } else if names.len() == 1 {
        names[0]
    } else {
        joined_names(names.drop_last()) + " | "@ + names.last()
    }
}

/// The members' file names as the labelling template lists them.
pub fn member_names(group: &[usize], records: &[ImageRecord]) -> (s: String)
    requires
        forall|k: int| 0 <= k < group@.len() ==> (#[trigger] group@[k]) < records@.len(),
    ensures
        s@ == joined_names(Seq::new(group@.len(), |k: int| display_name(records@[group@[k] as int].path@))),
{
    let ghost names = Seq::new(group@.len(), |k: int| display_name(records@[group@[k] as int].path@));
    let mut out = String::new();
    let mut i: usize = 0;
    while i < group.len()
        invariant
            i <= group@.len(),
            forall|k: int| 0 <= k < group@.len() ==> (#[trigger] group@[k]) < records@.len(),
            names == Seq::new(group@.len(), |k: int| display_name(records@[group@[k] as int].path@)),
            out@ == joined_names(names.take(i as int)),
        decreases group.len() - i,
    {
        let n = file_name_str(records[group[i]].path.as_str());
        if i > 0 {
            out.append(" | ");
        }
        out.append(n.as_str());
        proof {
            assert(names.take(i + 1).drop_last() == names.take(i as int));
            if i == 0 {
                assert(out@ =~= joined_names(names.take(1)));
            }
        }
        i = i + 1;
    }
    proof {
        assert(names.take(group@.len() as int) == names);
    }
    out
}

/// Where a record's path is logged: in full when the user opted in,
/// otherwise relative to the scanned folder (`rel`, when the path lies
/// below it) or else just the file name.
pub fn folder_label(include_full_paths: bool, path: &str, rel: Option<&str>) -> (s: String)
    ensures
        include_full_paths ==> s@ == path@,
        !include_full_paths ==> s@ == match rel {
            Some(r) => r@,
            None => display_name(path@),
        },
{
    if include_full_paths {
        return string_from_chars(chars_of(path).as_slice());
    }
    match rel {
        Some(r) => string_from_chars(chars_of(r).as_slice()),
        None => file_name_str(path),
    }
}

/// The benchmark folder inside the logs folder, when that is known.
pub fn benchmark_dir(logs_dir: Option<&str>) -> (d: Option<String>)
    ensures
        d matches Some(p) ==> logs_dir is Some && p@ == join_path(logs_dir.unwrap()@, "benchmark"@),
        d is None ==> logs_dir is None,
{
    match logs_dir {
        Some(l) => Some(path_join(l, "benchmark")),
        None => None,
    }
}

} // verus!
