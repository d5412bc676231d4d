//! What every placement plan of a deduplication run satisfies: each file is
//! placed exactly once, each group keeps exactly one file, and a run whose
//! moves all succeed counts every scanned file as kept or rejected.

use vstd::prelude::*;
use crate::dedupe::{ImageRecord, duplicate_groups};
use crate::dedupe_laws::{law_group_shape, law_groups_disjoint};
use crate::pipeline::{Placement, group_placements, groups_placements, run_placements, in_some_group, tally};

verus! {

/// Each group lists no file twice, and no file is in two groups.
pub open spec fn disjoint_groups(gs: Seq<Seq<usize>>) -> bool {
    &&& forall|g: int, k: int, l: int|
        0 <= g < gs.len() && 0 <= k < l < gs[g].len() ==> #[trigger] gs[g][k] != #[trigger] gs[g][l]
    &&& forall|g1: int, g2: int, k1: int, k2: int|
        0 <= g1 < gs.len() && 0 <= g2 < gs.len() && g1 != g2 && 0 <= k1 < gs[g1].len() && 0 <= k2
            < gs[g2].len() ==> #[trigger] gs[g1][k1] != #[trigger] gs[g2][k2]
}

/// `i` is a member of one of the first `m` groups.
pub open spec fn in_first_groups(gs: Seq<Seq<usize>>, m: int, i: usize) -> bool {
    exists|g: int, p: int| 0 <= g < m && 0 <= p < gs[g].len() && #[trigger] gs[g][p] == i
}

proof fn lemma_groups_placements(gs: Seq<Seq<usize>>, ws: Seq<usize>, m: int)
    requires
        0 <= m <= gs.len(),
        ws.len() == gs.len(),
    ensures
        forall|k: int|
            0 <= k < groups_placements(gs, ws, m).len() ==> in_first_groups(
                gs,
                m,
                (#[trigger] groups_placements(gs, ws, m)[k]).0,
            ),
        forall|g: int, p: int|
            0 <= g < m && 0 <= p < gs[g].len() ==> exists|k: int|
                0 <= k < groups_placements(gs, ws, m).len() && (#[trigger] groups_placements(gs, ws, m)[k]).0
                    == #[trigger] gs[g][p],
        disjoint_groups(gs) ==> forall|k1: int, k2: int|
            0 <= k1 < k2 < groups_placements(gs, ws, m).len() ==> (#[trigger] groups_placements(gs, ws, m)[k1]).0
                != (#[trigger] groups_placements(gs, ws, m)[k2]).0,
    decreases m,
{
    if m > 0 {
        lemma_groups_placements(gs, ws, m - 1);
        let a = groups_placements(gs, ws, m - 1);
        let b = group_placements(gs[m - 1], ws[m - 1]);
        let all = groups_placements(gs, ws, m);
        assert(all == a + b);
        assert forall|k: int| 0 <= k < all.len() implies in_first_groups(gs, m, (#[trigger] all[k]).0) by {
            if k < a.len() {
                assert(all[k] == a[k]);
                assert(in_first_groups(gs, m - 1, a[k].0));
                let (g, p) = choose|g: int, p: int| 0 <= g < m - 1 && 0 <= p < gs[g].len() && #[trigger] gs[g][p] == a[k].0;
                assert(gs[g][p] == all[k].0);
            } else {
                let p = k - a.len();
                assert(all[k] == b[p]);
                assert(gs[m - 1][p] == all[k].0);
            }
        }
        assert forall|g: int, p: int| 0 <= g < m && 0 <= p < gs[g].len() implies exists|k: int|
            0 <= k < all.len() && (#[trigger] all[k]).0 == #[trigger] gs[g][p] by {
            if g < m - 1 {
                let k = choose|k: int| 0 <= k < a.len() && (#[trigger] a[k]).0 == gs[g][p];
                assert(all[k] == a[k]);
            } else {
                assert(all[a.len() + p] == b[p]);
            }
        }
        if disjoint_groups(gs) {
            assert forall|k1: int, k2: int| 0 <= k1 < k2 < all.len() implies (#[trigger] all[k1]).0 != (
            #[trigger] all[k2]).0 by {
                if k2 < a.len() {
                    assert(all[k1] == a[k1] && all[k2] == a[k2]);
                } else if k1 >= a.len() {
                    let p1 = k1 - a.len();
                    let p2 = k2 - a.len();
                    assert(all[k1] == b[p1] && all[k2] == b[p2]);
                    assert(gs[m - 1][p1] != gs[m - 1][p2]);
                } else {
                    assert(all[k1] == a[k1]);
                    assert(in_first_groups(gs, m - 1, a[k1].0));
                    let (g, p) = choose|g: int, p: int|
                        0 <= g < m - 1 && 0 <= p < gs[g].len() && #[trigger] gs[g][p] == a[k1].0;
                    let p2 = k2 - a.len();
                    assert(all[k2] == b[p2]);
                    assert(gs[g][p] != gs[m - 1][p2]);
                }
            }
        }
    }
}

/// The groups of a clustering result are disjoint and without repeats.
proof fn lemma_duplicate_groups_disjoint(r: Seq<ImageRecord>, t: u32, c: bool)
    requires
        r.len() <= usize::MAX,
    ensures
        disjoint_groups(duplicate_groups(r, t, c)),
{
    let gs = duplicate_groups(r, t, c);
    assert forall|g: int, k: int, l: int| 0 <= g < gs.len() && 0 <= k < l < gs[g].len() implies #[trigger] gs[g][k]
        != #[trigger] gs[g][l] by {
        law_group_shape(r, t, c, g);
    }
    assert forall|g1: int, g2: int, k1: int, k2: int|
        0 <= g1 < gs.len() && 0 <= g2 < gs.len() && g1 != g2 && 0 <= k1 < gs[g1].len() && 0 <= k2
            < gs[g2].len() implies #[trigger] gs[g1][k1] != #[trigger] gs[g2][k2] by {
        law_groups_disjoint(r, t, c, g1, g2, k1, k2);
    }
}

/// Every record of a run is placed exactly once: as the keeper or a reject
/// of the one group it belongs to, or as a unique file. `unique` is the
/// increasing list of the records in no group, as the run computes it.
pub proof fn law_each_record_placed_once(
    r: Seq<ImageRecord>,
    t: u32,
    c: bool,
    winners: Seq<usize>,
    unique: Seq<usize>,
    i: usize,
)
    requires
        r.len() <= usize::MAX,
        winners.len() == duplicate_groups(r, t, c).len(),
        forall|k: int, l: int| 0 <= k < l < unique.len() ==> unique[k] < unique[l],
        forall|j: usize| j < r.len() ==> (unique.contains(j) <==> !in_some_group(duplicate_groups(r, t, c), j)),
        i < r.len(),
    ensures
        exists|k: int|
            0 <= k < run_placements(duplicate_groups(r, t, c), winners, unique).len() && (
            #[trigger] run_placements(duplicate_groups(r, t, c), winners, unique)[k]).0 == i,
        forall|k1: int, k2: int|
            0 <= k1 < run_placements(duplicate_groups(r, t, c), winners, unique).len() && 0 <= k2 < run_placements(
                duplicate_groups(r, t, c),
                winners,
                unique,
            ).len() && (#[trigger] run_placements(duplicate_groups(r, t, c), winners, unique)[k1]).0 == i && (
            #[trigger] run_placements(duplicate_groups(r, t, c), winners, unique)[k2]).0 == i ==> k1 == k2,
{
    let gs = duplicate_groups(r, t, c);
    let n = gs.len() as int;
    lemma_duplicate_groups_disjoint(r, t, c);
    lemma_groups_placements(gs, winners, n);
    let g_part = groups_placements(gs, winners, n);
    let u_part = unique.map_values(|j: usize| (j, Placement::Unique));
    let all = run_placements(gs, winners, unique);
    assert(all == g_part + u_part);
    if in_some_group(gs, i) {
        let g = choose|g: int| 0 <= g < gs.len() && #[trigger] gs[g].contains(i);
        let p = choose|p: int| 0 <= p < gs[g].len() && gs[g][p] == i;
        let k = choose|k: int| 0 <= k < g_part.len() && (#[trigger] g_part[k]).0 == gs[g][p];
        assert(all[k] == g_part[k]);
    } else {
        assert(unique.contains(i));
        let q = choose|q: int| 0 <= q < unique.len() && unique[q] == i;
        assert(all[g_part.len() + q] == u_part[q]);
    }
    assert forall|k1: int, k2: int|
        0 <= k1 < all.len() && 0 <= k2 < all.len() && (#[trigger] all[k1]).0 == i && (#[trigger] all[k2]).0
            == i implies k1 == k2 by {
        if k1 != k2 {
            let lo = if k1 < k2 { k1 } else { k2 };
            let hi = if k1 < k2 { k2 } else { k1 };
            if hi < g_part.len() {
                assert(all[lo] == g_part[lo] && all[hi] == g_part[hi]);
            } else if lo >= g_part.len() {
                assert(all[lo] == u_part[lo - g_part.len()] && all[hi] == u_part[hi - g_part.len()]);
            } else {
                assert(all[lo] == g_part[lo]);
                assert(in_first_groups(gs, n, g_part[lo].0));
                let (g, p) = choose|g: int, p: int| 0 <= g < n && 0 <= p < gs[g].len() && #[trigger] gs[g][p] == i;
                assert(gs[g].contains(i));
                assert(in_some_group(gs, i));
                assert(all[hi] == u_part[hi - g_part.len()]);
                assert(unique.contains(i));
            }
        }
    }
}

/// Each group keeps exactly one file, its winner, when the winner is a
/// member of the group; every other member is rejected.
pub proof fn law_one_keeper_per_group(r: Seq<ImageRecord>, t: u32, c: bool, g: int, winner: usize)
    requires
        r.len() <= usize::MAX,
        0 <= g < duplicate_groups(r, t, c).len(),
        duplicate_groups(r, t, c)[g].contains(winner),
    ensures
        exists|p: int|
            0 <= p < duplicate_groups(r, t, c)[g].len() && #[trigger] group_placements(
                duplicate_groups(r, t, c)[g],
                winner,
            )[p] == (winner, Placement::Kept),
        forall|p1: int, p2: int|
            0 <= p1 < duplicate_groups(r, t, c)[g].len() && 0 <= p2 < duplicate_groups(r, t, c)[g].len() && (
            #[trigger] group_placements(duplicate_groups(r, t, c)[g], winner)[p1]).1 == Placement::Kept && (
            #[trigger] group_placements(duplicate_groups(r, t, c)[g], winner)[p2]).1 == Placement::Kept ==> p1
                == p2,
        forall|p: int|
            0 <= p < duplicate_groups(r, t, c)[g].len() && (#[trigger] group_placements(
                duplicate_groups(r, t, c)[g],
                winner,
            )[p]).1 != Placement::Kept ==> group_placements(duplicate_groups(r, t, c)[g], winner)[p].1
                == Placement::Rejected,
{
    let gs = duplicate_groups(r, t, c);
    law_group_shape(r, t, c, g);
    let members = gs[g];
    let gp = group_placements(members, winner);
    let p = choose|p: int| 0 <= p < members.len() && members[p] == winner;
    assert(gp[p] == (winner, Placement::Kept));
    assert forall|p1: int, p2: int|
        0 <= p1 < members.len() && 0 <= p2 < members.len() && (#[trigger] gp[p1]).1 == Placement::Kept && (
        #[trigger] gp[p2]).1 == Placement::Kept implies p1 == p2 by {
        assert(members[p1] == winner && members[p2] == winner);
        if p1 < p2 {
            assert(members[p1] < members[p2]);
        } else if p2 < p1 {
            assert(members[p2] < members[p1]);
        }
    }
}


/// The outcomes of a plan whose every placement succeeded.
pub open spec fn all_succeeded(ps: Seq<(usize, Placement)>) -> Seq<(Placement, bool)> {
    ps.map_values(|p: (usize, Placement)| (p.1, true))
}

proof fn lemma_all_succeeded_concat(a: Seq<(usize, Placement)>, b: Seq<(usize, Placement)>)
    ensures
        all_succeeded(a + b) == all_succeeded(a) + all_succeeded(b),
{
    assert(all_succeeded(a + b) =~= all_succeeded(a) + all_succeeded(b));
}

proof fn lemma_tally_concat(a: Seq<(Placement, bool)>, b: Seq<(Placement, bool)>)
    ensures
        tally(a + b).0 == tally(a).0 + tally(b).0,
        tally(a + b).1 == tally(a).1 + tally(b).1,
    decreases b.len(),
{
    if b.len() == 0 {
        assert(a + b =~= a);
    } else {
        lemma_tally_concat(a, b.drop_last());
        assert((a + b).drop_last() =~= a + b.drop_last());
        assert((a + b).last() == b.last());
    }
}

proof fn lemma_tally_total(s: Seq<(Placement, bool)>)
    requires
        forall|k: int| 0 <= k < s.len() ==> (#[trigger] s[k]).1,
    ensures
        tally(s).0 + tally(s).1 == s.len(),
    decreases s.len(),
{
    if s.len() > 0 {
        assert forall|k: int| 0 <= k < s.drop_last().len() implies (#[trigger] s.drop_last()[k]).1 by {
            assert(s.drop_last()[k] == s[k]);
        }
        lemma_tally_total(s.drop_last());
    }
}

proof fn lemma_group_kept(g: Seq<usize>, w: usize)
    requires
        forall|k: int, l: int| 0 <= k < l < g.len() ==> #[trigger] g[k] != #[trigger] g[l],
    ensures
        tally(all_succeeded(group_placements(g, w))).0 == if g.contains(w) { 1int } else { 0int },
    decreases g.len(),
{
    if g.len() > 0 {
        let d = g.drop_last();
        assert forall|k: int, l: int| 0 <= k < l < d.len() implies #[trigger] d[k] != #[trigger] d[l] by {
            assert(d[k] == g[k] && d[l] == g[l]);
        }
        lemma_group_kept(d, w);
        let s = all_succeeded(group_placements(g, w));
        assert(s.drop_last() =~= all_succeeded(group_placements(d, w)));
        if g.last() == w {
            assert(g.contains(w));
            if d.contains(w) {
                let k = choose|k: int| 0 <= k < d.len() && d[k] == w;
                assert(g[k] == g[g.len() - 1]);
            }
        } else {
            if g.contains(w) {
                let k = choose|k: int| 0 <= k < g.len() && g[k] == w;
                assert(d[k] == w);
            }
            if d.contains(w) {
                let k = choose|k: int| 0 <= k < d.len() && d[k] == w;
                assert(g[k] == w);
            }
        }
    }
}

proof fn lemma_unique_kept(u: Seq<usize>)
    ensures
        tally(all_succeeded(u.map_values(|i: usize| (i, Placement::Unique)))).0 == u.len(),
    decreases u.len(),
{
    if u.len() > 0 {
        lemma_unique_kept(u.drop_last());
        assert(all_succeeded(u.map_values(|i: usize| (i, Placement::Unique))).drop_last() =~= all_succeeded(
            u.drop_last().map_values(|i: usize| (i, Placement::Unique)),
        ));
    }
}

proof fn lemma_groups_kept(gs: Seq<Seq<usize>>, ws: Seq<usize>, m: int)
    requires
        0 <= m <= gs.len(),
        ws.len() == gs.len(),
        disjoint_groups(gs),
        forall|g: int| 0 <= g < gs.len() ==> #[trigger] gs[g].contains(ws[g]),
    ensures
        tally(all_succeeded(groups_placements(gs, ws, m))).0 == m,
    decreases m,
{
    if m > 0 {
        lemma_groups_kept(gs, ws, m - 1);
        let a = groups_placements(gs, ws, m - 1);
        let b = group_placements(gs[m - 1], ws[m - 1]);
        assert(groups_placements(gs, ws, m) == a + b);
        lemma_all_succeeded_concat(a, b);
        lemma_tally_concat(all_succeeded(a), all_succeeded(b));
        assert(gs[m - 1].contains(ws[m - 1]));
        lemma_group_kept(gs[m - 1], ws[m - 1]);
    }
}

/// When every placement of a run succeeds, the run keeps one file per
/// duplicate group and every unique file, and the kept and rejected files
/// together are exactly the scanned records. `winners[g]` is the member of
/// group `g` that the run keeps; `unique` is the increasing list of the
/// records in no group.
pub proof fn law_run_tally(r: Seq<ImageRecord>, t: u32, c: bool, winners: Seq<usize>, unique: Seq<usize>)
    requires
        r.len() <= usize::MAX,
        winners.len() == duplicate_groups(r, t, c).len(),
        forall|g: int|
            0 <= g < duplicate_groups(r, t, c).len() ==> #[trigger] duplicate_groups(r, t, c)[g].contains(
                winners[g],
            ),
        forall|k: int, l: int| 0 <= k < l < unique.len() ==> unique[k] < unique[l],
        forall|k: int| 0 <= k < unique.len() ==> #[trigger] unique[k] < r.len(),
        forall|j: usize| j < r.len() ==> (unique.contains(j) <==> !in_some_group(duplicate_groups(r, t, c), j)),
    ensures
        tally(all_succeeded(run_placements(duplicate_groups(r, t, c), winners, unique))).0
            == duplicate_groups(r, t, c).len() + unique.len(),
        tally(all_succeeded(run_placements(duplicate_groups(r, t, c), winners, unique))).0 + tally(
            all_succeeded(run_placements(duplicate_groups(r, t, c), winners, unique)),
        ).1 == r.len(),
{
    let gs = duplicate_groups(r, t, c);
    let n = gs.len() as int;
    lemma_duplicate_groups_disjoint(r, t, c);
    lemma_groups_placements(gs, winners, n);
    let g_part = groups_placements(gs, winners, n);
    let u_part = unique.map_values(|j: usize| (j, Placement::Unique));
    let all = run_placements(gs, winners, unique);
    assert(all == g_part + u_part);
    lemma_groups_kept(gs, winners, n);
    lemma_unique_kept(unique);
    lemma_all_succeeded_concat(g_part, u_part);
    lemma_tally_concat(all_succeeded(g_part), all_succeeded(u_part));
    let outs = all_succeeded(all);
    lemma_tally_total(outs);
    // Every placed file is a scanned record, and every scanned record is placed exactly once.
    assert forall|k: int| 0 <= k < all.len() implies (#[trigger] all[k]).0 < r.len() by {
        if k < g_part.len() {
            assert(all[k] == g_part[k]);
            let (g, p) = choose|g: int, p: int| 0 <= g < n && 0 <= p < gs[g].len() && #[trigger] gs[g][p] == g_part[k].0;
            law_group_shape(r, t, c, g);
        } else {
            assert(all[k] == u_part[k - g_part.len()]);
        }
    }
    let keys = all.map_values(|p: (usize, Placement)| p.0 as int);
    assert forall|i: int, j: int| 0 <= i < keys.len() && 0 <= j < keys.len() && i != j implies keys[i] != keys[j] by {
        if keys[i] == keys[j] {
            let x = all[i].0;
            law_each_record_placed_once(r, t, c, winners, unique, x);
            assert(all[j].0 == x);
        }
    }
    assert(keys.to_set() =~= vstd::set_lib::set_int_range(0, r.len() as int)) by {
        assert forall|x: int| 0 <= x < r.len() implies keys.to_set().contains(x) by {
            law_each_record_placed_once(r, t, c, winners, unique, x as usize);
            let k = choose|k: int| 0 <= k < all.len() && (#[trigger] all[k]).0 == x as usize;
            assert(keys[k] == x);
        }
        assert forall|x: int| keys.to_set().contains(x) implies 0 <= x < r.len() by {
            let k = choose|k: int| 0 <= k < keys.len() && keys[k] == x;
            assert(all[k].0 < r.len());
        }
    }
    keys.unique_seq_to_set();
    vstd::set_lib::lemma_int_range(0, r.len() as int);
}

/// The tally counts successful placements only: kept is the number of
/// placements that succeeded and keep their file (the group's winner or a
/// unique file), rejected the number of successful rejections. A placement
/// that failed is counted nowhere, whatever its kind.
pub proof fn law_tally_counts_successes(outcomes: Seq<(Placement, bool)>)
    ensures
        tally(outcomes).0 == outcomes.filter(|o: (Placement, bool)| o.1 && o.0 != Placement::Rejected).len(),
        tally(outcomes).1 == outcomes.filter(|o: (Placement, bool)| o.1 && o.0 == Placement::Rejected).len(),
    decreases outcomes.len(),
{
    reveal(Seq::filter);
    if outcomes.len() > 0 {
        law_tally_counts_successes(outcomes.drop_last());
        let keep = |o: (Placement, bool)| o.1 && o.0 != Placement::Rejected;
        let rej = |o: (Placement, bool)| o.1 && o.0 == Placement::Rejected;
        assert(outcomes.filter(keep).len() == outcomes.drop_last().filter(keep).len() + if keep(outcomes.last()) {
            1int
        } else {
            0int
        });
        assert(outcomes.filter(rej).len() == outcomes.drop_last().filter(rej).len() + if rej(outcomes.last()) {
            1int
        } else {
            0int
        });
    }
}

/// Recording one more failed placement leaves the tally unchanged.
pub proof fn law_failed_placement_counts_nowhere(outcomes: Seq<(Placement, bool)>, p: Placement)
    ensures
        tally(outcomes.push((p, false))) == tally(outcomes),
{
    assert(outcomes.push((p, false)).drop_last() =~= outcomes);
}

/// Recording one more successful placement adds one to the kept count, or
/// to the rejected count when the file is rejected.
pub proof fn law_successful_placement_counts_once(outcomes: Seq<(Placement, bool)>, p: Placement)
    ensures
        tally(outcomes.push((p, true))).0 == tally(outcomes).0 + if p == Placement::Rejected { 0int } else { 1int },
        tally(outcomes.push((p, true))).1 == tally(outcomes).1 + if p == Placement::Rejected { 1int } else { 0int },
{
    assert(outcomes.push((p, true)).drop_last() =~= outcomes);
}

} // verus!
