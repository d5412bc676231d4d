//! What every clustering result satisfies, whatever the records.

use vstd::prelude::*;
use vstd::arithmetic::power2::{pow2, lemma2_to64, lemma_pow2_unfold};
use crate::dedupe::{
    ImageRecord, Edge, same_content, hashes_near, merged, content_labels, lemma_content_labels,
    edges_in_range, lemma_merged_len, classes_near, relabel, lemma_relabel, final_labels,
    merge_order, lemma_merge_order_in_range, class_upto, is_leader, groups_upto, duplicate_groups,
    popcount, edge_of, row_pairs, pairs_before, near_pairs, at_distance, by_distance, merge_step,
};

verus! {

/// Near-duplicate is a symmetric relation.
pub proof fn lemma_near_symmetric(r: ImageRecord, s: ImageRecord, t: u32, c: bool)
    ensures
        hashes_near(r, s, t, c) == hashes_near(s, r, t, c),
{
    if let (Some(ha), Some(hb)) = (r.phash, s.phash) {
        assert(ha ^ hb == hb ^ ha) by (bit_vector);
    }
    if let (Some(da), Some(db)) = (r.dhash, s.dhash) {
        assert(da ^ db == db ^ da) by (bit_vector);
    }
}

/// Members of a class are, pairwise, identical or near-duplicates; identical
/// records share a class.
spec fn partition_sound(r: Seq<ImageRecord>, t: u32, c: bool, lab: Seq<int>) -> bool {
    &&& lab.len() == r.len()
    &&& forall|x: int, y: int|
        0 <= x < r.len() && 0 <= y < r.len() && #[trigger] lab[x] == #[trigger] lab[y] ==> same_content(r[x], r[y])
            || hashes_near(r[x], r[y], t, c)
    &&& forall|x: int, y: int|
        0 <= x < r.len() && 0 <= y < r.len() && same_content(r[x], r[y]) ==> #[trigger] lab[x] == #[trigger] lab[y]
}

proof fn lemma_merged_sound(r: Seq<ImageRecord>, t: u32, c: bool, es: Seq<Edge>, k: nat)
    requires
        k <= es.len(),
        edges_in_range(es, r.len() as int),
    ensures
        partition_sound(r, t, c, merged(r, t, c, es, k)),
    decreases k,
{
    lemma_merged_len(r, t, c, es, k);
    if k == 0 {
        assert forall|x: int, y: int| 0 <= x < r.len() && 0 <= y < r.len() implies (content_labels(r)[x]
            == content_labels(r)[y] <==> same_content(r[x], r[y])) by {
            lemma_content_labels(r, x, y);
        }
    } else {
        lemma_merged_sound(r, t, c, es, (k - 1) as nat);
        let lab = merged(r, t, c, es, (k - 1) as nat);
        let e = es[k - 1];
        let a = e.1 as int;
        let b = e.2 as int;
        assert(e.1 < r.len() && e.2 < r.len());
        if lab[a] != lab[b] && classes_near(r, t, c, lab, a, b) {
            let nl = relabel(lab, a, b);
            assert forall|x: int, y: int|
                0 <= x < r.len() && 0 <= y < r.len() && #[trigger] nl[x] == #[trigger] nl[y] implies same_content(
                r[x],
                r[y],
            ) || hashes_near(r[x], r[y], t, c) by {
                lemma_relabel(lab, a, b, x, y);
                if lab[x] == lab[a] && lab[y] == lab[b] {
                    assert(hashes_near(r[x], r[y], t, c));
                } else if lab[x] == lab[b] && lab[y] == lab[a] {
                    assert(hashes_near(r[y], r[x], t, c));
                    lemma_near_symmetric(r[y], r[x], t, c);
                }
            }
            assert forall|x: int, y: int|
                0 <= x < r.len() && 0 <= y < r.len() && same_content(r[x], r[y]) implies #[trigger] nl[x]
                == #[trigger] nl[y] by {
                lemma_relabel(lab, a, b, x, y);
            }
        }
    }
}

proof fn lemma_final_sound(r: Seq<ImageRecord>, t: u32, c: bool)
    ensures
        partition_sound(r, t, c, final_labels(r, t, c)),
{
    lemma_merge_order_in_range(r, t, c);
    lemma_merged_sound(r, t, c, merge_order(r, t, c), merge_order(r, t, c).len());
}

/// Membership in `class_upto`: the indices below `m` in `x`'s class, strictly increasing.
proof fn lemma_class_upto(lab: Seq<int>, x: int, m: int)
    requires
        lab.len() <= usize::MAX,
        0 <= x < lab.len(),
        m <= lab.len(),
    ensures
        forall|k: int| 0 <= k < class_upto(lab, x, m).len() ==> {
            &&& 0 <= (#[trigger] class_upto(lab, x, m)[k]) < m
            &&& lab[class_upto(lab, x, m)[k] as int] == lab[x]
        },
        forall|k: int, l: int|
            0 <= k < l < class_upto(lab, x, m).len() ==> class_upto(lab, x, m)[k] < class_upto(
                lab,
                x,
                m,
            )[l],
        forall|y: int|
            0 <= y < m && lab[y] == lab[x] ==> #[trigger] class_upto(lab, x, m).contains(y as usize),
    decreases m,
{
    if m > 0 {
        lemma_class_upto(lab, x, m - 1);
        let prev = class_upto(lab, x, m - 1);
        let cur = class_upto(lab, x, m);
        assert forall|k: int| 0 <= k < cur.len() implies {
            &&& 0 <= (#[trigger] cur[k]) < m
            &&& lab[cur[k] as int] == lab[x]
        } by {
            if k < prev.len() {
                assert(cur[k] == prev[k]);
            }
        }
        assert forall|k: int, l: int| 0 <= k < l < cur.len() implies cur[k] < cur[l] by {
            assert(cur[k] == prev[k]);
            if l < prev.len() {
                assert(cur[l] == prev[l]);
            }
        }
        assert forall|y: int| 0 <= y < m && lab[y] == lab[x] implies #[trigger] cur.contains(y as usize) by {
            if y < m - 1 {
                assert(prev.contains(y as usize));
                let k = choose|k: int| 0 <= k < prev.len() && prev[k] == y as usize;
                assert(cur[k] == y as usize);
            } else {
                assert(cur[cur.len() - 1] == y as usize);
            }
        }
    }
}

/// Each group is the class of a leader below `m`, with at least two members.
proof fn lemma_groups_upto(lab: Seq<int>, m: int)
    requires
        lab.len() <= usize::MAX,
        m <= lab.len(),
    ensures
        forall|g: int| #![trigger groups_upto(lab, m)[g]] 0 <= g < groups_upto(lab, m).len() ==> exists|x: int|
            #![trigger is_leader(lab, x)]
            0 <= x < m && is_leader(lab, x) && groups_upto(lab, m)[g] == class_upto(lab, x, lab.len() as int)
                && class_upto(lab, x, lab.len() as int).len() >= 2,
        forall|g1: int, g2: int, k1: int, k2: int|
            0 <= g1 < g2 < groups_upto(lab, m).len() && 0 <= k1 < groups_upto(lab, m)[g1].len() && 0 <= k2
                < groups_upto(lab, m)[g2].len() ==> #[trigger] groups_upto(lab, m)[g1][k1]
                != #[trigger] groups_upto(lab, m)[g2][k2],
    decreases m,
{
    if m > 0 {
        lemma_groups_upto(lab, m - 1);
        let prev = groups_upto(lab, m - 1);
        let cur = groups_upto(lab, m);
        let n = lab.len() as int;
        assert forall|g: int| #![trigger cur[g]] 0 <= g < cur.len() implies exists|x: int|
            #![trigger is_leader(lab, x)]
            0 <= x < m && is_leader(lab, x) && cur[g] == class_upto(lab, x, n) && class_upto(lab, x, n).len()
                >= 2 by {
            if g < prev.len() {
                assert(cur[g] == prev[g]);
                let x = choose|x: int|
                    #![trigger is_leader(lab, x)]
                    0 <= x < m - 1 && is_leader(lab, x) && prev[g] == class_upto(lab, x, n) && class_upto(
                        lab,
                        x,
                        n,
                    ).len() >= 2;
                assert(is_leader(lab, x));
            } else {
                assert(is_leader(lab, m - 1));
            }
        }
        assert forall|g1: int, g2: int, k1: int, k2: int|
            0 <= g1 < g2 < cur.len() && 0 <= k1 < cur[g1].len() && 0 <= k2 < cur[g2].len() implies #[trigger] cur[g1][k1]
            != #[trigger] cur[g2][k2] by {
            if g2 < prev.len() {
                assert(cur[g1] == prev[g1]);
                assert(cur[g2] == prev[g2]);
                assert(prev[g1][k1] != prev[g2][k2]);
            } else {
                assert(cur[g1] == prev[g1]);
                let x = choose|x: int|
                    #![trigger is_leader(lab, x)]
                    0 <= x < m - 1 && is_leader(lab, x) && prev[g1] == class_upto(lab, x, n) && class_upto(
                        lab,
                        x,
                        n,
                    ).len() >= 2;
                lemma_class_upto(lab, x, n);
                lemma_class_upto(lab, m - 1, n);
                assert(cur[g2] == class_upto(lab, m - 1, n));
                assert(lab[cur[g1][k1] as int] == lab[x]);
                assert(lab[cur[g2][k2] as int] == lab[m - 1]);
                assert(lab[x] != lab[m - 1]);
            }
        }
    }
}

/// The first index at or after `j` whose label equals `y`'s.
spec fn first_in_class(lab: Seq<int>, y: int, j: int) -> int
    decreases y - j,
{
    if j >= y {
        y
    } else if lab[j] == lab[y] {
        j
    } else {
        first_in_class(lab, y, j + 1)
    }
}

proof fn lemma_first_in_class(lab: Seq<int>, y: int, j: int)
    requires
        0 <= j <= y < lab.len(),
    ensures
        j <= first_in_class(lab, y, j) <= y,
        lab[first_in_class(lab, y, j)] == lab[y],
        forall|l: int| j <= l < first_in_class(lab, y, j) ==> lab[l] != lab[y],
    decreases y - j,
{
    if j < y && lab[j] != lab[y] {
        lemma_first_in_class(lab, y, j + 1);
    }
}

/// Every leader whose class has two or more members heads a group.
proof fn lemma_leader_grouped(lab: Seq<int>, x: int, m: int)
    requires
        0 <= x < m <= lab.len(),
        is_leader(lab, x),
        class_upto(lab, x, lab.len() as int).len() >= 2,
    ensures
        exists|g: int| 0 <= g < groups_upto(lab, m).len() && #[trigger] groups_upto(lab, m)[g] == class_upto(
            lab,
            x,
            lab.len() as int,
        ),
    decreases m,
{
    let cls = class_upto(lab, x, lab.len() as int);
    if x == m - 1 {
        let cur = groups_upto(lab, m);
        assert(cur[cur.len() - 1] == cls);
    } else {
        lemma_leader_grouped(lab, x, m - 1);
        let g = choose|g: int| 0 <= g < groups_upto(lab, m - 1).len() && #[trigger] groups_upto(lab, m - 1)[g] == cls;
        assert(groups_upto(lab, m)[g] == cls);
    }
}

/// Every group has at least two members, lists distinct records of the run in
/// increasing order.
pub proof fn law_group_shape(r: Seq<ImageRecord>, t: u32, c: bool, g: int)
    requires
        r.len() <= usize::MAX,
        0 <= g < duplicate_groups(r, t, c).len(),
    ensures
        duplicate_groups(r, t, c)[g].len() >= 2,
        forall|k: int|
            0 <= k < duplicate_groups(r, t, c)[g].len() ==> (#[trigger] duplicate_groups(r, t, c)[g][k]) < r.len(),
        forall|k: int, l: int|
            0 <= k < l < duplicate_groups(r, t, c)[g].len() ==> duplicate_groups(r, t, c)[g][k]
                < duplicate_groups(r, t, c)[g][l],
{
    let lab = final_labels(r, t, c);
    lemma_final_sound(r, t, c);
    lemma_groups_upto(lab, r.len() as int);
    let x = choose|x: int|
        #![trigger is_leader(lab, x)]
        0 <= x < r.len() && is_leader(lab, x) && duplicate_groups(r, t, c)[g] == class_upto(lab, x, lab.len() as int)
            && class_upto(lab, x, lab.len() as int).len() >= 2;
    lemma_class_upto(lab, x, lab.len() as int);
}

/// No record appears in two groups.
pub proof fn law_groups_disjoint(r: Seq<ImageRecord>, t: u32, c: bool, g1: int, g2: int, k1: int, k2: int)
    requires
        r.len() <= usize::MAX,
        0 <= g1 < duplicate_groups(r, t, c).len(),
        0 <= g2 < duplicate_groups(r, t, c).len(),
        g1 != g2,
        0 <= k1 < duplicate_groups(r, t, c)[g1].len(),
        0 <= k2 < duplicate_groups(r, t, c)[g2].len(),
    ensures
        duplicate_groups(r, t, c)[g1][k1] != duplicate_groups(r, t, c)[g2][k2],
{
    let lab = final_labels(r, t, c);
    lemma_final_sound(r, t, c);
    lemma_groups_upto(lab, r.len() as int);
    let gs = duplicate_groups(r, t, c);
    if g1 < g2 {
        assert(gs[g1][k1] != gs[g2][k2]);
    } else {
        assert(gs[g2][k2] != gs[g1][k1]);
    }
}

/// Complete linkage: any two members of a group hold identical bytes or are
/// perceptual near-duplicates of each other; a chain of near matches never
/// pulls in an endpoint that is far from the rest.
pub proof fn law_group_members_pairwise_close(r: Seq<ImageRecord>, t: u32, c: bool, g: int, k: int, l: int)
    requires
        r.len() <= usize::MAX,
        0 <= g < duplicate_groups(r, t, c).len(),
        0 <= k < duplicate_groups(r, t, c)[g].len(),
        0 <= l < duplicate_groups(r, t, c)[g].len(),
    ensures
        same_content(
            r[duplicate_groups(r, t, c)[g][k] as int],
            r[duplicate_groups(r, t, c)[g][l] as int],
        ) || hashes_near(
            r[duplicate_groups(r, t, c)[g][k] as int],
            r[duplicate_groups(r, t, c)[g][l] as int],
            t,
            c,
        ),
{
    let lab = final_labels(r, t, c);
    lemma_final_sound(r, t, c);
    lemma_groups_upto(lab, r.len() as int);
    let x = choose|x: int|
        #![trigger is_leader(lab, x)]
        0 <= x < r.len() && is_leader(lab, x) && duplicate_groups(r, t, c)[g] == class_upto(lab, x, lab.len() as int)
            && class_upto(lab, x, lab.len() as int).len() >= 2;
    lemma_class_upto(lab, x, lab.len() as int);
    let cls = class_upto(lab, x, lab.len() as int);
    let a = cls[k] as int;
    let b = cls[l] as int;
    assert(lab[a] == lab[x] && lab[b] == lab[x]);
    assert(lab[a] == lab[b]);
}

/// Two different records with byte-identical content always land in the same group.
pub proof fn law_identical_content_grouped(r: Seq<ImageRecord>, t: u32, c: bool, x: int, y: int)
    requires
        r.len() <= usize::MAX,
        0 <= x < r.len(),
        0 <= y < r.len(),
        x != y,
        same_content(r[x], r[y]),
    ensures
        exists|g: int, k: int, l: int|
            0 <= g < duplicate_groups(r, t, c).len() && 0 <= k < duplicate_groups(r, t, c)[g].len() && 0 <= l
                < duplicate_groups(r, t, c)[g].len() && #[trigger] duplicate_groups(r, t, c)[g][k] == x as usize
                && #[trigger] duplicate_groups(r, t, c)[g][l] == y as usize,
{
    let lab = final_labels(r, t, c);
    let n = r.len() as int;
    lemma_final_sound(r, t, c);
    assert(lab[x] == lab[y]);
    lemma_first_in_class(lab, x, 0);
    let ld = first_in_class(lab, x, 0);
    assert(is_leader(lab, ld));
    lemma_class_upto(lab, ld, n);
    let cls = class_upto(lab, ld, n);
    assert(cls.contains(x as usize));
    assert(cls.contains(y as usize));
    let k = choose|k: int| 0 <= k < cls.len() && cls[k] == x as usize;
    let l = choose|l: int| 0 <= l < cls.len() && cls[l] == y as usize;
    assert(k != l);
    assert(cls.len() >= 2);
    lemma_leader_grouped(lab, ld, n);
    let g = choose|g: int| 0 <= g < groups_upto(lab, n).len() && #[trigger] groups_upto(lab, n)[g] == cls;
    assert(duplicate_groups(r, t, c)[g][k] == x as usize);
    assert(duplicate_groups(r, t, c)[g][l] == y as usize);
}


/// A value below `2^k` has at most `k` set bits.
proof fn lemma_popcount_below(x: u64, k: nat)
    requires
        x < pow2(k),
    ensures
        popcount(x) <= k,
    decreases k,
{
    if k == 0 {
        lemma2_to64();
    } else {
        lemma_pow2_unfold(k);
        lemma_popcount_below(x / 2, (k - 1) as nat);
    }
}

proof fn lemma_row_pairs_has(r: Seq<ImageRecord>, t: u32, c: bool, i: int, j: int, hi: int)
    requires
        0 <= i < j < hi <= r.len(),
        hashes_near(r[i], r[j], t, c),
    ensures
        row_pairs(r, t, c, i, hi).contains(edge_of(r, i, j)),
    decreases hi - i,
{
    let s = row_pairs(r, t, c, i, hi);
    if j == hi - 1 {
        assert(s[s.len() - 1] == edge_of(r, i, j));
    } else {
        lemma_row_pairs_has(r, t, c, i, j, hi - 1);
        let a = row_pairs(r, t, c, i, hi - 1);
        let k = choose|k: int| 0 <= k < a.len() && a[k] == edge_of(r, i, j);
        assert(s[k] == a[k]);
    }
}

proof fn lemma_pairs_before_has(r: Seq<ImageRecord>, t: u32, c: bool, i: int, j: int, m: int)
    requires
        0 <= i < j < r.len(),
        i < m <= r.len(),
        hashes_near(r[i], r[j], t, c),
    ensures
        pairs_before(r, t, c, m).contains(edge_of(r, i, j)),
    decreases m,
{
    let s = pairs_before(r, t, c, m);
    let a = pairs_before(r, t, c, m - 1);
    let b = row_pairs(r, t, c, m - 1, r.len() as int);
    if i == m - 1 {
        lemma_row_pairs_has(r, t, c, i, j, r.len() as int);
        let k = choose|k: int| 0 <= k < b.len() && b[k] == edge_of(r, i, j);
        assert(s[a.len() + k] == b[k]);
    } else {
        lemma_pairs_before_has(r, t, c, i, j, m - 1);
        let k = choose|k: int| 0 <= k < a.len() && a[k] == edge_of(r, i, j);
        assert(s[k] == a[k]);
    }
}

proof fn lemma_at_distance_has(s: Seq<Edge>, e: Edge)
    requires
        s.contains(e),
    ensures
        at_distance(s, e.0).contains(e),
    decreases s.len(),
{
    let out = at_distance(s, e.0);
    if s.last() == e {
        assert(out[out.len() - 1] == e);
    } else {
        let k = choose|k: int| 0 <= k < s.len() && s[k] == e;
        assert(s.drop_last()[k] == e);
        lemma_at_distance_has(s.drop_last(), e);
        let a = at_distance(s.drop_last(), e.0);
        let q = choose|q: int| 0 <= q < a.len() && a[q] == e;
        assert(out[q] == a[q]);
    }
}

proof fn lemma_by_distance_has(s: Seq<Edge>, k: nat, e: Edge)
    requires
        s.contains(e),
        e.0 < k,
    ensures
        by_distance(s, k).contains(e),
    decreases k,
{
    let out = by_distance(s, k);
    let a = by_distance(s, (k - 1) as nat);
    if e.0 == k - 1 {
        lemma_at_distance_has(s, e);
        let b = at_distance(s, e.0);
        let q = choose|q: int| 0 <= q < b.len() && b[q] == e;
        assert(out[a.len() + q] == b[q]);
    } else {
        lemma_by_distance_has(s, (k - 1) as nat, e);
        let q = choose|q: int| 0 <= q < a.len() && a[q] == e;
        assert(out[q] == a[q]);
    }
}

/// Merging only ever joins classes: records that share a class keep sharing one.
proof fn lemma_merged_coarsens(
    r: Seq<ImageRecord>,
    t: u32,
    c: bool,
    es: Seq<Edge>,
    k: nat,
    m: nat,
    x: int,
    y: int,
)
    requires
        k <= m <= es.len(),
        edges_in_range(es, r.len() as int),
        0 <= x < r.len(),
        0 <= y < r.len(),
        merged(r, t, c, es, k)[x] == merged(r, t, c, es, k)[y],
    ensures
        merged(r, t, c, es, m)[x] == merged(r, t, c, es, m)[y],
    decreases m - k,
{
    if m > k {
        lemma_merged_coarsens(r, t, c, es, k, (m - 1) as nat, x, y);
        lemma_merged_len(r, t, c, es, (m - 1) as nat);
        let lab = merged(r, t, c, es, (m - 1) as nat);
        let e = es[m - 1];
        if lab[e.1 as int] != lab[e.2 as int] && classes_near(r, t, c, lab, e.1 as int, e.2 as int) {
            lemma_relabel(lab, e.1 as int, e.2 as int, x, y);
        }
    }
}

proof fn lemma_far_witness_ordered(r: Seq<ImageRecord>, t: u32, c: bool, a: int, b: int)
    requires
        r.len() <= usize::MAX,
        0 <= a < b < r.len(),
        hashes_near(r[a], r[b], t, c),
        final_labels(r, t, c)[a] != final_labels(r, t, c)[b],
    ensures
        exists|x: int, y: int|
            0 <= x < r.len() && 0 <= y < r.len() && #[trigger] final_labels(r, t, c)[x] == final_labels(r, t, c)[a]
                && #[trigger] final_labels(r, t, c)[y] == final_labels(r, t, c)[b] && !hashes_near(r[x], r[y], t, c),
{
    let n = r.len() as int;
    let es = merge_order(r, t, c);
    let fin = final_labels(r, t, c);
    lemma_merge_order_in_range(r, t, c);
    let e = edge_of(r, a, b);
    lemma2_to64();
    lemma_popcount_below(r[a].phash.unwrap() ^ r[b].phash.unwrap(), 64);
    lemma_pairs_before_has(r, t, c, a, b, n);
    lemma_by_distance_has(near_pairs(r, t, c), 65, e);
    let k = choose|k: int| 0 <= k < es.len() && es[k] == e;
    assert(e.1 as int == a && e.2 as int == b);
    let lab = merged(r, t, c, es, k as nat);
    let next = merged(r, t, c, es, (k + 1) as nat);
    lemma_merged_len(r, t, c, es, k as nat);
    lemma_merged_len(r, t, c, es, (k + 1) as nat);
    assert(next == merge_step(r, t, c, lab, e));
    if next[a] == next[b] {
        lemma_merged_coarsens(r, t, c, es, (k + 1) as nat, es.len(), a, b);
        assert(false);
    }
    if lab[a] == lab[b] {
        assert(next == lab);
        assert(false);
    }
    if classes_near(r, t, c, lab, a, b) {
        lemma_relabel(lab, a, b, a, b);
        assert(false);
    }
    let (x, y) = choose|x: int, y: int|
        0 <= x < lab.len() && 0 <= y < lab.len() && #[trigger] lab[x] == lab[a] && #[trigger] lab[y] == lab[b]
            && !hashes_near(r[x], r[y], t, c);
    lemma_merged_coarsens(r, t, c, es, k as nat, es.len(), x, a);
    lemma_merged_coarsens(r, t, c, es, k as nat, es.len(), y, b);
    assert(fin[x] == fin[a] && fin[y] == fin[b]);
}

/// Complete linkage is maximal: two near-duplicates that end in different
/// clusters were kept apart because some member of the one cluster is not a
/// near-duplicate of some member of the other.
pub proof fn law_separated_near_pair_has_far_witness(r: Seq<ImageRecord>, t: u32, c: bool, i: int, j: int)
    requires
        r.len() <= usize::MAX,
        0 <= i < r.len(),
        0 <= j < r.len(),
        hashes_near(r[i], r[j], t, c),
        final_labels(r, t, c)[i] != final_labels(r, t, c)[j],
    ensures
        exists|x: int, y: int|
            0 <= x < r.len() && 0 <= y < r.len() && #[trigger] final_labels(r, t, c)[x] == final_labels(r, t, c)[i]
                && #[trigger] final_labels(r, t, c)[y] == final_labels(r, t, c)[j] && !hashes_near(r[x], r[y], t, c),
{
    if i < j {
        lemma_far_witness_ordered(r, t, c, i, j);
    } else {
        lemma_near_symmetric(r[i], r[j], t, c);
        lemma_far_witness_ordered(r, t, c, j, i);
        let fin = final_labels(r, t, c);
        let (x, y) = choose|x: int, y: int|
            0 <= x < r.len() && 0 <= y < r.len() && #[trigger] fin[x] == fin[j] && #[trigger] fin[y] == fin[i]
                && !hashes_near(r[x], r[y], t, c);
        lemma_near_symmetric(r[x], r[y], t, c);
        assert(fin[y] == fin[i] && fin[x] == fin[j] && !hashes_near(r[y], r[x], t, c));
    }
}


/// The pHash distance between two records (both are assumed to have one).
pub open spec fn phash_distance(x: ImageRecord, y: ImageRecord) -> nat {
    popcount(x.phash.unwrap() ^ y.phash.unwrap())
}

/// `e` is the candidate merge of a near pair `i < j` of the run.
spec fn sound_edge(r: Seq<ImageRecord>, t: u32, c: bool, e: Edge) -> bool {
    &&& e.1 < e.2 < r.len()
    &&& hashes_near(r[e.1 as int], r[e.2 as int], t, c)
    &&& e == edge_of(r, e.1 as int, e.2 as int)
}

proof fn lemma_row_pairs_sound(r: Seq<ImageRecord>, t: u32, c: bool, i: int, hi: int)
    requires
        r.len() <= usize::MAX,
        0 <= i,
        hi <= r.len(),
    ensures
        forall|k: int|
            0 <= k < row_pairs(r, t, c, i, hi).len() ==> sound_edge(r, t, c, #[trigger] row_pairs(r, t, c, i, hi)[k]),
    decreases hi - i,
{
    if hi > i + 1 {
        lemma_row_pairs_sound(r, t, c, i, hi - 1);
        let a = row_pairs(r, t, c, i, hi - 1);
        let s = row_pairs(r, t, c, i, hi);
        assert forall|k: int| 0 <= k < s.len() implies sound_edge(r, t, c, #[trigger] s[k]) by {
            if k < a.len() {
                assert(s[k] == a[k]);
            } else {
                assert(s[k] == edge_of(r, i, hi - 1));
            }
        }
    }
}

proof fn lemma_pairs_before_sound(r: Seq<ImageRecord>, t: u32, c: bool, i: int)
    requires
        r.len() <= usize::MAX,
        i <= r.len(),
    ensures
        forall|k: int|
            0 <= k < pairs_before(r, t, c, i).len() ==> sound_edge(r, t, c, #[trigger] pairs_before(r, t, c, i)[k]),
    decreases i,
{
    if i > 0 {
        lemma_pairs_before_sound(r, t, c, i - 1);
        lemma_row_pairs_sound(r, t, c, i - 1, r.len() as int);
        let a = pairs_before(r, t, c, i - 1);
        let b = row_pairs(r, t, c, i - 1, r.len() as int);
        let s = pairs_before(r, t, c, i);
        assert forall|k: int| 0 <= k < s.len() implies sound_edge(r, t, c, #[trigger] s[k]) by {
            if k < a.len() {
                assert(s[k] == a[k]);
            } else {
                assert(s[k] == b[k - a.len()]);
            }
        }
    }
}

proof fn lemma_at_distance_from(s: Seq<Edge>, d: u32)
    ensures
        forall|k: int|
            0 <= k < at_distance(s, d).len() ==> (#[trigger] at_distance(s, d)[k]).0 == d && s.contains(
                at_distance(s, d)[k],
            ),
    decreases s.len(),
{
    if s.len() > 0 {
        let p = s.drop_last();
        lemma_at_distance_from(p, d);
        let a = at_distance(p, d);
        let o = at_distance(s, d);
        assert forall|k: int| 0 <= k < o.len() implies (#[trigger] o[k]).0 == d && s.contains(o[k]) by {
            if k < a.len() {
                assert(o[k] == a[k]);
                let j = choose|j: int| 0 <= j < p.len() && p[j] == a[k];
                assert(s[j] == a[k]);
            } else {
                assert(o[k] == s.last());
                assert(s[s.len() - 1] == s.last());
            }
        }
    }
}

proof fn lemma_by_distance_sorted(s: Seq<Edge>, k: nat)
    requires
        k <= 65,
    ensures
        forall|q: int|
            0 <= q < by_distance(s, k).len() ==> (#[trigger] by_distance(s, k)[q]).0 < k && s.contains(
                by_distance(s, k)[q],
            ),
        forall|q1: int, q2: int|
            0 <= q1 < q2 < by_distance(s, k).len() ==> (#[trigger] by_distance(s, k)[q1]).0 <= (
            #[trigger] by_distance(s, k)[q2]).0,
    decreases k,
{
    if k > 0 {
        lemma_by_distance_sorted(s, (k - 1) as nat);
        lemma_at_distance_from(s, (k - 1) as u32);
        let a = by_distance(s, (k - 1) as nat);
        let b = at_distance(s, (k - 1) as u32);
        let o = by_distance(s, k);
        assert(o == a + b);
        assert forall|q: int| 0 <= q < o.len() implies (#[trigger] o[q]).0 < k && s.contains(o[q]) by {
            if q < a.len() {
                assert(o[q] == a[q]);
            } else {
                assert(o[q] == b[q - a.len()]);
            }
        }
        assert forall|q1: int, q2: int| 0 <= q1 < q2 < o.len() implies (#[trigger] o[q1]).0 <= (
        #[trigger] o[q2]).0 by {
            if q2 < a.len() {
                assert(o[q1] == a[q1] && o[q2] == a[q2]);
            } else if q1 >= a.len() {
                assert(o[q1] == b[q1 - a.len()] && o[q2] == b[q2 - a.len()]);
            } else {
                assert(o[q1] == a[q1] && o[q2] == b[q2 - a.len()]);
            }
        }
    }
}

proof fn lemma_popcount_small(x: u64)
    ensures
        popcount(x) <= 64,
{
    lemma2_to64();
    lemma_popcount_below(x, 64);
}

proof fn lemma_merge_order_sound(r: Seq<ImageRecord>, t: u32, c: bool)
    requires
        r.len() <= usize::MAX,
    ensures
        forall|k: int| 0 <= k < merge_order(r, t, c).len() ==> sound_edge(r, t, c, #[trigger] merge_order(r, t, c)[k]),
        forall|q1: int, q2: int|
            0 <= q1 < q2 < merge_order(r, t, c).len() ==> (#[trigger] merge_order(r, t, c)[q1]).0 <= (
            #[trigger] merge_order(r, t, c)[q2]).0,
{
    let s = near_pairs(r, t, c);
    lemma_pairs_before_sound(r, t, c, r.len() as int);
    lemma_by_distance_sorted(s, 65);
    let m = merge_order(r, t, c);
    assert forall|k: int| 0 <= k < m.len() implies sound_edge(r, t, c, #[trigger] m[k]) by {
        assert(s.contains(m[k]));
        let j = choose|j: int| 0 <= j < s.len() && s[j] == m[k];
        assert(sound_edge(r, t, c, s[j]));
    }
}

/// Candidate merges are considered nearest first: the merge order lists
/// every near pair `i < j` of the run, each with its pHash distance, and
/// nothing else, in nondecreasing distance.
pub proof fn law_merge_order_nearest_first(r: Seq<ImageRecord>, t: u32, c: bool)
    requires
        r.len() <= usize::MAX,
    ensures
        forall|q1: int, q2: int|
            0 <= q1 < q2 < merge_order(r, t, c).len() ==> (#[trigger] merge_order(r, t, c)[q1]).0 <= (
            #[trigger] merge_order(r, t, c)[q2]).0,
        forall|k: int|
            0 <= k < merge_order(r, t, c).len() ==> {
                let e = #[trigger] merge_order(r, t, c)[k];
                &&& e.1 < e.2 < r.len()
                &&& hashes_near(r[e.1 as int], r[e.2 as int], t, c)
                &&& e.0 as int == phash_distance(r[e.1 as int], r[e.2 as int])
            },
        forall|i: int, j: int|
            0 <= i < j < r.len() && hashes_near(r[i], r[j], t, c) ==> exists|k: int|
                0 <= k < merge_order(r, t, c).len() && (#[trigger] merge_order(r, t, c)[k]).1 == i && merge_order(
                    r,
                    t,
                    c,
                )[k].2 == j,
{
    lemma_merge_order_sound(r, t, c);
    let m = merge_order(r, t, c);
    assert forall|k: int| 0 <= k < m.len() implies {
        let e = #[trigger] m[k];
        &&& e.1 < e.2 < r.len()
        &&& hashes_near(r[e.1 as int], r[e.2 as int], t, c)
        &&& e.0 as int == phash_distance(r[e.1 as int], r[e.2 as int])
    } by {
        assert(sound_edge(r, t, c, m[k]));
        lemma_popcount_small(r[m[k].1 as int].phash.unwrap() ^ r[m[k].2 as int].phash.unwrap());
    }
    assert forall|i: int, j: int| 0 <= i < j < r.len() && hashes_near(r[i], r[j], t, c) implies exists|k: int|
        0 <= k < m.len() && (#[trigger] m[k]).1 == i && m[k].2 == j by {
        let e = edge_of(r, i, j);
        lemma_popcount_small(r[i].phash.unwrap() ^ r[j].phash.unwrap());
        lemma_pairs_before_has(r, t, c, i, j, r.len() as int);
        lemma_by_distance_has(near_pairs(r, t, c), 65, e);
        let k = choose|k: int| 0 <= k < m.len() && m[k] == e;
        assert(m[k].1 == i && m[k].2 == j);
    }
}

/// No record other than `a` is in `a`'s class.
spec fn alone(lab: Seq<int>, a: int) -> bool {
    forall|x: int| 0 <= x < lab.len() && x != a ==> #[trigger] lab[x] != lab[a]
}

/// Every other near-duplicate of `a` or of `b` is strictly farther than `a` is from `b`.
spec fn nearest_to_each_other(r: Seq<ImageRecord>, t: u32, c: bool, a: int, b: int) -> bool {
    &&& forall|x: int|
        0 <= x < r.len() && x != a && x != b && #[trigger] hashes_near(r[a], r[x], t, c) ==> phash_distance(r[a], r[x])
            > phash_distance(r[a], r[b])
    &&& forall|x: int|
        0 <= x < r.len() && x != a && x != b && #[trigger] hashes_near(r[b], r[x], t, c) ==> phash_distance(r[b], r[x])
            > phash_distance(r[a], r[b])
}

proof fn lemma_xor_distance_symmetric(x: ImageRecord, y: ImageRecord)
    ensures
        phash_distance(x, y) == phash_distance(y, x),
{
    let p = x.phash.unwrap();
    let q = y.phash.unwrap();
    assert(p ^ q == q ^ p) by (bit_vector);
}

proof fn lemma_pair_progress(r: Seq<ImageRecord>, t: u32, c: bool, a: int, b: int, k0: int, k: nat)
    requires
        r.len() <= usize::MAX,
        0 <= a < b < r.len(),
        hashes_near(r[a], r[b], t, c),
        nearest_to_each_other(r, t, c, a, b),
        forall|x: int| 0 <= x < r.len() && x != a ==> !same_content(r[x], #[trigger] r[a]),
        forall|x: int| 0 <= x < r.len() && x != b ==> !same_content(r[x], #[trigger] r[b]),
        0 <= k0 < merge_order(r, t, c).len(),
        merge_order(r, t, c)[k0] == edge_of(r, a, b),
        k <= k0 + 1,
    ensures
        merged(r, t, c, merge_order(r, t, c), k)[a] == merged(r, t, c, merge_order(r, t, c), k)[b] || (k <= k0
            && alone(merged(r, t, c, merge_order(r, t, c), k), a) && alone(
            merged(r, t, c, merge_order(r, t, c), k),
            b,
        )),
    decreases k,
{
    let es = merge_order(r, t, c);
    lemma_merge_order_in_range(r, t, c);
    lemma_merged_len(r, t, c, es, k);
    if k == 0 {
        let lab = content_labels(r);
        assert forall|x: int| 0 <= x < lab.len() && x != a implies #[trigger] lab[x] != lab[a] by {
            lemma_content_labels(r, x, a);
        }
        assert forall|x: int| 0 <= x < lab.len() && x != b implies #[trigger] lab[x] != lab[b] by {
            lemma_content_labels(r, x, b);
        }
    } else {
        let k1 = (k - 1) as nat;
        lemma_pair_progress(r, t, c, a, b, k0, k1);
        lemma_merged_len(r, t, c, es, k1);
        let lab = merged(r, t, c, es, k1);
        let next = merged(r, t, c, es, k);
        let e = es[k1 as int];
        assert(next == merge_step(r, t, c, lab, e));
        if lab[a] == lab[b] {
            lemma_merged_coarsens(r, t, c, es, k1, k, a, b);
        } else {
            lemma_merge_order_sound(r, t, c);
            assert(sound_edge(r, t, c, e));
            let u = e.1 as int;
            let v = e.2 as int;
            if u == a && v == b {
                assert forall|x: int, y: int|
                    0 <= x < lab.len() && 0 <= y < lab.len() && #[trigger] lab[x] == lab[a] && #[trigger] lab[y]
                        == lab[b] implies hashes_near(r[x], r[y], t, c) by {
                    assert(x == a && y == b);
                }
                assert(classes_near(r, t, c, lab, a, b));
                lemma_relabel(lab, a, b, a, b);
            } else if u == a || v == a || u == b || v == b {
                let ab = edge_of(r, a, b);
                if k1 < k0 {
                    assert(es[k1 as int].0 <= es[k0].0);
                }
                lemma_popcount_small(r[a].phash.unwrap() ^ r[b].phash.unwrap());
                lemma_popcount_small(r[u].phash.unwrap() ^ r[v].phash.unwrap());
                assert(phash_distance(r[u], r[v]) <= phash_distance(r[a], r[b]));
                if u == a {
                    assert(hashes_near(r[a], r[v], t, c));
                } else if v == a {
                    lemma_near_symmetric(r[u], r[a], t, c);
                    lemma_xor_distance_symmetric(r[u], r[a]);
                    assert(hashes_near(r[a], r[u], t, c));
                } else if u == b {
                    assert(hashes_near(r[b], r[v], t, c));
                } else {
                    lemma_near_symmetric(r[u], r[b], t, c);
                    lemma_xor_distance_symmetric(r[u], r[b]);
                    assert(hashes_near(r[b], r[u], t, c));
                }
            } else {
                if lab[u] != lab[v] && classes_near(r, t, c, lab, u, v) {
                    assert(next == relabel(lab, u, v));
                    assert forall|x: int| 0 <= x < next.len() && x != a implies #[trigger] next[x] != next[a] by {
                        lemma_relabel(lab, u, v, x, a);
                    }
                    assert forall|x: int| 0 <= x < next.len() && x != b implies #[trigger] next[x] != next[b] by {
                        lemma_relabel(lab, u, v, x, b);
                    }
                    lemma_relabel(lab, u, v, a, b);
                } else {
                    assert(next == lab);
                }
            }
        }
    }
}

/// Records that share a final class are grouped together.
proof fn lemma_same_class_grouped(r: Seq<ImageRecord>, t: u32, c: bool, x: int, y: int)
    requires
        r.len() <= usize::MAX,
        0 <= x < r.len(),
        0 <= y < r.len(),
        x != y,
        final_labels(r, t, c)[x] == final_labels(r, t, c)[y],
    ensures
        exists|g: int, k: int, l: int|
            0 <= g < duplicate_groups(r, t, c).len() && 0 <= k < duplicate_groups(r, t, c)[g].len() && 0 <= l
                < duplicate_groups(r, t, c)[g].len() && #[trigger] duplicate_groups(r, t, c)[g][k] == x as usize
                && #[trigger] duplicate_groups(r, t, c)[g][l] == y as usize,
{
    let lab = final_labels(r, t, c);
    let n = r.len() as int;
    lemma_final_sound(r, t, c);
    lemma_first_in_class(lab, x, 0);
    let ld = first_in_class(lab, x, 0);
    assert(is_leader(lab, ld));
    lemma_class_upto(lab, ld, n);
    let cls = class_upto(lab, ld, n);
    assert(cls.contains(x as usize));
    assert(cls.contains(y as usize));
    let k = choose|k: int| 0 <= k < cls.len() && cls[k] == x as usize;
    let l = choose|l: int| 0 <= l < cls.len() && cls[l] == y as usize;
    assert(k != l);
    assert(cls.len() >= 2);
    lemma_leader_grouped(lab, ld, n);
    let g = choose|g: int| 0 <= g < groups_upto(lab, n).len() && #[trigger] groups_upto(lab, n)[g] == cls;
    assert(duplicate_groups(r, t, c)[g][k] == x as usize);
    assert(duplicate_groups(r, t, c)[g][l] == y as usize);
}

/// Nearest pairs merge first: two near-duplicates `a` and `b` that hold no
/// bytes in common with any other record, and that are each nearer to the
/// other than to any other near-duplicate, always end in the same group,
/// whatever farther matches the rest of the run offers.
pub proof fn law_mutually_nearest_pair_grouped(r: Seq<ImageRecord>, t: u32, c: bool, a: int, b: int)
    requires
        r.len() <= usize::MAX,
        0 <= a < r.len(),
        0 <= b < r.len(),
        a != b,
        hashes_near(r[a], r[b], t, c),
        forall|x: int| 0 <= x < r.len() && x != a ==> !same_content(r[x], #[trigger] r[a]),
        forall|x: int| 0 <= x < r.len() && x != b ==> !same_content(r[x], #[trigger] r[b]),
        forall|x: int|
            0 <= x < r.len() && x != a && x != b && #[trigger] hashes_near(r[a], r[x], t, c) ==> phash_distance(
                r[a],
                r[x],
            ) > phash_distance(r[a], r[b]),
        forall|x: int|
            0 <= x < r.len() && x != a && x != b && #[trigger] hashes_near(r[b], r[x], t, c) ==> phash_distance(
                r[b],
                r[x],
            ) > phash_distance(r[a], r[b]),
    ensures
        exists|g: int, k: int, l: int|
            0 <= g < duplicate_groups(r, t, c).len() && 0 <= k < duplicate_groups(r, t, c)[g].len() && 0 <= l
                < duplicate_groups(r, t, c)[g].len() && #[trigger] duplicate_groups(r, t, c)[g][k] == a as usize
                && #[trigger] duplicate_groups(r, t, c)[g][l] == b as usize,
{
    let lo = if a < b { a } else { b };
    let hi = if a < b { b } else { a };
    lemma_near_symmetric(r[a], r[b], t, c);
    lemma_xor_distance_symmetric(r[a], r[b]);
    assert(hashes_near(r[lo], r[hi], t, c));
    assert(nearest_to_each_other(r, t, c, lo, hi));
    let es = merge_order(r, t, c);
    lemma_merge_order_in_range(r, t, c);
    let e = edge_of(r, lo, hi);
    lemma_popcount_small(r[lo].phash.unwrap() ^ r[hi].phash.unwrap());
    lemma_pairs_before_has(r, t, c, lo, hi, r.len() as int);
    lemma_by_distance_has(near_pairs(r, t, c), 65, e);
    let k0 = choose|k: int| 0 <= k < es.len() && es[k] == e;
    lemma_pair_progress(r, t, c, lo, hi, k0, (k0 + 1) as nat);
    lemma_merged_coarsens(r, t, c, es, (k0 + 1) as nat, es.len(), lo, hi);
    lemma_same_class_grouped(r, t, c, a, b);
}

} // verus!
