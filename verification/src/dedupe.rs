//! Duplicate clustering: exact content matches first, then perceptual
//! near-duplicates merged nearest-first under complete linkage.

use vstd::prelude::*;
use crate::union_find::UnionFind;

verus! {

/// Number of set bits of `x`.
pub open spec fn popcount(x: u64) -> nat
    decreases x,
{
    if x == 0 {
        0
    } else {
        (x % 2) as nat + popcount(x / 2)
    }
}

/// Hamming distance between two 64-bit hashes: the number of differing bits.
pub fn hamming(a: u64, b: u64) -> (d: u32)
    ensures
        d as nat == popcount(a ^ b),
        d <= 64,
{
    let x = a ^ b;
    let mut v: u64 = x;
    let mut count: u32 = 0;
    let mut i: u32 = 0;
    proof {
        assert(x >> 0u32 == x) by (bit_vector);
    }
    while i < 64
        invariant
            i <= 64,
            count <= i,
            count + popcount(v) == popcount(x),
            v == x >> i,
        decreases 64 - i,
    {
        proof {
            assert(v & 1 == v % 2) by (bit_vector);
            assert(v >> 1u32 == v / 2) by (bit_vector);
            assert((x >> i) >> 1u32 == x >> ((i + 1) as u32)) by (bit_vector)
                requires
                    i < 64,
            ;
            assert(popcount(v) == (v % 2) as nat + popcount(v / 2));
        }
        count = count + (v & 1) as u32;
        v = v >> 1u32;
        i = i + 1;
    }
    proof {
        assert(x >> 64u32 == 0) by (bit_vector);
    }
    count
}

/// What the clustering needs to know about one discovered image.
#[derive(Debug, Clone)]
pub struct ImageRecord {
    pub path: String,
    pub blake3: String,
    pub phash: Option<u64>,
    pub dhash: Option<u64>,
    pub preview_w: u32,
    pub preview_h: u32,
    pub size: u64,
    pub is_raw_or_dng: bool,
}

/// Two images have byte-identical content.
pub open spec fn same_content(r: ImageRecord, s: ImageRecord) -> bool {
    r.blake3@ == s.blake3@
}

/// Two images are perceptual near-duplicates: both have a pHash within the
/// threshold and, when confirmation is on and both have a dHash, the dHash
/// distance is within the threshold plus a small exposure allowance.
pub open spec fn hashes_near(r: ImageRecord, s: ImageRecord, threshold: u32, confirm: bool) -> bool {
    match (r.phash, s.phash) {
        (Some(ha), Some(hb)) => {
            &&& popcount(ha ^ hb) <= threshold
            &&& (confirm ==> match (r.dhash, s.dhash) {
                (Some(da), Some(db)) => popcount(da ^ db) <= threshold + 4,
                _ => true,
            })
        },
        _ => false,
    }
}

/// Whether records `ia` and `ib` are perceptual near-duplicates.
pub fn pair_is_near(
    records: &[ImageRecord],
    ia: usize,
    ib: usize,
    hamming_threshold: u32,
    confirm_dhash: bool,
) -> (near: bool)
    requires
        ia < records@.len(),
        ib < records@.len(),
    ensures
        near == hashes_near(records@[ia as int], records@[ib as int], hamming_threshold, confirm_dhash),
{
    let (ha, hb) = match (records[ia].phash, records[ib].phash) {
        (Some(ha), Some(hb)) => (ha, hb),
        _ => {
            return false;
        },
    };
    if hamming(ha, hb) > hamming_threshold {
        return false;
    }
    if confirm_dhash {
        if let (Some(da), Some(db)) = (records[ia].dhash, records[ib].dhash) {
            if hamming(da, db) as u64 > hamming_threshold as u64 + 4 {
                return false;
            }
        }
    }
    true
}


/// A candidate merge: the pHash distance and the two record indices.
pub type Edge = (u32, usize, usize);

/// The candidate merge for records `i` and `j`.
pub open spec fn edge_of(r: Seq<ImageRecord>, i: int, j: int) -> Edge {
    (popcount(r[i].phash.unwrap() ^ r[j].phash.unwrap()) as u32, i as usize, j as usize)
}

/// Near pairs `(i, j)` with `i < j < hi`, in increasing `j`.
pub open spec fn row_pairs(r: Seq<ImageRecord>, t: u32, c: bool, i: int, hi: int) -> Seq<Edge>
    decreases hi - i,
{
    if hi <= i + 1 {
        Seq::empty()
    } else {
        row_pairs(r, t, c, i, hi - 1) + if hashes_near(r[i], r[hi - 1], t, c) {
            seq![edge_of(r, i, hi - 1)]
        } else {
            Seq::empty()
        }
    }
}

/// Near pairs whose first index is below `i`, in lexicographic order.
pub open spec fn pairs_before(r: Seq<ImageRecord>, t: u32, c: bool, i: int) -> Seq<Edge>
    decreases i,
{
    if i <= 0 {
        Seq::empty()
    } else {
        pairs_before(r, t, c, i - 1) + row_pairs(r, t, c, i - 1, r.len() as int)
    }
}

/// Every near-duplicate pair, in lexicographic index order.
pub open spec fn near_pairs(r: Seq<ImageRecord>, t: u32, c: bool) -> Seq<Edge> {
    pairs_before(r, t, c, r.len() as int)
}

/// The edges of `s` at distance `d`, keeping their order.
pub open spec fn at_distance(s: Seq<Edge>, d: u32) -> Seq<Edge>
    decreases s.len(),
{
    if s.len() == 0 {
        Seq::empty()
    } else {
        at_distance(s.drop_last(), d) + if s.last().0 == d {
            seq![s.last()]
        } else {
            Seq::empty()
        }
    }
}

/// The edges of `s` with distance below `k`, ordered by distance and then by
/// their order in `s`.
pub open spec fn by_distance(s: Seq<Edge>, k: nat) -> Seq<Edge>
    decreases k,
{
    if k == 0 {
        Seq::empty()
    } else {
        by_distance(s, (k - 1) as nat) + at_distance(s, (k - 1) as u32)
    }
}

/// Every near pair, nearest first, ties broken by index order.
pub open spec fn merge_order(r: Seq<ImageRecord>, t: u32, c: bool) -> Seq<Edge> {
    by_distance(near_pairs(r, t, c), 65)
}

/// The first index at or after `j` (and not after `i`) whose content equals record `i`'s.
pub open spec fn first_same_from(r: Seq<ImageRecord>, i: int, j: int) -> int
    decreases i - j,
{
    if j >= i {
        i
    } else if same_content(r[j], r[i]) {
        j
    } else {
        first_same_from(r, i, j + 1)
    }
}

/// Labels of the exact-content partition: each record is labelled with the
/// first record holding the same bytes.
pub open spec fn content_labels(r: Seq<ImageRecord>) -> Seq<int> {
    Seq::new(r.len(), |i: int| first_same_from(r, i, 0))
}

/// Every member of `a`'s class is near every member of `b`'s class.
pub open spec fn classes_near(
    r: Seq<ImageRecord>,
    t: u32,
    c: bool,
    lab: Seq<int>,
    a: int,
    b: int,
) -> bool {
    forall|x: int, y: int|
        0 <= x < lab.len() && 0 <= y < lab.len() && #[trigger] lab[x] == lab[a] && #[trigger] lab[y]
            == lab[b] ==> hashes_near(r[x], r[y], t, c)
}

/// `b`'s class relabelled into `a`'s.
pub open spec fn relabel(lab: Seq<int>, a: int, b: int) -> Seq<int> {
    Seq::new(lab.len(), |k: int| if lab[k] == lab[b] { lab[a] } else { lab[k] })
}

/// One complete-linkage step: the classes of the edge's ends merge when they
/// differ and every cross pair is near.
pub open spec fn merge_step(r: Seq<ImageRecord>, t: u32, c: bool, lab: Seq<int>, e: Edge) -> Seq<int> {
    let a = e.1 as int;
    let b = e.2 as int;
    if lab[a] != lab[b] && classes_near(r, t, c, lab, a, b) {
        relabel(lab, a, b)
    } else {
        lab
    }
}

/// The partition after the first `k` edges of `es` have been considered.
pub open spec fn merged(r: Seq<ImageRecord>, t: u32, c: bool, es: Seq<Edge>, k: nat) -> Seq<int>
    decreases k,
{
    if k == 0 {
        content_labels(r)
    } else {
        merge_step(r, t, c, merged(r, t, c, es, (k - 1) as nat), es[k - 1])
    }
}

/// The final partition of the records.
pub open spec fn final_labels(r: Seq<ImageRecord>, t: u32, c: bool) -> Seq<int> {
    merged(r, t, c, merge_order(r, t, c), merge_order(r, t, c).len())
}

/// Indices below `m` that share `x`'s class, increasing.
pub open spec fn class_upto(lab: Seq<int>, x: int, m: int) -> Seq<usize>
    decreases m,
{
    if m <= 0 {
        Seq::empty()
    } else {
        class_upto(lab, x, m - 1) + if lab[m - 1] == lab[x] {
            seq![(m - 1) as usize]
        } else {
            Seq::empty()
        }
    }
}

/// `x` is the smallest index of its class.
pub open spec fn is_leader(lab: Seq<int>, x: int) -> bool {
    forall|j: int| 0 <= j < x ==> lab[j] != lab[x]
}

/// The classes of size two or more whose smallest index is below `m`,
/// ordered by smallest index.
pub open spec fn groups_upto(lab: Seq<int>, m: int) -> Seq<Seq<usize>>
    decreases m,
{
    if m <= 0 {
        Seq::empty()
    } else {
        groups_upto(lab, m - 1) + if is_leader(lab, m - 1) && class_upto(
            lab,
            m - 1,
            lab.len() as int,
        ).len() >= 2 {
            seq![class_upto(lab, m - 1, lab.len() as int)]
        } else {
            Seq::empty()
        }
    }
}

/// The duplicate groups of a run.
pub open spec fn duplicate_groups(r: Seq<ImageRecord>, t: u32, c: bool) -> Seq<Seq<usize>> {
    groups_upto(final_labels(r, t, c), r.len() as int)
}


/// Every near-duplicate pair with its pHash distance, in index order.
fn collect_near_pairs(records: &[ImageRecord], hamming_threshold: u32, confirm_dhash: bool) -> (pairs: Vec<Edge>)
    ensures
        pairs@ == near_pairs(records@, hamming_threshold, confirm_dhash),
{
    let n = records.len();
    let ghost r = records@;
    let mut pairs: Vec<Edge> = Vec::new();
    let mut i: usize = 0;
    while i < n
        invariant
            n == r.len(),
            r == records@,
            i <= n,
            pairs@ == pairs_before(r, hamming_threshold, confirm_dhash, i as int),
        decreases n - i,
    {
        let ghost before = pairs@;
        let mut j: usize = i + 1;
        while j < n
            invariant
                n == r.len(),
                r == records@,
                i < n,
                i + 1 <= j <= n,
                pairs@ == before + row_pairs(r, hamming_threshold, confirm_dhash, i as int, j as int),
            decreases n - j,
        {
            if pair_is_near(records, i, j, hamming_threshold, confirm_dhash) {
                let d = match (records[i].phash, records[j].phash) {
                    (Some(ha), Some(hb)) => hamming(ha, hb),
                    _ => 0,
                };
                pairs.push((d, i, j));
            }
            proof {
                assert(row_pairs(r, hamming_threshold, confirm_dhash, i as int, j + 1) == row_pairs(
                    r,
                    hamming_threshold,
                    confirm_dhash,
                    i as int,
                    j as int,
                ) + if hashes_near(r[i as int], r[j as int], hamming_threshold, confirm_dhash) {
                    seq![edge_of(r, i as int, j as int)]
                } else {
                    Seq::<Edge>::empty()
                });
            }
            j = j + 1;
        }
        i = i + 1;
    }
    pairs
}

/// The edges of `pairs` ordered nearest first; equal distances keep their order.
fn order_by_distance(pairs: &Vec<Edge>) -> (order: Vec<Edge>)
    ensures
        order@ == by_distance(pairs@, 65),
{
    let mut order: Vec<Edge> = Vec::new();
    let mut d: u32 = 0;
    while d < 65
        invariant
            d <= 65,
            order@ == by_distance(pairs@, d as nat),
        decreases 65 - d,
    {
        let ghost before = order@;
        let mut k: usize = 0;
        while k < pairs.len()
            invariant
                d < 65,
                k <= pairs@.len(),
                order@ == before + at_distance(pairs@.take(k as int), d),
            decreases pairs.len() - k,
        {
            let e = pairs[k];
            if e.0 == d {
                order.push(e);
            }
            proof {
                let s = pairs@.take(k + 1);
                assert(s.drop_last() == pairs@.take(k as int));
                assert(s.last() == e);
            }
            k = k + 1;
        }
        proof {
            assert(pairs@.take(pairs@.len() as int) == pairs@);
        }
        d = d + 1;
    }
    order
}


/// Complete-linkage test: `ia` and `ib` already share a cluster, or every
/// member of one cluster is near every member of the other.
#[verifier::loop_isolation(false)]
fn clusters_within_threshold(
    uf: &mut UnionFind,
    records: &[ImageRecord],
    n: usize,
    ia: usize,
    ib: usize,
    hamming_threshold: u32,
    confirm_dhash: bool,
) -> (ok: bool)
    requires
        old(uf).wf(),
        old(uf).len() == n,
        n == records@.len(),
        ia < n,
        ib < n,
    ensures
        final(uf).wf(),
        final(uf).len() == n,
        forall|y: int| 0 <= y < n ==> #[trigger] final(uf).root_of(y) == old(uf).root_of(y),
        ok == (old(uf).root_of(ia as int) == old(uf).root_of(ib as int) || forall|x: int, y: int|
            0 <= x < n && 0 <= y < n && #[trigger] old(uf).root_of(x) == old(uf).root_of(ia as int)
                && #[trigger] old(uf).root_of(y) == old(uf).root_of(ib as int) ==> hashes_near(
                records@[x],
                records@[y],
                hamming_threshold,
                confirm_dhash,
            )),
{
    let ghost u0 = *uf;
    let ra = uf.find(ia);
    let ghost u1 = *uf;
    let rb = uf.find(ib);
    let ghost u2 = *uf;
    if ra == rb {
        assert forall|y: int| 0 <= y < n implies #[trigger] uf.root_of(y) == u0.root_of(y) by {
            assert(u2.root_of(y) == u1.root_of(y));
        }
        return true;
    }
    let a_members = uf.members_of(n, ia);
    let ghost u3 = *uf;
    let b_members = uf.members_of(n, ib);
    let ghost u4 = *uf;
    assert forall|y: int| 0 <= y < n implies #[trigger] uf.root_of(y) == u0.root_of(y) by {
        assert(u4.root_of(y) == u3.root_of(y));
        assert(u3.root_of(y) == u2.root_of(y));
        assert(u2.root_of(y) == u1.root_of(y));
    }
    assert forall|y: int| 0 <= y < n implies (a_members@.contains(y as usize) <==> #[trigger] u0.root_of(y)
        == u0.root_of(ia as int)) by {
        assert(u2.root_of(y) == u1.root_of(y));
        assert(u2.root_of(ia as int) == u1.root_of(ia as int));
    }
    assert forall|y: int| 0 <= y < n implies (b_members@.contains(y as usize) <==> #[trigger] u0.root_of(y)
        == u0.root_of(ib as int)) by {
        assert(u3.root_of(y) == u2.root_of(y));
        assert(u3.root_of(ib as int) == u2.root_of(ib as int));
        assert(u2.root_of(y) == u1.root_of(y));
        assert(u2.root_of(ib as int) == u1.root_of(ib as int));
    }
    let mut p: usize = 0;
    while p < a_members.len()
        invariant
            n == records@.len(),
            p <= a_members@.len(),
            forall|k: int| 0 <= k < a_members@.len() ==> (#[trigger] a_members@[k]) < n,
            forall|k: int| 0 <= k < b_members@.len() ==> (#[trigger] b_members@[k]) < n,
            forall|y: int| 0 <= y < n ==> (a_members@.contains(y as usize) <==> #[trigger] u0.root_of(y)
                == u0.root_of(ia as int)),
            forall|y: int| 0 <= y < n ==> (b_members@.contains(y as usize) <==> #[trigger] u0.root_of(y)
                == u0.root_of(ib as int)),
            forall|k: int, l: int|
                0 <= k < p && 0 <= l < b_members@.len() ==> hashes_near(
                    records@[a_members@[k] as int],
                    records@[b_members@[l] as int],
                    hamming_threshold,
                    confirm_dhash,
                ),
        decreases a_members.len() - p,
    {
        let mut q: usize = 0;
        while q < b_members.len()
            invariant
                n == records@.len(),
                p < a_members@.len(),
                q <= b_members@.len(),
                forall|k: int| 0 <= k < a_members@.len() ==> (#[trigger] a_members@[k]) < n,
                forall|k: int| 0 <= k < b_members@.len() ==> (#[trigger] b_members@[k]) < n,
                forall|y: int| 0 <= y < n ==> (a_members@.contains(y as usize) <==> #[trigger] u0.root_of(y)
                    == u0.root_of(ia as int)),
                forall|y: int| 0 <= y < n ==> (b_members@.contains(y as usize) <==> #[trigger] u0.root_of(y)
                    == u0.root_of(ib as int)),
            forall|y: int| 0 <= y < n ==> (a_members@.contains(y as usize) <==> #[trigger] u0.root_of(y)
                == u0.root_of(ia as int)),
            forall|y: int| 0 <= y < n ==> (b_members@.contains(y as usize) <==> #[trigger] u0.root_of(y)
                == u0.root_of(ib as int)),
                forall|k: int, l: int|
                    0 <= k < p && 0 <= l < b_members@.len() ==> hashes_near(
                        records@[a_members@[k] as int],
                        records@[b_members@[l] as int],
                        hamming_threshold,
                        confirm_dhash,
                    ),
                forall|l: int|
                    0 <= l < q ==> hashes_near(
                        records@[a_members@[p as int] as int],
                        records@[b_members@[l] as int],
                        hamming_threshold,
                        confirm_dhash,
                    ),
            decreases b_members.len() - q,
        {
            if !pair_is_near(records, a_members[p], b_members[q], hamming_threshold, confirm_dhash) {
                proof {
                    let x = a_members@[p as int] as int;
                    let y = b_members@[q as int] as int;
                    assert(a_members@.contains(x as usize));
                    assert(b_members@.contains(y as usize));
                    assert(u0.root_of(x) == u0.root_of(ia as int));
                    assert(u0.root_of(y) == u0.root_of(ib as int));
                }
                return false;
            }
            q = q + 1;
        }
        p = p + 1;
    }
    proof {
        assert forall|x: int, y: int|
            0 <= x < n && 0 <= y < n && #[trigger] u0.root_of(x) == u0.root_of(ia as int)
                && #[trigger] u0.root_of(y) == u0.root_of(ib as int) implies hashes_near(
            records@[x],
            records@[y],
            hamming_threshold,
            confirm_dhash,
        ) by {
            assert(a_members@.contains(x as usize));
            assert(b_members@.contains(y as usize));
            let k = choose|k: int| 0 <= k < a_members@.len() && a_members@[k] == x as usize;
            let l = choose|l: int| 0 <= l < b_members@.len() && b_members@[l] == y as usize;
            assert(hashes_near(
                records@[a_members@[k] as int],
                records@[b_members@[l] as int],
                hamming_threshold,
                confirm_dhash,
            ));
        }
    }
    true
}


/// `first_same_from` finds the first matching index of the range.
pub proof fn lemma_first_same(r: Seq<ImageRecord>, i: int, j: int)
    requires
        0 <= j <= i < r.len(),
    ensures
        j <= first_same_from(r, i, j) <= i,
        same_content(r[first_same_from(r, i, j)], r[i]),
        forall|l: int| j <= l < first_same_from(r, i, j) ==> !same_content(r[l], r[i]),
    decreases i - j,
{
    if j < i && !same_content(r[j], r[i]) {
        lemma_first_same(r, i, j + 1);
    }
}

/// Content labels agree exactly when the contents agree.
pub proof fn lemma_content_labels(r: Seq<ImageRecord>, x: int, y: int)
    requires
        0 <= x < r.len(),
        0 <= y < r.len(),
    ensures
        content_labels(r)[x] == content_labels(r)[y] <==> same_content(r[x], r[y]),
{
    lemma_first_same(r, x, 0);
    lemma_first_same(r, y, 0);
    let kx = first_same_from(r, x, 0);
    let ky = first_same_from(r, y, 0);
    if same_content(r[x], r[y]) {
        if kx < ky {
            assert(same_content(r[kx], r[y]));
        }
        if ky < kx {
            assert(same_content(r[ky], r[x]));
        }
    }
}

/// Relabelling merges exactly the two classes.
pub proof fn lemma_relabel(lab: Seq<int>, a: int, b: int, x: int, y: int)
    requires
        0 <= a < lab.len(),
        0 <= b < lab.len(),
        0 <= x < lab.len(),
        0 <= y < lab.len(),
        lab[a] != lab[b],
    ensures
        relabel(lab, a, b).len() == lab.len(),
        (relabel(lab, a, b)[x] == relabel(lab, a, b)[y]) <==> (lab[x] == lab[y] || (lab[x] == lab[a]
            && lab[y] == lab[b]) || (lab[x] == lab[b] && lab[y] == lab[a])),
{
}

/// Every edge of `s` names two indices below `n`.
pub open spec fn edges_in_range(s: Seq<Edge>, n: int) -> bool {
    forall|k: int| 0 <= k < s.len() ==> (#[trigger] s[k]).1 < n && s[k].2 < n
}

proof fn lemma_row_pairs_in_range(r: Seq<ImageRecord>, t: u32, c: bool, i: int, hi: int)
    requires
        0 <= i,
        hi <= r.len(),
    ensures
        edges_in_range(row_pairs(r, t, c, i, hi), r.len() as int),
    decreases hi - i,
{
    if hi > i + 1 {
        lemma_row_pairs_in_range(r, t, c, i, hi - 1);
    }
}

proof fn lemma_pairs_before_in_range(r: Seq<ImageRecord>, t: u32, c: bool, i: int)
    requires
        i <= r.len(),
    ensures
        edges_in_range(pairs_before(r, t, c, i), r.len() as int),
    decreases i,
{
    if i > 0 {
        lemma_pairs_before_in_range(r, t, c, i - 1);
        lemma_row_pairs_in_range(r, t, c, i - 1, r.len() as int);
    }
}

proof fn lemma_at_distance_in_range(s: Seq<Edge>, d: u32, n: int)
    requires
        edges_in_range(s, n),
    ensures
        edges_in_range(at_distance(s, d), n),
    decreases s.len(),
{
    if s.len() > 0 {
        assert(edges_in_range(s.drop_last(), n));
        lemma_at_distance_in_range(s.drop_last(), d, n);
    }
}

proof fn lemma_by_distance_in_range(s: Seq<Edge>, k: nat, n: int)
    requires
        edges_in_range(s, n),
    ensures
        edges_in_range(by_distance(s, k), n),
    decreases k,
{
    if k > 0 {
        lemma_by_distance_in_range(s, (k - 1) as nat, n);
        lemma_at_distance_in_range(s, (k - 1) as u32, n);
    }
}

/// Every candidate merge names two records of the run.
pub proof fn lemma_merge_order_in_range(r: Seq<ImageRecord>, t: u32, c: bool)
    ensures
        edges_in_range(merge_order(r, t, c), r.len() as int),
{
    lemma_pairs_before_in_range(r, t, c, r.len() as int);
    lemma_by_distance_in_range(near_pairs(r, t, c), 65, r.len() as int);
}

/// The partition keeps one label per record.
pub proof fn lemma_merged_len(r: Seq<ImageRecord>, t: u32, c: bool, es: Seq<Edge>, k: nat)
    requires
        k <= es.len(),
        edges_in_range(es, r.len() as int),
    ensures
        merged(r, t, c, es, k).len() == r.len(),
    decreases k,
{
    if k > 0 {
        lemma_merged_len(r, t, c, es, (k - 1) as nat);
        let e = es[k - 1];
    }
}


/// `x` and `y` are the same record, or both come before `i` and hold the same bytes.
spec fn exact_so_far(r: Seq<ImageRecord>, i: int, x: int, y: int) -> bool {
    x == y || (x < i && y < i && same_content(r[x], r[y]))
}

/// Union every record with the first earlier record holding the same bytes.
/// Records are compared directly rather than bucketed in a map keyed by the
/// content hash: vstd gives a map keyed by text no usable contract, and the
/// unions made are the same either way (each class of identical content ends
/// up in one set).
fn link_exact_duplicates(uf: &mut UnionFind, records: &[ImageRecord])
    requires
        old(uf).wf(),
        old(uf).len() == records@.len(),
        forall|x: int| 0 <= x < records@.len() ==> #[trigger] old(uf).root_of(x) == x,
    ensures
        final(uf).wf(),
        final(uf).len() == records@.len(),
        forall|x: int, y: int|
            0 <= x < records@.len() && 0 <= y < records@.len() ==> (#[trigger] final(uf).root_of(x)
                == #[trigger] final(uf).root_of(y) <==> content_labels(records@)[x] == content_labels(
                records@,
            )[y]),
{
    let n = records.len();
    let ghost r = records@;
    let mut i: usize = 0;
    while i < n
        invariant
            n == r.len(),
            r == records@,
            i <= n,
            uf.wf(),
            uf.len() == n,
            forall|x: int, y: int|
                0 <= x < n && 0 <= y < n ==> (#[trigger] uf.root_of(x) == #[trigger] uf.root_of(y)
                    <==> exact_so_far(r, i as int, x, y)),
        decreases n - i,
    {
        let mut j: usize = 0;
        let mut found = false;
        while j < i && !found
            invariant
                n == r.len(),
                r == records@,
                i < n,
                j <= i,
                found ==> j < i && same_content(r[j as int], r[i as int]),
                !found ==> forall|l: int| 0 <= l < j ==> !same_content(r[l], r[i as int]),
            decreases i - j + (if found { 0int } else { 1int }),
        {
            if records[j].blake3 == records[i].blake3 {
                found = true;
            } else {
                j = j + 1;
            }
        }
        if found {
            let ghost u0 = *uf;
            uf.union(j, i);
            proof {
                assert forall|x: int, y: int|
                    0 <= x < n && 0 <= y < n implies (#[trigger] uf.root_of(x) == #[trigger] uf.root_of(y)
                    <==> exact_so_far(r, i + 1, x, y)) by {
                    assert(u0.root_of(x) == u0.root_of(j as int) <==> exact_so_far(r, i as int, x, j as int));
                    assert(u0.root_of(y) == u0.root_of(j as int) <==> exact_so_far(r, i as int, y, j as int));
                    assert(u0.root_of(x) == u0.root_of(i as int) <==> exact_so_far(r, i as int, x, i as int));
                    assert(u0.root_of(y) == u0.root_of(i as int) <==> exact_so_far(r, i as int, y, i as int));
                    assert(u0.root_of(x) == u0.root_of(y) <==> exact_so_far(r, i as int, x, y));
                }
            }
        } else {
            proof {
                assert forall|x: int, y: int|
                    0 <= x < n && 0 <= y < n implies (#[trigger] uf.root_of(x) == #[trigger] uf.root_of(y)
                    <==> exact_so_far(r, i + 1, x, y)) by {
                    if x == i && y < i && same_content(r[x], r[y]) {
                        assert(!same_content(r[y], r[i as int]));
                    }
                    if y == i && x < i && same_content(r[x], r[y]) {
                        assert(!same_content(r[x], r[i as int]));
                    }
                }
            }
        }
        i = i + 1;
    }
    proof {
        assert forall|x: int, y: int|
            0 <= x < n && 0 <= y < n implies (#[trigger] uf.root_of(x) == #[trigger] uf.root_of(y)
            <==> content_labels(r)[x] == content_labels(r)[y]) by {
            lemma_content_labels(r, x, y);
        }
    }
}


/// Consider the candidate merges in order, merging two clusters only when
/// complete linkage allows it.
#[verifier::loop_isolation(false)]
fn merge_near_duplicates(
    uf: &mut UnionFind,
    records: &[ImageRecord],
    order: &Vec<Edge>,
    hamming_threshold: u32,
    confirm_dhash: bool,
)
    requires
        old(uf).wf(),
        old(uf).len() == records@.len(),
        order@ == merge_order(records@, hamming_threshold, confirm_dhash),
        forall|x: int, y: int|
            0 <= x < records@.len() && 0 <= y < records@.len() ==> (#[trigger] old(uf).root_of(x)
                == #[trigger] old(uf).root_of(y) <==> content_labels(records@)[x] == content_labels(
                records@,
            )[y]),
    ensures
        final(uf).wf(),
        final(uf).len() == records@.len(),
        forall|x: int, y: int|
            0 <= x < records@.len() && 0 <= y < records@.len() ==> (#[trigger] final(uf).root_of(x)
                == #[trigger] final(uf).root_of(y) <==> final_labels(
                records@,
                hamming_threshold,
                confirm_dhash,
            )[x] == final_labels(records@, hamming_threshold, confirm_dhash)[y]),
{
    let n = records.len();
    let ghost r = records@;
    let ghost t = hamming_threshold;
    let ghost c = confirm_dhash;
    let ghost es = order@;
    proof {
        lemma_merge_order_in_range(r, t, c);
    }
    let mut k: usize = 0;
    while k < order.len()
        invariant
            k <= es.len(),
            uf.wf(),
            uf.len() == n,
            forall|x: int, y: int|
                0 <= x < n && 0 <= y < n ==> (#[trigger] uf.root_of(x) == #[trigger] uf.root_of(y)
                    <==> merged(r, t, c, es, k as nat)[x] == merged(r, t, c, es, k as nat)[y]),
        decreases es.len() - k,
    {
        let (_, ia, ib) = order[k];
        let ghost lab = merged(r, t, c, es, k as nat);
        proof {
            lemma_merged_len(r, t, c, es, k as nat);
            assert(es[k as int].1 < n && es[k as int].2 < n);
        }
        let ghost u0 = *uf;
        let ok = clusters_within_threshold(uf, records, n, ia, ib, hamming_threshold, confirm_dhash);
        let ghost u1 = *uf;
        proof {
            assert forall|x: int, y: int|
                0 <= x < n && 0 <= y < n implies (#[trigger] u1.root_of(x) == #[trigger] u1.root_of(y)
                <==> lab[x] == lab[y]) by {
                assert(u1.root_of(x) == u0.root_of(x));
                assert(u1.root_of(y) == u0.root_of(y));
            }
            let a = ia as int;
            let b = ib as int;
            assert(u0.root_of(a) == u0.root_of(b) <==> lab[a] == lab[b]);
            if lab[a] != lab[b] {
                assert(ok == classes_near(r, t, c, lab, a, b)) by {
                    if ok {
                        assert forall|x: int, y: int|
                            0 <= x < lab.len() && 0 <= y < lab.len() && #[trigger] lab[x] == lab[a]
                                && #[trigger] lab[y] == lab[b] implies hashes_near(r[x], r[y], t, c) by {
                            assert(u0.root_of(x) == u0.root_of(a));
                            assert(u0.root_of(y) == u0.root_of(b));
                        }
                    } else {
                        let (x, y) = choose|x: int, y: int|
                            0 <= x < n && 0 <= y < n && #[trigger] u0.root_of(x) == u0.root_of(a)
                                && #[trigger] u0.root_of(y) == u0.root_of(b) && !hashes_near(r[x], r[y], t, c);
                        assert(lab[x] == lab[a]);
                        assert(lab[y] == lab[b]);
                    }
                }
            }
        }
        if ok {
            uf.union(ia, ib);
            proof {
                let a = ia as int;
                let b = ib as int;
                assert forall|x: int, y: int|
                    0 <= x < n && 0 <= y < n implies (#[trigger] uf.root_of(x) == #[trigger] uf.root_of(y)
                    <==> merged(r, t, c, es, (k + 1) as nat)[x] == merged(r, t, c, es, (k + 1) as nat)[y]) by {
                    assert(merged(r, t, c, es, (k + 1) as nat) == merge_step(r, t, c, lab, es[k as int]));
                    assert(u1.root_of(x) == u1.root_of(a) <==> lab[x] == lab[a]);
                    assert(u1.root_of(y) == u1.root_of(a) <==> lab[y] == lab[a]);
                    assert(u1.root_of(x) == u1.root_of(b) <==> lab[x] == lab[b]);
                    assert(u1.root_of(y) == u1.root_of(b) <==> lab[y] == lab[b]);
                    assert(u1.root_of(x) == u1.root_of(y) <==> lab[x] == lab[y]);
                    if lab[a] != lab[b] {
                        lemma_relabel(lab, a, b, x, y);
                    }
                }
            }
        } else {
            proof {
                assert(merged(r, t, c, es, (k + 1) as nat) == merge_step(r, t, c, lab, es[k as int]));
            }
        }
        k = k + 1;
    }
}

/// Collect the classes of size two or more, ordered by smallest member.
/// Gathering them in a `HashMap` keyed by root would hand them out in the
/// map's walk order, which nothing specifies; scanning the records in order
/// gives one fixed order that the contracts and laws can name.
#[verifier::loop_isolation(false)]
fn groups_from_roots(roots: &Vec<usize>, lab: Ghost<Seq<int>>) -> (groups: Vec<Vec<usize>>)
    requires
        lab@.len() == roots@.len(),
        forall|x: int, y: int|
            0 <= x < roots@.len() && 0 <= y < roots@.len() ==> (#[trigger] roots@[x] == #[trigger] roots@[y]
                <==> lab@[x] == lab@[y]),
    ensures
        groups@.len() == groups_upto(lab@, roots@.len() as int).len(),
        forall|g: int| 0 <= g < groups@.len() ==> #[trigger] groups@[g]@ == groups_upto(lab@, roots@.len() as int)[g],
{
    let n = roots.len();
    let ghost l = lab@;
    let mut groups: Vec<Vec<usize>> = Vec::new();
    let mut i: usize = 0;
    while i < n
        invariant
            i <= n,
            groups@.len() == groups_upto(l, i as int).len(),
            forall|g: int| 0 <= g < groups@.len() ==> #[trigger] groups@[g]@ == groups_upto(l, i as int)[g],
        decreases n - i,
    {
        let ri = roots[i];
        let mut leader = true;
        let mut j: usize = 0;
        while j < i
            invariant
                j <= i,
                leader == forall|q: int| 0 <= q < j ==> l[q] != l[i as int],
            decreases i - j,
        {
            if roots[j] == ri {
                leader = false;
            }
            j = j + 1;
        }
        let ghost before = groups@;
        if leader {
            let mut members: Vec<usize> = Vec::new();
            let mut k: usize = 0;
            while k < n
                invariant
                    k <= n,
                    members@ == class_upto(l, i as int, k as int),
                decreases n - k,
            {
                if roots[k] == ri {
                    members.push(k);
                }
                k = k + 1;
            }
            if members.len() >= 2 {
                groups.push(members);
            }
        }
        proof {
            assert forall|g: int| 0 <= g < groups@.len() implies #[trigger] groups@[g]@ == groups_upto(
                l,
                i + 1,
            )[g] by {
                if g < before.len() {
                    assert(groups@[g] == before[g]);
                }
            }
        }
        i = i + 1;
    }
    groups
}

/// Cluster records into duplicate groups: identical content always groups;
/// perceptual near-duplicates are merged nearest pair first, and two
/// clusters merge only when every cross pair is near (complete linkage).
/// Groups of two or more are returned, each increasing, ordered by their
/// smallest member.
pub fn cluster_duplicates(
    records: &[ImageRecord],
    hamming_threshold: u32,
    confirm_dhash: bool,
) -> (groups: Vec<Vec<usize>>)
    ensures
        groups@.len() == duplicate_groups(records@, hamming_threshold, confirm_dhash).len(),
        forall|g: int|
            0 <= g < groups@.len() ==> #[trigger] groups@[g]@ == duplicate_groups(
                records@,
                hamming_threshold,
                confirm_dhash,
            )[g],
{
    let n = records.len();
    let ghost r = records@;
    let mut uf = UnionFind::new(n);
    link_exact_duplicates(&mut uf, records);
    let pairs = collect_near_pairs(records, hamming_threshold, confirm_dhash);
    let order = order_by_distance(&pairs);
    merge_near_duplicates(&mut uf, records, &order, hamming_threshold, confirm_dhash);
    let ghost lab = final_labels(r, hamming_threshold, confirm_dhash);
    proof {
        lemma_merge_order_in_range(r, hamming_threshold, confirm_dhash);
        lemma_merged_len(
            r,
            hamming_threshold,
            confirm_dhash,
            merge_order(r, hamming_threshold, confirm_dhash),
            merge_order(r, hamming_threshold, confirm_dhash).len(),
        );
    }
    let ghost u0 = uf;
    let mut roots: Vec<usize> = Vec::new();
    let mut i: usize = 0;
    while i < n
        invariant
            n == r.len(),
            r == records@,
            i <= n,
            uf.wf(),
            uf.len() == n,
            roots@.len() == i,
            forall|y: int| 0 <= y < n ==> #[trigger] uf.root_of(y) == u0.root_of(y),
            forall|k: int| 0 <= k < i ==> #[trigger] roots@[k] as int == u0.root_of(k),
        decreases n - i,
    {
        let root = uf.find(i);
        roots.push(root);
        i = i + 1;
    }
    proof {
        assert forall|x: int, y: int|
            0 <= x < n && 0 <= y < n implies (#[trigger] roots@[x] == #[trigger] roots@[y] <==> lab[x]
            == lab[y]) by {
            assert(roots@[x] as int == u0.root_of(x));
            assert(roots@[y] as int == u0.root_of(y));
        }
    }
    groups_from_roots(&roots, Ghost(lab))
}

} // verus!
