//! Disjoint-set forest with union by rank and path compression.
//!
//! Each element carries a ghost level that strictly increases towards the
//! root; it is what makes `find` terminate and is never read at run time.

use vstd::prelude::*;

verus! {

/// Every parent pointer stays in range and climbs strictly in level.
pub open spec fn ordered(p: Seq<usize>, lv: Seq<nat>, bound: nat) -> bool {
    &&& p.len() == lv.len()
    &&& forall|y: int|
        0 <= y < p.len() ==> {
            &&& (#[trigger] p[y]) < p.len()
            &&& lv[y] < bound
            &&& (p[y] != y ==> lv[y] < lv[p[y] as int])
        }
}

/// The representative reached by following parent pointers from `x`.
pub open spec fn root(p: Seq<usize>, lv: Seq<nat>, bound: nat, x: int) -> int
    decreases bound - lv[x],
    when 0 <= x < p.len() && ordered(p, lv, bound)
{
    if p[x] as int == x {
        x
    } else {
        proof {
            let z = p[x] as int;
            assert(p[z] < p.len());
        }
        root(p, lv, bound, p[x] as int)
    }
}

/// The root is in range, is its own parent, and sits no lower than `x`.
pub proof fn lemma_root_facts(p: Seq<usize>, lv: Seq<nat>, bound: nat, x: int)
    requires
        0 <= x < p.len(),
        ordered(p, lv, bound),
    ensures
        0 <= root(p, lv, bound, x) < p.len(),
        p[root(p, lv, bound, x)] as int == root(p, lv, bound, x),
        lv[x] <= lv[root(p, lv, bound, x)],
        p[x] as int != x ==> lv[x] < lv[root(p, lv, bound, x)],
        p[x] as int != x ==> root(p, lv, bound, x) == root(p, lv, bound, p[x] as int),
    decreases bound - lv[x],
{
    if p[x] as int != x {
        let z = p[x] as int;
        assert(p[z] < p.len());
        lemma_root_facts(p, lv, bound, z);
    }
}

/// Pointing `x` straight at its root leaves every root unchanged.
proof fn lemma_compress_keeps_roots(p: Seq<usize>, lv: Seq<nat>, bound: nat, x: int, y: int)
    requires
        0 <= x < p.len(),
        0 <= y < p.len(),
        ordered(p, lv, bound),
        ordered(p.update(x, root(p, lv, bound, x) as usize), lv, bound),
    ensures
        root(p.update(x, root(p, lv, bound, x) as usize), lv, bound, y) == root(p, lv, bound, y),
    decreases bound - lv[y],
{
    let q = p.update(x, root(p, lv, bound, x) as usize);
    lemma_root_facts(p, lv, bound, x);
    let r = root(p, lv, bound, x);
    if y == x {
        if p[x] as int != x {
            assert(q[r] == p[r]);
            assert(root(q, lv, bound, r) == r);
        }
    } else if p[y] as int != y {
        lemma_root_facts(p, lv, bound, y);
        lemma_compress_keeps_roots(p, lv, bound, x, p[y] as int);
    }
}

/// Hanging root `rb` below root `ra` sends every member of `rb`'s tree to `ra`.
proof fn lemma_link_roots(
    p: Seq<usize>,
    lv: Seq<nat>,
    bound: nat,
    lv2: Seq<nat>,
    bound2: nat,
    ra: int,
    rb: int,
    y: int,
)
    requires
        0 <= ra < p.len(),
        0 <= rb < p.len(),
        0 <= y < p.len(),
        ra != rb,
        p[ra] as int == ra,
        p[rb] as int == rb,
        ordered(p, lv, bound),
        ordered(p.update(rb, ra as usize), lv2, bound2),
        forall|z: int| 0 <= z < p.len() && z != ra ==> lv2[z] == lv[z],
        lv[ra] <= lv2[ra],
    ensures
        root(p.update(rb, ra as usize), lv2, bound2, y) == (if root(p, lv, bound, y) == rb {
            ra
        } else {
            root(p, lv, bound, y)
        }),
    decreases bound - lv[y],
{
    let q = p.update(rb, ra as usize);
    lemma_root_facts(p, lv, bound, y);
    if y == rb {
        assert(root(q, lv2, bound2, ra) == ra);
    } else if p[y] as int != y {
        lemma_link_roots(p, lv, bound, lv2, bound2, ra, rb, p[y] as int);
    }
}

pub struct UnionFind {
    parent: Vec<usize>,
    rank: Vec<u8>,
    level: Ghost<Seq<nat>>,
    bound: Ghost<nat>,
}

impl UnionFind {
    pub closed spec fn len(&self) -> nat {
        self.parent@.len()
    }

    pub closed spec fn wf(&self) -> bool {
        &&& self.rank@.len() == self.parent@.len()
        &&& ordered(self.parent@, self.level@, self.bound@)
    }

    /// `self` and `other` carry the same ghost levels.
    pub closed spec fn same_levels(&self, other: &Self) -> bool {
        self.level@ == other.level@ && self.bound@ == other.bound@
    }

    /// How far `x` can still climb towards the top level.
    pub closed spec fn climb(&self, x: int) -> int {
        self.bound@ - self.level@[x]
    }

    /// After merging the sets of `a` and `b`, `x` and `y` share a set.
    pub open spec fn joined(&self, x: int, y: int, a: int, b: int) -> bool {
        ||| self.root_of(x) == self.root_of(y)
        ||| (self.root_of(x) == self.root_of(a) && self.root_of(y) == self.root_of(b))
        ||| (self.root_of(x) == self.root_of(b) && self.root_of(y) == self.root_of(a))
    }

    /// The representative of `x`'s set.
    pub closed spec fn root_of(&self, x: int) -> int {
        root(self.parent@, self.level@, self.bound@, x)
    }

    pub proof fn lemma_root_in_range(&self, x: int)
        requires
            self.wf(),
            0 <= x < self.len(),
        ensures
            0 <= self.root_of(x) < self.len(),
            self.root_of(self.root_of(x)) == self.root_of(x),
    {
        lemma_root_facts(self.parent@, self.level@, self.bound@, x);
        let r = self.root_of(x);
        lemma_root_facts(self.parent@, self.level@, self.bound@, r);
    }

    /// `n` singleton sets.
    pub fn new(n: usize) -> (uf: Self)
        ensures
            uf.wf(),
            uf.len() == n,
            forall|x: int| 0 <= x < n ==> #[trigger] uf.root_of(x) == x,
    {
        let mut parent: Vec<usize> = Vec::new();
        let mut rank: Vec<u8> = Vec::new();
        let mut i: usize = 0;
        while i < n
            invariant
                i <= n,
                parent@.len() == i,
                rank@.len() == i,
                forall|k: int| 0 <= k < i ==> parent@[k] == k,
            decreases n - i,
        {
            parent.push(i);
            rank.push(0);
            i = i + 1;
        }
        let uf = UnionFind {
            parent,
            rank,
            level: Ghost(Seq::new(n as nat, |k: int| 0nat)),
            bound: Ghost(1nat),
        };
        assert forall|x: int| 0 <= x < n implies #[trigger] uf.root_of(x) == x by {}
        uf
    }

    /// The representative of `x`, compressing the path on the way.
    pub fn find(&mut self, x: usize) -> (r: usize)
        requires
            old(self).wf(),
            x < old(self).len(),
        ensures
            final(self).wf(),
            final(self).len() == old(self).len(),
            r == old(self).root_of(x as int),
            final(self).same_levels(old(self)),
            forall|y: int|
                0 <= y < old(self).len() ==> #[trigger] final(self).root_of(y) == old(self).root_of(y),
        decreases old(self).climb(x as int),
    {
        proof { lemma_root_facts(self.parent@, self.level@, self.bound@, x as int); }
        let p = self.parent[x];
        if p != x {
            let ghost before = *self;
            let r = self.find(p);
            let ghost mid = self.parent@;
            proof {
                assert(self.root_of(x as int) == before.root_of(x as int));
                lemma_root_facts(mid, self.level@, self.bound@, x as int);
                assert(root(mid, self.level@, self.bound@, x as int) == r);
            }
            let ghost midself = *self;
            self.parent.set(x, r);
            proof {
                assert(self.parent@ == mid.update(x as int, r));
                assert(ordered(self.parent@, self.level@, self.bound@));
                assert forall|y: int| 0 <= y < mid.len() implies #[trigger] self.root_of(y)
                    == before.root_of(y) by {
                    lemma_compress_keeps_roots(mid, self.level@, self.bound@, x as int, y);
                    assert(midself.root_of(y) == before.root_of(y));
                }
            }
            r
        } else {
            x
        }
    }

    /// Merge the sets of `a` and `b`.
    pub fn union(&mut self, a: usize, b: usize)
        requires
            old(self).wf(),
            a < old(self).len(),
            b < old(self).len(),
        ensures
            final(self).wf(),
            final(self).len() == old(self).len(),
            forall|x: int, y: int|
                0 <= x < old(self).len() && 0 <= y < old(self).len() ==> (#[trigger] final(self).root_of(x)
                    == #[trigger] final(self).root_of(y) <==> old(self).joined(x, y, a as int, b as int)),
    {
        let ghost orig = *self;
        let mut ra = self.find(a);
        let ghost s1 = *self;
        let mut rb = self.find(b);
        let ghost s2 = *self;
        assert forall|y: int| 0 <= y < orig.len() implies #[trigger] s2.root_of(y) == orig.root_of(y) by {
            assert(s2.root_of(y) == s1.root_of(y));
        }
        proof {
            orig.lemma_root_in_range(a as int);
            orig.lemma_root_in_range(b as int);
        }
        if ra == rb {
            return;
        }
        if self.rank[ra] < self.rank[rb] {
            let t = ra;
            ra = rb;
            rb = t;
        }
        let ghost p0 = self.parent@;
        let ghost lv0 = self.level@;
        let ghost b0 = self.bound@;
        proof {
            lemma_root_facts(p0, lv0, b0, a as int);
            lemma_root_facts(p0, lv0, b0, b as int);
            assert(self.root_of(a as int) == orig.root_of(a as int));
            assert(self.root_of(b as int) == orig.root_of(b as int));
            assert(p0[ra as int] == ra);
            assert(p0[rb as int] == rb);
        }
        let ghost new_level: nat = if lv0[ra as int] > lv0[rb as int] {
            lv0[ra as int]
        } else {
            lv0[rb as int] + 1
        };
        self.parent.set(rb, ra);
        if self.rank[ra] == self.rank[rb] {
            let bumped = self.rank[ra].saturating_add(1);
            self.rank.set(ra, bumped);
        }
        proof {
            self.level@ = lv0.update(ra as int, new_level);
            self.bound@ = if b0 > new_level {
                b0
            } else {
                new_level + 1
            };
            let q = self.parent@;
            assert(q == p0.update(rb as int, ra));
            assert forall|y: int| 0 <= y < q.len() implies {
                &&& (#[trigger] q[y]) < q.len()
                &&& self.level@[y] < self.bound@
                &&& (q[y] != y ==> self.level@[y] < self.level@[q[y] as int])
            } by {
                assert(p0[y] < p0.len());
                assert(lv0[y] < b0);
                if y != rb as int {
                    assert(q[y] == p0[y]);
                    if p0[y] as int != y {
                        assert(lv0[y] < lv0[p0[y] as int]);
                    }
                }
            }
            assert forall|y: int| 0 <= y < q.len() implies #[trigger] root(
                q,
                self.level@,
                self.bound@,
                y,
            ) == (if root(p0, lv0, b0, y) == rb as int {
                ra as int
            } else {
                root(p0, lv0, b0, y)
            }) by {
                lemma_link_roots(p0, lv0, b0, self.level@, self.bound@, ra as int, rb as int, y);
            }
            assert forall|x: int, y: int|
                0 <= x < orig.len() && 0 <= y < orig.len() implies (#[trigger] self.root_of(x)
                    == #[trigger] self.root_of(y) <==> orig.joined(x, y, a as int, b as int)) by {
                assert(s2.root_of(x) == orig.root_of(x));
                assert(s2.root_of(y) == orig.root_of(y));
                orig.lemma_root_in_range(x);
                orig.lemma_root_in_range(y);
            }
        }
    }

    /// Every index below `n` that shares `idx`'s set, in increasing order.
    pub fn members_of(&mut self, n: usize, idx: usize) -> (m: Vec<usize>)
        requires
            old(self).wf(),
            idx < old(self).len(),
            n <= old(self).len(),
        ensures
            final(self).wf(),
            final(self).len() == old(self).len(),
            forall|y: int|
                0 <= y < old(self).len() ==> #[trigger] final(self).root_of(y) == old(self).root_of(y),
            forall|k: int| 0 <= k < m@.len() ==> (#[trigger] m@[k]) < n,
            forall|k: int, l: int| 0 <= k < l < m@.len() ==> m@[k] < m@[l],
            forall|y: int|
                0 <= y < n ==> (m@.contains(y as usize) <==> old(self).root_of(y) == old(
                    self,
                ).root_of(idx as int)),
    {
        let ghost orig = *self;
        let r = self.find(idx);
        let mut m: Vec<usize> = Vec::new();
        let mut i: usize = 0;
        while i < n
            invariant
                self.wf(),
                self.len() == orig.len(),
                n <= orig.len(),
                idx < orig.len(),
                r == orig.root_of(idx as int),
                i <= n,
                forall|y: int| 0 <= y < orig.len() ==> #[trigger] self.root_of(y) == orig.root_of(y),
                forall|k: int| 0 <= k < m@.len() ==> (#[trigger] m@[k]) < i,
                forall|k: int, l: int| 0 <= k < l < m@.len() ==> m@[k] < m@[l],
                forall|y: int|
                    0 <= y < i ==> (m@.contains(y as usize) <==> orig.root_of(y) == orig.root_of(
                        idx as int,
                    )),
            decreases n - i,
        {
            let ghost m0 = m@;
            let ri = self.find(i);
            if ri == r {
                m.push(i);
            }
            proof {
                assert forall|y: int| 0 <= y < i + 1 implies (m@.contains(y as usize)
                    <==> orig.root_of(y) == orig.root_of(idx as int)) by {
                    if m@.contains(y as usize) {
                        let k = choose|k: int| 0 <= k < m@.len() && m@[k] == y as usize;
                        if k < m0.len() {
                            assert(m0[k] == y as usize);
                            assert(m0.contains(y as usize));
                        }
                    }
                    if y < i && m0.contains(y as usize) {
                        let k = choose|k: int| 0 <= k < m0.len() && m0[k] == y as usize;
                        assert(m@[k] == y as usize);
                    }
                    if y == i && orig.root_of(y) == orig.root_of(idx as int) {
                        assert(m@[m@.len() - 1] == y as usize);
                    }
                    if y == i && m0.contains(y as usize) {
                        let k = choose|k: int| 0 <= k < m0.len() && m0[k] == y as usize;
                        assert(m0[k] < i);
                    }
                }
            }
            i = i + 1;
        }
        m
    }
}

} // verus!
