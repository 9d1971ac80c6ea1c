//! A disjoint-set forest with union by rank and path compression, whose
//! contracts speak of the sets it represents.
use vstd::prelude::*;

verus! {

/// The number of roots (`parent[i] == i`) among the first `k` elements.
#[verifier::opaque]
pub open spec fn count_roots(parent: Seq<usize>, k: int) -> int
    decreases k,
{
    if k <= 0 {
        0
    } else {
        count_roots(parent, k - 1) + if parent[k - 1] == (k - 1) as usize {
            1int
        } else {
            0int
        }
    }
}

/// The root reached from `x` by following parent links, each of which
/// leads to a strictly higher rank.
#[verifier::opaque]
pub open spec fn root_of(parent: Seq<usize>, rank: Seq<usize>, x: int) -> int
    decreases parent.len() - rank[x],
{
    if 0 <= x < parent.len() && parent[x] != x && parent[x] < parent.len() && rank.len()
        == parent.len() && rank[x] < rank[parent[x] as int] && rank[parent[x] as int]
        <= parent.len() {
        root_of(parent, rank, parent[x] as int)
    } else {
        x
    }
}

/// A forest over the elements `0..n`, for Kruskal's algorithm: union by rank
/// and path compression.
pub struct UnionFind {
    parent: Vec<usize>,
    rank: Vec<usize>,
    size: usize,
}

/// A parent/rank forest in which every link goes up in rank.
#[verifier::opaque]
pub open spec fn forest_wf(parent: Seq<usize>, rank: Seq<usize>, size: int) -> bool {
    let n = parent.len();
    &&& rank.len() == n
    &&& n <= usize::MAX
    &&& 0 <= size <= n
    &&& forall|i: int| 0 <= i < n ==> (#[trigger] parent[i]) < n
    &&& forall|i: int| 0 <= i < n && parent[i] != i ==> #[trigger] rank[i] < rank[parent[i] as int]
    &&& forall|i: int| 0 <= i < n ==> #[trigger] rank[i] <= n - size
    &&& size == count_roots(parent, n as int)
}

impl UnionFind {
    pub closed spec fn wf(&self) -> bool {
        forest_wf(self.parent@, self.rank@, self.size as int)
    }

    /// The number of elements.
    pub closed spec fn len(&self) -> nat {
        self.parent@.len()
    }

    /// The representative of the set that holds `x`.
    pub closed spec fn root(&self, x: int) -> int {
        root_of(self.parent@, self.rank@, x)
    }

    /// The rank of each element.
    pub closed spec fn ranks(&self) -> Seq<usize> {
        self.rank@
    }

    /// The number of disjoint sets.
    pub closed spec fn components(&self) -> nat {
        self.size as nat
    }

    /// `a` and `b` are in the same set.
    pub open spec fn same_set(&self, a: int, b: int) -> bool {
        self.root(a) == self.root(b)
    }

    /// `size` singletons.
    pub fn new(size: usize) -> (r: UnionFind)
        ensures
            r.wf(),
            r.len() == size,
            r.components() == size,
            forall|a: int, b: int| 0 <= a < size && 0 <= b < size ==> (r.same_set(a, b) <==> a == b),
    {
        let mut parent: Vec<usize> = Vec::new();
        let mut rank: Vec<usize> = Vec::new();
        for i in 0..size
            invariant
                parent@.len() == i,
                rank@.len() == i,
                forall|j: int| 0 <= j < i ==> parent@[j] == j,
                forall|j: int| 0 <= j < i ==> rank@[j] == 0,
        {
            parent.push(i);
            rank.push(0);
        }
        proof {
            lemma_count_roots_identity(parent@, size as int);
            reveal(forest_wf);
        }
        let r = UnionFind { parent, rank, size };
        assert forall|a: int, b: int| 0 <= a < size && 0 <= b < size implies (r.same_set(a, b)
            <==> a == b) by {
            reveal(root_of);
            assert(r.root(a) == a);
            assert(r.root(b) == b);
        }
        r
    }

    /// The representative of `x`'s set; compresses the path from `x` to it.
    pub fn find(&mut self, x: usize) -> (r: usize)
        requires
            old(self).wf(),
            x < old(self).len(),
        ensures
            final(self).wf(),
            final(self).len() == old(self).len(),
            final(self).components() == old(self).components(),
            final(self).ranks() == old(self).ranks(),
            r == old(self).root(x as int),
            forall|z: int| 0 <= z < old(self).len() ==> #[trigger] final(self).root(z) == old(self).root(z),
        decreases old(self).len() - old(self).ranks()[x as int],
    {
        proof {
            lemma_root(self.parent@, self.rank@, self.size as int, x as int);
        }
        if self.parent[x] != x {
            let p = self.parent[x];
            let ghost before = *self;
            let r = self.find(p);
            proof {
                assert forall|z: int| 0 <= z < before.len() implies #[trigger] root_of(
                    self.parent@,
                    self.rank@,
                    z,
                ) == root_of(before.parent@, before.rank@, z) by {
                    assert(self.root(z) == before.root(z));
                }
                lemma_compress_step(before.parent@, self.parent@, self.rank@, self.size as int, x as int, r as int);
            }
            self.parent[x] = r;
        }
        self.parent[x]
    }

    /// Merges the sets of `x` and `y`, attaching the root of lower rank under
    /// the other (on a tie, `y`'s root under `x`'s, whose rank goes up).
    #[verifier::rlimit(60)]
    pub fn union(&mut self, x: usize, y: usize)
        requires
            old(self).wf(),
            x < old(self).len(),
            y < old(self).len(),
        ensures
            final(self).wf(),
            final(self).len() == old(self).len(),
            old(self).same_set(x as int, y as int) ==> final(self).components()
                == old(self).components(),
            !old(self).same_set(x as int, y as int) ==> final(self).components()
                == old(self).components() - 1,
            forall|a: int, b: int|
                0 <= a < old(self).len() && 0 <= b < old(self).len() ==> (
                #[trigger] final(self).same_set(a, b) <==> old(self).same_set(a, b)
                    || (old(self).same_set(a, x as int) && old(self).same_set(b, y as int))
                    || (old(self).same_set(a, y as int) && old(self).same_set(b, x as int))),
    {
        let ghost start = *self;
        let xroot = self.find(x);
        let ghost after_x = *self;
        let yroot = self.find(y);
        proof {
            assert forall|z: int| 0 <= z < start.len() implies #[trigger] root_of(
                self.parent@,
                self.rank@,
                z,
            ) == root_of(start.parent@, start.rank@, z) by {
                assert(self.root(z) == after_x.root(z));
                assert(after_x.root(z) == start.root(z));
            }
            lemma_root(self.parent@, self.rank@, self.size as int, x as int);
            lemma_root(self.parent@, self.rank@, self.size as int, y as int);
            lemma_wf_size(self.parent@, self.rank@, self.size as int);
        }
        if xroot != yroot {
            let ghost mid = *self;
            proof {
                lemma_two_roots(self.parent@, xroot as int, yroot as int, self.parent@.len() as int);
                lemma_root(self.parent@, self.rank@, self.size as int, xroot as int);
            }
            let ghost (c, t) = if self.rank@[xroot as int] < self.rank@[yroot as int] {
                (xroot as int, yroot as int)
            } else {
                (yroot as int, xroot as int)
            };
            if self.rank[xroot] < self.rank[yroot] {
                self.parent[xroot] = yroot;
            } else if self.rank[xroot] > self.rank[yroot] {
                self.parent[yroot] = xroot;
            } else {
                self.parent[yroot] = xroot;
                self.rank[xroot] += 1;
            }
            self.size -= 1;
            proof {
                lemma_link(mid.parent@, mid.rank@, mid.size as int, c, t, self.rank@);
                lemma_merge_sets(
                    start.parent@,
                    start.rank@,
                    mid.parent@,
                    mid.rank@,
                    self.parent@,
                    self.rank@,
                    x as int,
                    y as int,
                    c,
                    t,
                );
            }
        } else {
            proof {
                lemma_merge_sets(
                    start.parent@,
                    start.rank@,
                    self.parent@,
                    self.rank@,
                    self.parent@,
                    self.rank@,
                    x as int,
                    y as int,
                    xroot as int,
                    xroot as int,
                );
            }
        }
    }

    /// With a single set left, every two elements share it.
    pub proof fn lemma_single_set(&self)
        requires
            self.wf(),
            self.components() == 1,
        ensures
            forall|a: int, b: int|
                0 <= a < self.len() && 0 <= b < self.len() ==> #[trigger] self.same_set(a, b),
    {
        lemma_wf_size(self.parent@, self.rank@, self.size as int);
        assert forall|a: int, b: int| 0 <= a < self.len() && 0 <= b < self.len() implies #[trigger] self.same_set(a, b) by {
            lemma_root(self.parent@, self.rank@, self.size as int, a);
            lemma_root(self.parent@, self.rank@, self.size as int, b);
            if self.root(a) != self.root(b) {
                lemma_two_roots(self.parent@, self.root(a), self.root(b), self.parent@.len() as int);
            }
        }
    }

    /// When every two elements share a set, there is exactly one set.
    pub proof fn lemma_one_component(&self)
        requires
            self.wf(),
            self.len() > 0,
            forall|a: int, b: int|
                0 <= a < self.len() && 0 <= b < self.len() ==> #[trigger] self.same_set(a, b),
        ensures
            self.components() == 1,
    {
        lemma_wf_size(self.parent@, self.rank@, self.size as int);
        let r0 = self.root(0);
        lemma_root(self.parent@, self.rank@, self.size as int, 0);
        assert forall|i: int| 0 <= i < self.len() && self.parent@[i] == i implies i == r0 by {
            lemma_root(self.parent@, self.rank@, self.size as int, i);
            assert(self.same_set(i, 0));
        }
        lemma_count_at_most_one(self.parent@, self.len() as int, r0);
        lemma_one_root(self.parent@, r0, self.len() as int);
    }

    pub fn count(&self) -> (r: usize)
        ensures
            r == self.components(),
    {
        self.size
    }
}

/// With no root among the first `k` elements but `r0`, there is at most one.
proof fn lemma_count_at_most_one(parent: Seq<usize>, k: int, r0: int)
    requires
        0 <= k <= parent.len(),
        k <= usize::MAX,
        forall|i: int| 0 <= i < parent.len() && parent[i] == i ==> i == r0,
    ensures
        count_roots(parent, k) <= if 0 <= r0 < k { 1int } else { 0int },
    decreases k,
{
    reveal(count_roots);
    if k > 0 {
        lemma_count_at_most_one(parent, k - 1, r0);
    }
}

proof fn lemma_count_roots_identity(parent: Seq<usize>, k: int)
    requires
        0 <= k <= parent.len(),
        forall|j: int| 0 <= j < parent.len() ==> parent[j] == j,
    ensures
        count_roots(parent, k) == k,
    decreases k,
{
    reveal(count_roots);
    if k > 0 {
        lemma_count_roots_identity(parent, k - 1);
    }
}

/// From any element, parent links lead to a root of at least the element's
/// rank (strictly higher when the element is no root).
proof fn lemma_root(parent: Seq<usize>, rank: Seq<usize>, size: int, x: int)
    requires
        forest_wf(parent, rank, size),
        0 <= x < parent.len(),
    ensures
        0 <= root_of(parent, rank, x) < parent.len(),
        parent[root_of(parent, rank, x)] == root_of(parent, rank, x),
        rank[root_of(parent, rank, x)] >= rank[x],
        parent[x] != x ==> rank[root_of(parent, rank, x)] > rank[x],
        parent[x] != x ==> root_of(parent, rank, x) == root_of(parent, rank, parent[x] as int),
        parent[x] == x ==> root_of(parent, rank, x) == x,
        parent[x] != x ==> rank[x] < rank[parent[x] as int] <= parent.len() - size,
        parent[x] < parent.len(),
        rank[x] <= parent.len() - size,
    decreases parent.len() - rank[x],
{
    reveal(forest_wf);
    reveal(root_of);
    if parent[x] != x {
        assert(rank[parent[x] as int] <= parent.len() - size);
        lemma_root(parent, rank, size, parent[x] as int);
    }
}

proof fn lemma_wf_size(parent: Seq<usize>, rank: Seq<usize>, size: int)
    requires
        forest_wf(parent, rank, size),
    ensures
        size == count_roots(parent, parent.len() as int),
        parent.len() <= usize::MAX,
        rank.len() == parent.len(),
        0 <= size <= parent.len(),
{
    reveal(forest_wf);
}

proof fn lemma_count_roots_bounds(parent: Seq<usize>, k: int)
    requires
        0 <= k <= parent.len(),
    ensures
        0 <= count_roots(parent, k) <= k,
    decreases k,
{
    reveal(count_roots);
    if k > 0 {
        lemma_count_roots_bounds(parent, k - 1);
    }
}

/// Two distinct roots among the first `k` elements make at least two roots.
proof fn lemma_two_roots(parent: Seq<usize>, a: int, b: int, k: int)
    requires
        0 <= a < k,
        0 <= b < k,
        a != b,
        k <= parent.len(),
        k <= usize::MAX,
        parent[a] == a,
        parent[b] == b,
    ensures
        count_roots(parent, k) >= 2,
    decreases k,
{
    reveal(count_roots);
    lemma_count_roots_bounds(parent, k - 1);
    if a != k - 1 && b != k - 1 {
        lemma_two_roots(parent, a, b, k - 1);
    } else if a == k - 1 {
        lemma_one_root(parent, b, k - 1);
    } else {
        lemma_one_root(parent, a, k - 1);
    }
}

proof fn lemma_one_root(parent: Seq<usize>, a: int, k: int)
    requires
        0 <= a < k,
        k <= parent.len(),
        k <= usize::MAX,
        parent[a] == a,
    ensures
        count_roots(parent, k) >= 1,
    decreases k,
{
    reveal(count_roots);
    lemma_count_roots_bounds(parent, k - 1);
    if a != k - 1 {
        lemma_one_root(parent, a, k - 1);
    }
}

/// Attaching root `c` under root `t` (with `t`'s rank possibly raised by one)
/// keeps the forest well formed with one set fewer, and sends the elements
/// of `c`'s set to `t`.
proof fn lemma_link(
    parent: Seq<usize>,
    rank: Seq<usize>,
    size: int,
    c: int,
    t: int,
    rank2: Seq<usize>,
)
    requires
        forest_wf(parent, rank, size),
        0 <= c < parent.len(),
        0 <= t < parent.len(),
        c != t,
        parent[c] == c,
        parent[t] == t,
        count_roots(parent, parent.len() as int) >= 2,
        rank2.len() == rank.len(),
        forall|i: int| 0 <= i < rank.len() && i != t ==> rank2[i] == rank[i],
        rank[t] <= rank2[t] <= rank[t] + 1,
        rank2[c] < rank2[t],
    ensures
        forest_wf(parent.update(c, t as usize), rank2, size - 1),
        forall|z: int|
            0 <= z < parent.len() ==> #[trigger] root_of(parent.update(c, t as usize), rank2, z)
                == if root_of(parent, rank, z) == c {
                t
            } else {
                root_of(parent, rank, z)
            },
{
    reveal(forest_wf);
    let p2 = parent.update(c, t as usize);
    lemma_count_roots_update(parent, c, t as usize, parent.len() as int);
    assert forall|i: int| 0 <= i < p2.len() && p2[i] != i implies #[trigger] rank2[i] < rank2[p2[i] as int] by {
        if i != c {
            assert(parent[i] == p2[i]);
        }
    }
    assert forall|i: int| 0 <= i < p2.len() implies (#[trigger] p2[i]) < p2.len() by {
        if i != c {
            assert(parent[i] == p2[i]);
        }
    }
    assert forall|i: int| 0 <= i < p2.len() implies #[trigger] rank2[i] <= p2.len() - (size - 1) by {
        assert(rank[i] <= p2.len() - size);
    }
    assert(forest_wf(p2, rank2, size - 1));
    assert forall|z: int| 0 <= z < parent.len() implies #[trigger] root_of(p2, rank2, z) == if root_of(parent, rank, z) == c {
        t
    } else {
        root_of(parent, rank, z)
    } by {
        lemma_link_root(parent, rank, size, c, t, rank2, z);
    }
}

proof fn lemma_link_root(
    parent: Seq<usize>,
    rank: Seq<usize>,
    size: int,
    c: int,
    t: int,
    rank2: Seq<usize>,
    z: int,
)
    requires
        forest_wf(parent, rank, size),
        forest_wf(parent.update(c, t as usize), rank2, size - 1),
        0 <= c < parent.len(),
        0 <= t < parent.len(),
        c != t,
        parent[c] == c,
        parent[t] == t,
        0 <= z < parent.len(),
    ensures
        root_of(parent.update(c, t as usize), rank2, z) == if root_of(parent, rank, z) == c {
            t
        } else {
            root_of(parent, rank, z)
        },
    decreases parent.len() - rank[z],
{
    reveal(forest_wf);
    reveal(root_of);
    let p2 = parent.update(c, t as usize);
    if z == c {
        assert(root_of(p2, rank2, t) == t);
    } else if parent[z] != z {
        assert(rank[parent[z] as int] <= parent.len() - size);
        lemma_link_root(parent, rank, size, c, t, rank2, parent[z] as int);
    }
}

/// After linking one of the roots of `x` and `y` under the other, two
/// elements share a set when they did before, or when one was with `x` and
/// the other with `y`.
proof fn lemma_merge_sets(
    p0: Seq<usize>,
    r0: Seq<usize>,
    p1: Seq<usize>,
    r1: Seq<usize>,
    p2: Seq<usize>,
    r2: Seq<usize>,
    x: int,
    y: int,
    c: int,
    t: int,
)
    requires
        p1.len() == p0.len(),
        p2.len() == p0.len(),
        0 <= x < p0.len(),
        0 <= y < p0.len(),
        forall|z: int| 0 <= z < p0.len() ==> #[trigger] root_of(p1, r1, z) == root_of(p0, r0, z),
        (c == root_of(p0, r0, x) && t == root_of(p0, r0, y)) || (c == root_of(p0, r0, y) && t
            == root_of(p0, r0, x)),
        forall|z: int|
            0 <= z < p0.len() ==> #[trigger] root_of(p2, r2, z) == if root_of(p1, r1, z) == c {
                t
            } else {
                root_of(p1, r1, z)
            },
    ensures
        forall|a: int, b: int|
            0 <= a < p0.len() && 0 <= b < p0.len() ==> (#[trigger] root_of(p2, r2, a)
                == #[trigger] root_of(p2, r2, b) <==> root_of(p0, r0, a) == root_of(p0, r0, b)
                || (root_of(p0, r0, a) == root_of(p0, r0, x) && root_of(p0, r0, b) == root_of(
                p0,
                r0,
                y,
            )) || (root_of(p0, r0, a) == root_of(p0, r0, y) && root_of(p0, r0, b) == root_of(
                p0,
                r0,
                x,
            ))),
{
    assert forall|a: int, b: int| 0 <= a < p0.len() && 0 <= b < p0.len() implies (#[trigger] root_of(p2, r2, a)
                == #[trigger] root_of(p2, r2, b) <==> root_of(p0, r0, a) == root_of(p0, r0, b)
                || (root_of(p0, r0, a) == root_of(p0, r0, x) && root_of(p0, r0, b) == root_of(p0, r0, y))
                || (root_of(p0, r0, a) == root_of(p0, r0, y) && root_of(p0, r0, b) == root_of(p0, r0, x))) by {
        assert(root_of(p1, r1, a) == root_of(p0, r0, a));
        assert(root_of(p1, r1, b) == root_of(p0, r0, b));
    }
}

/// One step of path compression: after the roots were found from `x`'s
/// parent (which keeps every root), `x` is pointed at the root found.
proof fn lemma_compress_step(
    before: Seq<usize>,
    after: Seq<usize>,
    rank: Seq<usize>,
    size: int,
    x: int,
    r: int,
)
    requires
        forest_wf(before, rank, size),
        forest_wf(after, rank, size),
        after.len() == before.len(),
        0 <= x < before.len(),
        before[x] != x,
        r == root_of(before, rank, before[x] as int),
        forall|z: int| 0 <= z < before.len() ==> #[trigger] root_of(after, rank, z) == root_of(before, rank, z),
    ensures
        r == root_of(before, rank, x),
        forest_wf(after.update(x, r as usize), rank, size),
        forall|z: int|
            0 <= z < before.len() ==> #[trigger] root_of(after.update(x, r as usize), rank, z)
                == root_of(before, rank, z),
{
    reveal(forest_wf);
    reveal(root_of);
    lemma_root(before, rank, size, x);
    assert(root_of(after, rank, x) == r);
    lemma_root(after, rank, size, x);
    lemma_relink(after, rank, size, x, r);
}

/// Pointing a non-root `x` straight at its root keeps the forest well formed
/// and every element's root.
proof fn lemma_relink(parent: Seq<usize>, rank: Seq<usize>, size: int, x: int, r: int)
    requires
        forest_wf(parent, rank, size),
        0 <= x < parent.len(),
        parent[x] != x,
        r == root_of(parent, rank, x),
    ensures
        forest_wf(parent.update(x, r as usize), rank, size),
        forall|z: int|
            0 <= z < parent.len() ==> #[trigger] root_of(parent.update(x, r as usize), rank, z)
                == root_of(parent, rank, z),
{
    lemma_root(parent, rank, size, x);
    lemma_relink_wf(parent, rank, size, x, r);
    let p2 = parent.update(x, r as usize);
    assert forall|z: int| 0 <= z < parent.len() implies #[trigger] root_of(p2, rank, z)
        == root_of(parent, rank, z) by {
        lemma_relink_root(parent, rank, size, x, r, z);
    }
}

proof fn lemma_relink_wf(parent: Seq<usize>, rank: Seq<usize>, size: int, x: int, r: int)
    requires
        forest_wf(parent, rank, size),
        0 <= x < parent.len(),
        parent[x] != x,
        0 <= r < parent.len(),
        parent[r] == r,
        rank[x] < rank[r],
    ensures
        forest_wf(parent.update(x, r as usize), rank, size),
{
    reveal(forest_wf);
    let p2 = parent.update(x, r as usize);
    lemma_count_roots_update(parent, x, r as usize, parent.len() as int);
    assert forall|i: int| 0 <= i < p2.len() && p2[i] != i implies #[trigger] rank[i] < rank[p2[i] as int] by {
        if i != x {
            assert(parent[i] == p2[i]);
        }
    }
    assert forall|i: int| 0 <= i < p2.len() implies (#[trigger] p2[i]) < p2.len() by {
        if i != x {
            assert(parent[i] == p2[i]);
        }
    }
    assert(parent[r] == r);
    assert(r != x);
    assert(!(parent[x] == x as usize));
    assert(!((r as usize) == x as usize));
    assert(count_roots(p2, parent.len() as int) == count_roots(parent, parent.len() as int));
    assert(forest_wf(p2, rank, size));
}

proof fn lemma_relink_root(parent: Seq<usize>, rank: Seq<usize>, size: int, x: int, r: int, z: int)
    requires
        forest_wf(parent, rank, size),
        forest_wf(parent.update(x, r as usize), rank, size),
        0 <= x < parent.len(),
        parent[x] != x,
        r == root_of(parent, rank, x),
        parent[r] == r,
        0 <= z < parent.len(),
    ensures
        root_of(parent.update(x, r as usize), rank, z) == root_of(parent, rank, z),
    decreases parent.len() - rank[z],
{
    reveal(forest_wf);
    reveal(root_of);
    let p2 = parent.update(x, r as usize);
    if z == x {
        assert(p2[r] == r);
        assert(root_of(p2, rank, r) == r);
    } else if parent[z] != z {
        assert(rank[parent[z] as int] <= parent.len() - size);
        lemma_relink_root(parent, rank, size, x, r, parent[z] as int);
    }
}

/// Changing one parent link changes the root count by the roots lost or gained there.
proof fn lemma_count_roots_update(parent: Seq<usize>, j: int, v: usize, k: int)
    requires
        0 <= j < parent.len(),
        0 <= k <= parent.len(),
    ensures
        count_roots(parent.update(j, v), k) == count_roots(parent, k) - (if j < k && parent[j]
            == j as usize { 1int } else { 0int }) + (if j < k && v == j as usize {
            1int
        } else {
            0int
        }),
    decreases k,
{
    reveal(count_roots);
    if k > 0 {
        lemma_count_roots_update(parent, j, v, k - 1);
    }
}

} // verus!
