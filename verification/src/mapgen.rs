//! Level generation: rooms joined by a minimum spanning tree of corridors,
//! and cellular-automaton caves.

use vstd::prelude::*;

use std::collections::VecDeque;

use crate::entity::{manhattan, Position};
use crate::rng::{rng_range, seeded_draw, seeded_rng, SeededRng};
use crate::map::{in_room, lemma_set_tile_reads, room_in_range, rooms_overlap, MapGenOutput, Room, RoomType, TileMap, TileType};
use crate::walks::{
    connects, keeps_walkable, lemma_connects_keep, lemma_connects_refl, lemma_connects_sym, lemma_connects_trans,
    lemma_corridor_joins, lemma_set_tile_keeps,
};

verus! {

// ---------------------------------------------------------------------------
// Union-find over room indices

/// Disjoint sets over `0..n`, with union by rank and path compression.
pub struct UnionFind {
    parent: Vec<usize>,
    rank: Vec<usize>,
}

/// Parent links stay in range and strictly raise the rank.
pub open spec fn links_ok(p: Seq<usize>, r: Seq<usize>) -> bool {
    &&& r.len() == p.len()
    &&& forall|x: int| 0 <= x < p.len() ==> (#[trigger] p[x] as int) < p.len()
    &&& forall|x: int| 0 <= x < p.len() && p[x] != x ==> r[#[trigger] p[x] as int] > r[x]
}

/// The representative of `x`: the end of its chain of parent links.
pub open spec fn root_of(p: Seq<usize>, r: Seq<usize>, x: int) -> int
    decreases usize::MAX - r[x],
{
    if 0 <= x < p.len() && p[x] != x && (p[x] as int) < p.len() && r.len() == p.len() && r[p[x] as int]
        > r[x] {
        root_of(p, r, p[x] as int)
    } else {
        x
    }
}

/// The indices that are their own parent.
pub open spec fn root_set(p: Seq<usize>) -> Set<int> {
    Set::new(|i: int| 0 <= i < p.len() && p[i] == i)
}

pub proof fn lemma_root_set_finite(p: Seq<usize>)
    ensures
        root_set(p).finite(),
        root_set(p).len() <= p.len(),
{
    vstd::set_lib::lemma_int_range(0, p.len() as int);
    vstd::set_lib::lemma_len_subset(root_set(p), vstd::set_lib::set_int_range(0, p.len() as int));
}

pub proof fn lemma_root_of(p: Seq<usize>, r: Seq<usize>, x: int)
    requires
        links_ok(p, r),
        0 <= x < p.len(),
    ensures
        0 <= root_of(p, r, x) < p.len(),
        p[root_of(p, r, x)] == root_of(p, r, x),
        r[root_of(p, r, x)] >= r[x],
        p[x] != x ==> r[root_of(p, r, x)] > r[x],
        p[x] != x ==> root_of(p, r, x) == root_of(p, r, p[x] as int),
        p[x] == x ==> root_of(p, r, x) == x,
    decreases usize::MAX - r[x],
{
    if p[x] != x {
        lemma_root_of(p, r, p[x] as int);
    }
}

/// Pointing `x` straight at its representative changes no representative.
pub proof fn lemma_compress(p: Seq<usize>, r: Seq<usize>, x: int, z: int)
    requires
        links_ok(p, r),
        0 <= x < p.len(),
        0 <= z < p.len(),
    ensures
        links_ok(p.update(x, root_of(p, r, x) as usize), r),
        root_of(p.update(x, root_of(p, r, x) as usize), r, z) == root_of(p, r, z),
    decreases usize::MAX - r[z],
{
    let q = p.update(x, root_of(p, r, x) as usize);
    lemma_root_of(p, r, x);
    assert(links_ok(q, r)) by {
        assert forall|y: int| 0 <= y < q.len() && q[y] != y implies r[#[trigger] q[y] as int] > r[y] by {
            if y != x {
                assert(q[y] == p[y]);
            }
        }
    }
    lemma_root_of(p, r, z);
    lemma_root_of(q, r, z);
    if z == x {
        lemma_root_of(q, r, root_of(p, r, x));
    } else if p[z] != z {
        lemma_compress(p, r, x, p[z] as int);
    }
}

/// Linking root `child` under root `top` sends the members of `child`'s set
/// to `top`.
pub proof fn lemma_link(p: Seq<usize>, r: Seq<usize>, child: int, top: int, z: int)
    requires
        links_ok(p, r),
        0 <= child < p.len(),
        0 <= top < p.len(),
        0 <= z < p.len(),
        p[child] == child,
        p[top] == top,
        child != top,
        r[top] > r[child],
    ensures
        links_ok(p.update(child, top as usize), r),
        root_of(p.update(child, top as usize), r, z) == if root_of(p, r, z) == child {
            top
        } else {
            root_of(p, r, z)
        },
    decreases usize::MAX - r[z],
{
    let q = p.update(child, top as usize);
    assert(links_ok(q, r)) by {
        assert forall|y: int| 0 <= y < q.len() && q[y] != y implies r[#[trigger] q[y] as int] > r[y] by {
            if y != child {
                assert(q[y] == p[y]);
            }
        }
    }
    lemma_root_of(p, r, z);
    lemma_root_of(q, r, z);
    if z == child {
        lemma_root_of(q, r, top);
    } else if p[z] != z {
        lemma_link(p, r, child, top, p[z] as int);
    }
}

/// Raising the rank of a root changes no representative.
pub proof fn lemma_bump(p: Seq<usize>, r: Seq<usize>, top: int, z: int)
    requires
        links_ok(p, r),
        0 <= top < p.len(),
        0 <= z < p.len(),
        p[top] == top,
        r[top] < usize::MAX,
    ensures
        links_ok(p, r.update(top, (r[top] + 1) as usize)),
        root_of(p, r.update(top, (r[top] + 1) as usize), z) == root_of(p, r, z),
    decreases usize::MAX - r[z],
{
    let s = r.update(top, (r[top] + 1) as usize);
    assert(links_ok(p, s)) by {
        assert forall|y: int| 0 <= y < p.len() && p[y] != y implies s[#[trigger] p[y] as int] > s[y] by {
            assert(y != top);
        }
    }
    lemma_root_of(p, r, z);
    lemma_root_of(p, s, z);
    if p[z] != z {
        lemma_bump(p, r, top, p[z] as int);
    }
}

/// Whether `now_same` is what `a` and `b` being in one set should be after
/// joining the sets of `x` and `y` in `before` (when `merged`).
pub open spec fn joined_after(
    before: UnionFind,
    now_same: bool,
    merged: bool,
    a: int,
    b: int,
    x: int,
    y: int,
) -> bool {
    now_same <==> (before.same_set(a, b) || (merged && ((before.same_set(a, x) && before.same_set(b, y))
        || (before.same_set(a, y) && before.same_set(b, x)))))
}

impl UnionFind {
    pub closed spec fn parents(&self) -> Seq<usize> {
        self.parent@
    }

    pub closed spec fn ranks(&self) -> Seq<usize> {
        self.rank@
    }

    /// The number of elements.
    pub open spec fn size(&self) -> int {
        self.parents().len() as int
    }

    /// The representative of `x`.
    pub open spec fn rep(&self, x: int) -> int {
        root_of(self.parents(), self.ranks(), x)
    }

    /// Whether `a` and `b` are in one set.
    pub open spec fn same_set(&self, a: int, b: int) -> bool {
        self.rep(a) == self.rep(b)
    }

    pub closed spec fn wf(&self) -> bool {
        &&& links_ok(self.parent@, self.rank@)
        &&& forall|x: int|
            0 <= x < self.parent@.len() ==> #[trigger] self.rank@[x] + root_set(self.parent@).len()
                <= self.parent@.len()
    }

    /// `n` singletons.
    pub fn new(n: usize) -> (uf: UnionFind)
        ensures
            uf.wf(),
            uf.size() == n,
            forall|x: int| 0 <= x < n ==> #[trigger] uf.rep(x) == x,
    {
        let mut parent: Vec<usize> = Vec::new();
        let mut i: usize = 0;
        while i < n
            invariant
                i <= n,
                parent@.len() == i,
                forall|k: int| 0 <= k < i ==> parent@[k] == k,
            decreases n - i,
        {
            parent.push(i);
            i = i + 1;
        }
        let rank = vec![0usize; n];
        let uf = UnionFind { parent, rank };
        proof {
            assert(root_set(uf.parent@) =~= vstd::set_lib::set_int_range(0, n as int));
            vstd::set_lib::lemma_int_range(0, n as int);
        }
        assert forall|x: int| 0 <= x < n implies #[trigger] uf.rep(x) == x by {
            lemma_root_of(uf.parent@, uf.rank@, x);
        }
        uf
    }

    /// The representative of `x`; compresses the path from `x` on the way.
    pub fn find(&mut self, x: usize) -> (root: usize)
        requires
            old(self).wf(),
            x < old(self).size(),
        ensures
            final(self).wf(),
            final(self).size() == old(self).size(),
            root == old(self).rep(x as int),
            forall|z: int| 0 <= z < old(self).size() ==> #[trigger] final(self).rep(z) == old(self).rep(z),
            final(self).ranks() == old(self).ranks(),
            root_set(final(self).parents()) == root_set(old(self).parents()),
            forall|z: int|
                0 <= z < old(self).size() ==> #[trigger] final(self).parents()[z] == old(self).parents()[z]
                    || final(self).parents()[z] == old(self).rep(z),
        decreases usize::MAX - old(self).ranks()[x as int],
    {
        proof {
            lemma_root_of(self.parent@, self.rank@, x as int);
        }
        let px = self.parent[x];
        if px == x {
            return x;
        }
        let root = self.find(px);
        let ghost mid = self.parent@;
        let ghost r = self.rank@;
        let ghost mid_uf = *self;
        assert(mid_uf.rep(px as int) == old(self).rep(px as int));
        proof {
            let o = old(self).parent@;
            lemma_root_of(o, r, x as int);
            lemma_root_of(o, r, px as int);
            assert(root_set(mid).contains(x as int) == root_set(o).contains(x as int));
            assert(mid[x as int] != x);
            lemma_root_of(mid, r, x as int);
            if mid[x as int] == px {
                assert(root_of(mid, r, px as int) == root_of(o, r, px as int));
            } else {
                let r0 = root_of(o, r, x as int);
                assert(mid[x as int] == r0);
                assert(root_set(o).contains(r0));
                assert(root_set(mid).contains(r0));
                lemma_root_of(mid, r, r0);
            }
            assert(root == root_of(mid, r, x as int));
        }
        self.parent.set(x, root);
        proof {
            assert(self.parent@ == mid.update(x as int, root_of(mid, r, x as int) as usize));
            assert forall|z: int| 0 <= z < old(self).size() implies #[trigger] self.rep(z) == old(
                self,
            ).rep(z) by {
                lemma_compress(mid, r, x as int, z);
                assert(mid_uf.rep(z) == old(self).rep(z));
            }
            lemma_compress(mid, r, x as int, x as int);
            assert(root_set(self.parent@) =~= root_set(mid));
        }
        root
    }

    /// Joins the sets of `x` and `y`; false when they already were one set.
    pub fn union(&mut self, x: usize, y: usize) -> (merged: bool)
        requires
            old(self).wf(),
            x < old(self).size(),
            y < old(self).size(),
        ensures
            final(self).wf(),
            final(self).size() == old(self).size(),
            merged == !old(self).same_set(x as int, y as int),
            forall|a: int, b: int|
                0 <= a < old(self).size() && 0 <= b < old(self).size() ==> joined_after(
                    *old(self),
                    #[trigger] final(self).same_set(a, b),
                    merged,
                    a,
                    b,
                    x as int,
                    y as int,
                ),
    {
        let xr = self.find(x);
        let ghost s1 = *self;
        proof {
            lemma_root_of(old(self).parent@, old(self).rank@, x as int);
            lemma_root_of(s1.parent@, s1.rank@, y as int);
            assert(s1.rep(y as int) == old(self).rep(y as int));
        }
        let yr = self.find(y);
        let ghost s2 = *self;
        let ghost n = self.parent@.len() as int;
        proof {
            assert(s2.rep(xr as int) == s1.rep(xr as int));
            lemma_root_of(s2.parent@, s2.rank@, xr as int);
            lemma_root_of(s2.parent@, s2.rank@, yr as int);
            lemma_root_of(old(self).parent@, old(self).rank@, x as int);
            lemma_root_of(old(self).parent@, old(self).rank@, y as int);
            assert(s2.rep(x as int) == old(self).rep(x as int));
            assert(s2.rep(y as int) == old(self).rep(y as int));
            assert(s2.parent@[xr as int] == xr);
            assert(s2.parent@[yr as int] == yr);
        }
        if xr == yr {
            return false;
        }
        proof {
            lemma_root_set_finite(s2.parent@);
            let pair = set![xr as int, yr as int];
            assert(pair.subset_of(root_set(s2.parent@)));
            vstd::set_lib::lemma_len_subset(pair, root_set(s2.parent@));
            assert(pair.len() == 2);
        }
        let ghost child: int;
        let ghost top: int;
        if self.rank[xr] < self.rank[yr] {
            self.parent.set(xr, yr);
            proof {
                child = xr as int;
                top = yr as int;
            }
        } else if self.rank[xr] > self.rank[yr] {
            self.parent.set(yr, xr);
            proof {
                child = yr as int;
                top = xr as int;
            }
        } else {
            assert(self.rank@[xr as int] + root_set(self.parent@).len() <= n);
            assert(n <= usize::MAX) by {
                assert(self.parent@.len() == self.parent.len());
            }
            let bumped = self.rank[xr] + 1;
            self.rank.set(xr, bumped);
            self.parent.set(yr, xr);
            proof {
                child = yr as int;
                top = xr as int;
            }
        }
        proof {
            let p = s2.parent@;
            let r = s2.rank@;
            assert forall|z: int| 0 <= z < n implies #[trigger] self.rep(z) == if s2.rep(z) == child {
                top
            } else {
                s2.rep(z)
            } by {
                if r[xr as int] == r[yr as int] {
                    lemma_bump(p, r, xr as int, z);
                    lemma_link(p, self.rank@, child, top, z);
                } else {
                    lemma_link(p, r, child, top, z);
                }
            }
            if r[xr as int] == r[yr as int] {
                lemma_bump(p, r, xr as int, 0);
                lemma_link(p, self.rank@, child, top, 0);
            } else {
                lemma_link(p, r, child, top, 0);
            }
            assert(root_set(self.parent@) =~= root_set(p).remove(child));
            lemma_root_set_finite(p);
            assert forall|z: int| 0 <= z < n implies #[trigger] self.rank@[z] + root_set(self.parent@).len()
                <= n by {
                assert(s2.rank@[z] + root_set(p).len() <= n);
            }
            assert forall|a: int, b: int| 0 <= a < n && 0 <= b < n implies joined_after(
                *old(self),
                #[trigger] self.same_set(a, b),
                true,
                a,
                b,
                x as int,
                y as int,
            ) by {
                assert(s2.rep(a) == old(self).rep(a));
                assert(s2.rep(b) == old(self).rep(b));
                lemma_root_of(p, r, a);
                lemma_root_of(p, r, b);
            }
        }
        true
    }
}


// ---------------------------------------------------------------------------
// The corridor graph between rooms

/// A candidate corridor between two rooms, weighted by the Manhattan
/// distance of their centers.
#[derive(Clone, Copy, Debug)]
pub struct MstEdge {
    pub from: usize,
    pub to: usize,
    pub weight: i32,
}

/// The order corridors are considered in: by weight, then by the pair of
/// rooms.
pub open spec fn edge_before(a: MstEdge, b: MstEdge) -> bool {
    a.weight < b.weight || (a.weight == b.weight && (a.from < b.from || (a.from == b.from && a.to
        < b.to)))
}

/// `e` joins rooms `from < to` and weighs the distance of their centers.
pub open spec fn pair_edge(c: Seq<Position>, e: MstEdge) -> bool {
    &&& e.from < e.to < c.len()
    &&& e.weight == manhattan(c[e.from as int], c[e.to as int])
}

pub open spec fn has_pair(e: Seq<MstEdge>, i: int, j: int) -> bool {
    exists|k: int| 0 <= k < e.len() && (#[trigger] e[k]).from == i && e[k].to == j
}

pub open spec fn edges_sorted(e: Seq<MstEdge>) -> bool {
    forall|a: int, b: int| 0 <= a < b < e.len() ==> edge_before(#[trigger] e[a], #[trigger] e[b])
}

/// `e` lists every pair of rooms once, in the order of `edge_before`.
pub open spec fn pair_edges_by_weight(c: Seq<Position>, e: Seq<MstEdge>) -> bool {
    &&& edges_sorted(e)
    &&& forall|k: int| 0 <= k < e.len() ==> pair_edge(c, #[trigger] e[k])
    &&& forall|i: int, j: int| 0 <= i < j < c.len() ==> #[trigger] has_pair(e, i, j)
}

/// Centers close enough that their distances fit an `i32`.
pub open spec fn centers_close(c: Seq<Position>) -> bool {
    forall|i: int, j: int|
        0 <= i < c.len() && 0 <= j < c.len() ==> manhattan(#[trigger] c[i], #[trigger] c[j]) <= i32::MAX
}

fn edge_before_exec(a: MstEdge, b: MstEdge) -> (r: bool)
    ensures
        r == edge_before(a, b),
{
    a.weight < b.weight || (a.weight == b.weight && (a.from < b.from || (a.from == b.from && a.to < b.to)))
}

/// Where `e` goes in sorted `edges`, none of which joins the same rooms.
fn insert_position(edges: &Vec<MstEdge>, e: MstEdge) -> (p: usize)
    requires
        edges_sorted(edges@),
        forall|k: int| 0 <= k < edges@.len() ==> !((#[trigger] edges@[k]).from == e.from && edges@[k].to == e.to),
    ensures
        p <= edges@.len(),
        forall|k: int| 0 <= k < p ==> edge_before(#[trigger] edges@[k], e),
        forall|k: int| p <= k < edges@.len() ==> edge_before(e, #[trigger] edges@[k]),
{
    let mut p: usize = 0;
    while p < edges.len() && edge_before_exec(edges[p], e)
        invariant
            p <= edges@.len(),
            forall|k: int| 0 <= k < p ==> edge_before(#[trigger] edges@[k], e),
        decreases edges.len() - p,
    {
        p = p + 1;
    }
    assert forall|k: int| p <= k < edges@.len() implies edge_before(e, #[trigger] edges@[k]) by {
        assert(edge_before(e, edges@[p as int]));
        if k > p {
            assert(edge_before(edges@[p as int], edges@[k]));
        }
    }
    p
}

/// The number of pairs `a < b < n` with `a < i`.
pub open spec fn pairs_before(n: int, i: int) -> int
    decreases i,
{
    if i <= 0 {
        0
    } else {
        pairs_before(n, i - 1) + (n - i)
    }
}

proof fn lemma_pairs_before_step(n: int, i: int)
    requires
        0 <= i < n,
    ensures
        pairs_before(n, i + 1) == pairs_before(n, i) + (n - i - 1),
{
}

proof fn lemma_pairs_before_all(n: int)
    requires
        0 <= n,
    ensures
        pairs_before(n, n) == n * (n - 1) / 2,
{
    lemma_pairs_before_closed(n, n);
}

proof fn lemma_pairs_before_closed(n: int, i: int)
    requires
        0 <= i <= n,
    ensures
        2 * pairs_before(n, i) == i * (2 * n - i - 1),
    decreases i,
{
    if i > 0 {
        lemma_pairs_before_closed(n, i - 1);
        assert(2 * pairs_before(n, i) == i * (2 * n - i - 1)) by (nonlinear_arith)
            requires
                2 * pairs_before(n, i - 1) == (i - 1) * (2 * n - (i - 1) - 1),
                pairs_before(n, i) == pairs_before(n, i - 1) + (n - i),
        ;
    } else {
        assert(pairs_before(n, i) == 0);
        assert(i * (2 * n - i - 1) == 0);
    }
}

/// Every pair of rooms as a corridor candidate, ordered by weight; pairs of
/// equal weight keep the order in which they were listed.
pub fn room_edges(centers: &Vec<Position>) -> (edges: Vec<MstEdge>)
    requires
        centers_close(centers@),
    ensures
        pair_edges_by_weight(centers@, edges@),
        edges@.len() == centers@.len() * (centers@.len() - 1) / 2,
{
    let n = centers.len();
    let ghost c = centers@;
    let mut edges: Vec<MstEdge> = Vec::new();
    let mut i: usize = 0;
    while i < n
        invariant
            i <= n,
            n == c.len(),
            c == centers@,
            centers_close(c),
            edges_sorted(edges@),
            forall|k: int| 0 <= k < edges@.len() ==> pair_edge(c, #[trigger] edges@[k]),
            forall|k: int| 0 <= k < edges@.len() ==> (#[trigger] edges@[k]).from < i,
            forall|a: int, b: int| 0 <= a < i && a < b < n ==> #[trigger] has_pair(edges@, a, b),
            edges@.len() == pairs_before(n as int, i as int),
        decreases n - i,
    {
        let mut j: usize = i + 1;
        while j < n
            invariant
                i < n,
                i + 1 <= j <= n,
                n == c.len(),
                c == centers@,
                centers_close(c),
                edges_sorted(edges@),
                forall|k: int| 0 <= k < edges@.len() ==> pair_edge(c, #[trigger] edges@[k]),
                forall|k: int|
                    0 <= k < edges@.len() ==> (#[trigger] edges@[k]).from < i || (edges@[k].from == i
                        && edges@[k].to < j),
                forall|a: int, b: int|
                    (0 <= a < i && a < b < n) || (a == i && i < b < j) ==> #[trigger] has_pair(
                        edges@,
                        a,
                        b,
                    ),
                edges@.len() == pairs_before(n as int, i as int) + (j - i - 1),
            decreases n - j,
        {
            let w = centers[i].manhattan_distance(centers[j]);
            let e = MstEdge { from: i, to: j, weight: w };
            let p = insert_position(&edges, e);
            let ghost before = edges@;
            edges.insert(p, e);
            proof {
                let after = edges@;
                assert(after == before.insert(p as int, e));
                assert forall|a: int, b: int| 0 <= a < b < after.len() implies edge_before(
                    #[trigger] after[a],
                    #[trigger] after[b],
                ) by {
                    if b < p {
                    } else if b == p {
                    } else if a < p {
                    } else if a == p {
                        assert(after[b] == before[b - 1]);
                    } else {
                        assert(after[a] == before[a - 1]);
                        assert(after[b] == before[b - 1]);
                    }
                }
                assert forall|k: int| 0 <= k < after.len() implies pair_edge(c, #[trigger] after[k]) by {
                    if k < p {
                    } else if k > p {
                        assert(after[k] == before[k - 1]);
                    }
                }
                assert forall|k: int| 0 <= k < after.len() implies (#[trigger] after[k]).from < i || (
                after[k].from == i && after[k].to < j + 1) by {
                    if k > p {
                        assert(after[k] == before[k - 1]);
                    }
                }
                assert forall|a: int, b: int|
                    (0 <= a < i && a < b < n) || (a == i && i < b < j + 1) implies #[trigger] has_pair(
                    after,
                    a,
                    b,
                ) by {
                    if a == i && b == j {
                        assert(after[p as int] == e);
                    } else {
                        assert(has_pair(before, a, b));
                        let k = choose|k: int| 0 <= k < before.len() && (#[trigger] before[k]).from == a && before[k].to == b;
                        if k < p {
                            assert(after[k] == before[k]);
                        } else {
                            assert(after[k + 1] == before[k]);
                        }
                    }
                }
            }
            j = j + 1;
        }
        proof {
            lemma_pairs_before_step(n as int, i as int);
        }
        i = i + 1;
    }
    proof {
        lemma_pairs_before_all(n as int);
    }
    edges
}

/// Labels of the connected components: joining the sets of `a` and `b`
/// relabels `b`'s set with `a`'s label.
pub open spec fn merge_labels(l: Seq<int>, a: int, b: int) -> Seq<int> {
    Seq::new(l.len(), |z: int| if l[z] == l[b] { l[a] } else { l[z] })
}

/// Component labels of the `n` rooms after Kruskal's algorithm has
/// considered the first `k` edges.
pub open spec fn kruskal_labels(n: nat, e: Seq<MstEdge>, k: int) -> Seq<int>
    decreases k,
{
    if k <= 0 {
        Seq::new(n, |i: int| i)
    } else {
        let l = kruskal_labels(n, e, k - 1);
        let ed = e[k - 1];
        if l[ed.from as int] != l[ed.to as int] {
            merge_labels(l, ed.from as int, ed.to as int)
        } else {
            l
        }
    }
}

/// Whether Kruskal's algorithm takes edge `k`: its rooms were not yet
/// connected.
pub open spec fn kruskal_takes(n: nat, e: Seq<MstEdge>, k: int) -> bool {
    let l = kruskal_labels(n, e, k);
    l[e[k].from as int] != l[e[k].to as int]
}

/// The indices of the first `k` edges that Kruskal's algorithm takes, and
/// of those it leaves, each in order.
pub open spec fn kruskal_split(n: nat, e: Seq<MstEdge>, k: int) -> (Seq<usize>, Seq<usize>)
    decreases k,
{
    if k <= 0 {
        (seq![], seq![])
    } else {
        let prev = kruskal_split(n, e, k - 1);
        if kruskal_takes(n, e, k - 1) {
            (prev.0.push((k - 1) as usize), prev.1)
        } else {
            (prev.0, prev.1.push((k - 1) as usize))
        }
    }
}

/// Edges joining rooms `0..n`.
pub open spec fn edges_within(n: int, e: Seq<MstEdge>) -> bool {
    forall|k: int| 0 <= k < e.len() ==> (#[trigger] e[k]).from < n && e[k].to < n
}

/// Kruskal's algorithm over edges in the order given: the indices of the
/// edges of the spanning forest, and of the others.
pub fn kruskal(n: usize, edges: &Vec<MstEdge>) -> (r: (Vec<usize>, Vec<usize>))
    requires
        edges_within(n as int, edges@),
    ensures
        r.0@ == kruskal_split(n as nat, edges@, edges@.len() as int).0,
        r.1@ == kruskal_split(n as nat, edges@, edges@.len() as int).1,
        r.0@.len() + r.1@.len() == edges@.len(),
        forall|k: int| 0 <= k < r.0@.len() ==> (#[trigger] r.0@[k] as int) < edges@.len(),
        forall|k: int| 0 <= k < r.1@.len() ==> (#[trigger] r.1@[k] as int) < edges@.len(),
{
    let ghost e = edges@;
    let mut uf = UnionFind::new(n);
    let mut taken: Vec<usize> = Vec::new();
    let mut left: Vec<usize> = Vec::new();
    let mut k: usize = 0;
    while k < edges.len()
        invariant
            k <= edges@.len(),
            e == edges@,
            edges_within(n as int, e),
            uf.wf(),
            uf.size() == n,
            kruskal_labels(n as nat, e, k as int).len() == n,
            forall|a: int, b: int|
                0 <= a < n && 0 <= b < n ==> (#[trigger] uf.same_set(a, b) <==> kruskal_labels(
                    n as nat,
                    e,
                    k as int,
                )[a] == kruskal_labels(n as nat, e, k as int)[b]),
            taken@ == kruskal_split(n as nat, e, k as int).0,
            left@ == kruskal_split(n as nat, e, k as int).1,
            taken@.len() + left@.len() == k,
            forall|j: int| 0 <= j < taken@.len() ==> (#[trigger] taken@[j] as int) < k,
            forall|j: int| 0 <= j < left@.len() ==> (#[trigger] left@[j] as int) < k,
        decreases edges.len() - k,
    {
        let ed = edges[k];
        let ghost l = kruskal_labels(n as nat, e, k as int);
        let ghost before = uf;
        let merged = uf.union(ed.from, ed.to);
        proof {
            let l2 = kruskal_labels(n as nat, e, k + 1);
            assert(before.same_set(ed.from as int, ed.to as int) <==> l[ed.from as int] == l[ed.to as int]);
            assert forall|a: int, b: int| 0 <= a < n && 0 <= b < n implies (#[trigger] uf.same_set(a, b)
                <==> l2[a] == l2[b]) by {
                assert(joined_after(before, uf.same_set(a, b), merged, a, b, ed.from as int, ed.to as int));
                assert(before.same_set(a, b) <==> l[a] == l[b]);
                assert(before.same_set(a, ed.from as int) <==> l[a] == l[ed.from as int]);
                assert(before.same_set(b, ed.to as int) <==> l[b] == l[ed.to as int]);
                assert(before.same_set(a, ed.to as int) <==> l[a] == l[ed.to as int]);
                assert(before.same_set(b, ed.from as int) <==> l[b] == l[ed.from as int]);
            }
        }
        if merged {
            taken.push(k);
        } else {
            left.push(k);
        }
        k = k + 1;
    }
    (taken, left)
}


/// Kruskal's labels name each of the `n` rooms.
proof fn lemma_kruskal_labels_len(n: nat, e: Seq<MstEdge>, k: int)
    ensures
        kruskal_labels(n, e, k).len() == n,
    decreases k,
{
    if k > 0 {
        lemma_kruskal_labels_len(n, e, k - 1);
    }
}

/// Once Kruskal's algorithm has considered edge `j`, its two rooms share a
/// label, and keep sharing one.
proof fn lemma_kruskal_joins(n: nat, e: Seq<MstEdge>, j: int, k: int)
    requires
        edges_within(n as int, e),
        0 <= j < k <= e.len(),
    ensures
        kruskal_labels(n, e, k)[e[j].from as int] == kruskal_labels(n, e, k)[e[j].to as int],
    decreases k,
{
    lemma_kruskal_labels_len(n, e, k - 1);
    assert(e[j].from < n && e[j].to < n);
    if j < k - 1 {
        lemma_kruskal_joins(n, e, j, k - 1);
    }
}

/// The tree list holds every edge that Kruskal's algorithm takes.
proof fn lemma_kruskal_split_holds(n: nat, e: Seq<MstEdge>, k: int, j: int)
    requires
        0 <= j < k,
        kruskal_takes(n, e, j),
    ensures
        kruskal_split(n, e, k).0.contains(j as usize),
    decreases k,
{
    let prev = kruskal_split(n, e, k - 1);
    if j == k - 1 {
        assert(kruskal_split(n, e, k).0 == prev.0.push(j as usize));
        assert(kruskal_split(n, e, k).0[prev.0.len() as int] == j as usize);
    } else {
        lemma_kruskal_split_holds(n, e, k - 1, j);
        let i = choose|i: int| 0 <= i < prev.0.len() && prev.0[i] == j as usize;
        if kruskal_takes(n, e, k - 1) {
            assert(kruskal_split(n, e, k).0[i] == j as usize);
        }
    }
}

/// Rooms that Kruskal's algorithm has put in one set are joined on `m`,
/// once the corridor of each edge it takes joins its two rooms.
proof fn lemma_kruskal_connects(m: TileMap, c: Seq<Position>, n: nat, e: Seq<MstEdge>, k: int)
    requires
        c.len() == n,
        edges_within(n as int, e),
        0 <= k <= e.len(),
        forall|i: int| 0 <= i < n ==> m.walkable_at(#[trigger] c[i]),
        forall|j: int|
            0 <= j < e.len() && #[trigger] kruskal_takes(n, e, j) ==> connects(m, c[e[j].from as int], c[e[j].to as int]),
    ensures
        forall|a: int, b: int|
            #![trigger kruskal_labels(n, e, k)[a], kruskal_labels(n, e, k)[b]]
            0 <= a < n && 0 <= b < n && kruskal_labels(n, e, k)[a] == kruskal_labels(n, e, k)[b] ==> connects(
                m,
                c[a],
                c[b],
            ),
    decreases k,
{
    let l2 = kruskal_labels(n, e, k);
    if k <= 0 {
        assert forall|a: int, b: int|
            #![trigger l2[a], l2[b]]
            0 <= a < n && 0 <= b < n && l2[a] == l2[b] implies connects(m, c[a], c[b]) by {
            lemma_connects_refl(m, c[a]);
        }
    } else {
        lemma_kruskal_connects(m, c, n, e, k - 1);
        lemma_kruskal_labels_len(n, e, k - 1);
        let l = kruskal_labels(n, e, k - 1);
        let ed = e[k - 1];
        let f = ed.from as int;
        let t = ed.to as int;
        assert(f < n && t < n);
        if l[f] != l[t] {
            assert(kruskal_takes(n, e, k - 1));
            assert(connects(m, c[f], c[t]));
            lemma_connects_sym(m, c[f], c[t]);
            assert forall|a: int, b: int|
                #![trigger l2[a], l2[b]]
                0 <= a < n && 0 <= b < n && l2[a] == l2[b] implies connects(m, c[a], c[b]) by {
                assert(l[a] == l[a] && l[b] == l[b]);
                if l[a] == l[t] && l[b] == l[t] {
                    assert(connects(m, c[a], c[b]));
                } else if l[a] == l[t] {
                    // a is with t, b with f
                    assert(l[b] == l[f]);
                    assert(connects(m, c[a], c[t]));
                    assert(connects(m, c[f], c[b]));
                    lemma_connects_trans(m, c[a], c[t], c[f]);
                    lemma_connects_trans(m, c[a], c[f], c[b]);
                } else if l[b] == l[t] {
                    assert(l[a] == l[f]);
                    assert(connects(m, c[a], c[f]));
                    assert(connects(m, c[t], c[b]));
                    lemma_connects_trans(m, c[a], c[f], c[t]);
                    lemma_connects_trans(m, c[a], c[t], c[b]);
                } else {
                    assert(l[a] == l[b]);
                    assert(connects(m, c[a], c[b]));
                }
            }
        } else {
            assert(l2 == l);
        }
    }
}

/// Corridors carved along the tree join every room to the first, and stay
/// joined through later writes that close no tile.
proof fn lemma_rooms_joined(
    m0: TileMap,
    m1: TileMap,
    m: TileMap,
    c: Seq<Position>,
    e: Seq<MstEdge>,
    tree: Seq<usize>,
)
    requires
        keeps_walkable(m0, m1),
        keeps_walkable(m1, m),
        pair_edges_by_weight(c, e),
        e.len() <= usize::MAX,
        tree == kruskal_split(c.len(), e, e.len() as int).0,
        forall|i: int| 0 <= i < c.len() ==> m0.walkable_at(#[trigger] c[i]),
        forall|q: int|
            0 <= q < tree.len() ==> connects(
                m0,
                c[e[#[trigger] tree[q] as int].from as int],
                c[e[tree[q] as int].to as int],
            ),
    ensures
        forall|v: int| 0 <= v < c.len() ==> connects(m, c[0], #[trigger] c[v]),
{
    assert(keeps_walkable(m0, m)) by {
        assert forall|p: Position| #[trigger] m0.walkable_at(p) implies m.walkable_at(p) by {
            assert(m1.walkable_at(p));
        }
    }
    assert forall|i: int| 0 <= i < c.len() implies m.walkable_at(#[trigger] c[i]) by {
        assert(m0.walkable_at(c[i]));
    }
    assert forall|q: int| 0 <= q < tree.len() implies connects(
        m,
        c[e[#[trigger] tree[q] as int].from as int],
        c[e[tree[q] as int].to as int],
    ) by {
        lemma_connects_keep(m0, m, c[e[tree[q] as int].from as int], c[e[tree[q] as int].to as int]);
    }
    lemma_tree_joins_all(m, c, e, tree);
}

/// Once Kruskal's algorithm has seen every pair of rooms, the corridors of
/// the edges it took join every room to the first.
proof fn lemma_tree_joins_all(m: TileMap, c: Seq<Position>, e: Seq<MstEdge>, tree: Seq<usize>)
    requires
        pair_edges_by_weight(c, e),
        e.len() <= usize::MAX,
        tree == kruskal_split(c.len(), e, e.len() as int).0,
        forall|i: int| 0 <= i < c.len() ==> m.walkable_at(#[trigger] c[i]),
        forall|q: int|
            0 <= q < tree.len() ==> connects(
                m,
                c[e[#[trigger] tree[q] as int].from as int],
                c[e[tree[q] as int].to as int],
            ),
    ensures
        forall|v: int| 0 <= v < c.len() ==> connects(m, c[0], #[trigger] c[v]),
{
    let n = c.len();
    let k = e.len() as int;
    assert(edges_within(n as int, e)) by {
        assert forall|j: int| 0 <= j < e.len() implies (#[trigger] e[j]).from < n && e[j].to < n by {
            assert(pair_edge(c, e[j]));
        }
    }
    assert forall|j: int| 0 <= j < e.len() && #[trigger] kruskal_takes(n, e, j) implies connects(
        m,
        c[e[j].from as int],
        c[e[j].to as int],
    ) by {
        lemma_kruskal_split_holds(n, e, k, j);
        let q = choose|q: int| 0 <= q < tree.len() && tree[q] == j as usize;
        assert(tree[q] as int == j);
        assert(connects(m, c[e[tree[q] as int].from as int], c[e[tree[q] as int].to as int]));
    }
    lemma_kruskal_connects(m, c, n, e, k);
    lemma_kruskal_labels_len(n, e, k);
    assert forall|v: int| 0 <= v < c.len() implies connects(m, c[0], #[trigger] c[v]) by {
        let l = kruskal_labels(n, e, k);
        if v == 0 {
            lemma_connects_refl(m, c[0]);
        } else {
            assert(has_pair(e, 0, v));
            let j = choose|j: int| 0 <= j < e.len() && (#[trigger] e[j]).from == 0 && e[j].to == v;
            lemma_kruskal_joins(n, e, j, k);
            assert(l[0] == l[v]);
        }
    }
}

// ---------------------------------------------------------------------------
// Breadth-first distances over adjacency lists

/// Every listed neighbour is a node.
pub open spec fn adj_ok(adj: Seq<Vec<usize>>) -> bool {
    forall|u: int, k: int| 0 <= u < adj.len() && 0 <= k < adj[u]@.len() ==> (#[trigger] adj[u]@[k] as int)
        < adj.len()
}

/// `d` and `reach` are the breadth-first search from `start`: `reach` is the
/// set of nodes reachable along the lists, `d` their number of steps from
/// `start` (zero for the others). The local conditions below determine the
/// shortest step counts: each reached node other than `start` is one step
/// past a reached node, and no edge out of a reached node leads more than
/// one step farther.
pub open spec fn bfs_field(adj: Seq<Vec<usize>>, start: int, d: Seq<i32>, reach: Seq<bool>) -> bool {
    let n = adj.len();
    &&& d.len() == n
    &&& reach.len() == n
    &&& reach[start]
    &&& d[start] == 0
    &&& forall|v: int| 0 <= v < n && !reach[v] ==> #[trigger] d[v] == 0
    &&& forall|v: int| 0 <= v < n && reach[v] ==> 0 <= #[trigger] d[v]
    &&& forall|u: int, k: int|
        0 <= u < n && reach[u] && 0 <= k < adj[u]@.len() ==> reach[#[trigger] adj[u]@[k] as int] && d[adj[u]@[k] as int]
            <= d[u] + 1
    &&& forall|v: int|
        0 <= v < n && reach[v] && v != start ==> exists|u: int, k: int|
            0 <= u < n && reach[u] && 0 <= k < adj[u]@.len() && #[trigger] adj[u]@[k] == v && d[v]
                == d[u] + 1
}

pub open spec fn reached_set(reach: Seq<bool>) -> Set<int> {
    Set::new(|v: int| 0 <= v < reach.len() && reach[v])
}

proof fn lemma_reached_set_finite(reach: Seq<bool>)
    ensures
        reached_set(reach).finite(),
        reached_set(reach).len() <= reach.len(),
{
    vstd::set_lib::lemma_int_range(0, reach.len() as int);
    vstd::set_lib::lemma_len_subset(reached_set(reach), vstd::set_lib::set_int_range(0, reach.len() as int));
}

/// The search state: queued nodes are reached, distinct and in order of
/// distance, all within one step of the head; every reached node that is
/// neither queued nor `pending` has all its neighbours reached within one
/// step; each reached node other than `start` has a recorded predecessor.
pub open spec fn bfs_inv(
    adj: Seq<Vec<usize>>,
    start: int,
    d: Seq<i32>,
    reach: Seq<bool>,
    q: Seq<usize>,
    pending: int,
    pu: Seq<int>,
    pk: Seq<int>,
    seen: int,
    head: int,
) -> bool {
    let n = adj.len();
    &&& d.len() == n
    &&& reach.len() == n
    &&& pu.len() == n
    &&& pk.len() == n
    &&& 0 <= start < n
    &&& reach[start]
    &&& d[start] == 0
    &&& reached_set(reach).len() == seen
    &&& forall|v: int| 0 <= v < n && !reach[v] ==> #[trigger] d[v] == 0
    &&& forall|v: int| 0 <= v < n && reach[v] ==> 0 <= #[trigger] d[v] < seen && d[v] <= head + 1
    &&& forall|i: int| 0 <= i < q.len() ==> (#[trigger] q[i] as int) < n && reach[q[i] as int] && head <= d[q[i] as int]
    &&& forall|i: int, j: int| 0 <= i < j < q.len() ==> #[trigger] q[i] != #[trigger] q[j] && d[q[i] as int] <= d[q[j] as int]
    &&& forall|u: int, k: int|
        0 <= u < n && reach[u] && u != pending && !q.contains(u as usize) && 0 <= k < adj[u]@.len() ==> reach[#[trigger] adj[u]@[k] as int]
            && d[adj[u]@[k] as int] <= d[u] + 1
    &&& forall|v: int|
        0 <= v < n && reach[v] && v != start ==> 0 <= #[trigger] pu[v] < n && reach[pu[v]] && 0 <= pk[v]
            < adj[pu[v]]@.len() && adj[pu[v]]@[pk[v]] == v && d[v] == d[pu[v]] + 1
}

/// The distance of the head of the queue; past every distance once the
/// queue is empty.
pub open spec fn queue_head(q: Seq<usize>, d: Seq<i32>, seen: int) -> int {
    if q.len() > 0 {
        d[q[0] as int] as int
    } else {
        seen
    }
}

/// The visiting order of the search: each node once, and exactly the
/// reached nodes that have left the queue.
pub open spec fn order_sorted(order: Seq<usize>, d: Seq<i32>, queue: Seq<usize>) -> bool {
    &&& forall|i: int, j: int| 0 <= i <= j < order.len() ==> d[#[trigger] order[i] as int] <= d[#[trigger] order[j] as int]
    &&& forall|i: int, j: int| 0 <= i < order.len() && 0 <= j < queue.len() ==> d[#[trigger] order[i] as int] <= d[#[trigger] queue[j] as int]
}

pub open spec fn order_ok(order: Seq<usize>, reach: Seq<bool>, queue: Seq<usize>, n: int) -> bool {
    &&& order.no_duplicates()
    &&& forall|i: int| 0 <= i < order.len() ==> (#[trigger] order[i] as int) < n
    &&& forall|v: int| 0 <= v < n ==> (#[trigger] order.contains(v as usize) <==> (reach[v] && !queue.contains(v as usize)))
}

/// Breadth-first step counts from `start` along the adjacency lists, which
/// nodes were reached, and the order in which they were taken from the
/// queue (`start` first).
pub fn bfs_distances(start: usize, adj: &Vec<Vec<usize>>) -> (r: (Vec<i32>, Vec<bool>, Vec<usize>))
    requires
        start < adj@.len(),
        adj@.len() <= i32::MAX,
        adj_ok(adj@),
    ensures
        bfs_field(adj@, start as int, r.0@, r.1@),
        r.2@.no_duplicates(),
        r.2@.len() > 0,
        r.2@[0] == start,
        forall|i: int| 0 <= i < r.2@.len() ==> (#[trigger] r.2@[i] as int) < adj@.len(),
        forall|v: int| 0 <= v < adj@.len() ==> (#[trigger] r.2@.contains(v as usize) <==> r.1@[v]),
        forall|i: int, j: int| 0 <= i <= j < r.2@.len() ==> r.0@[#[trigger] r.2@[i] as int] <= r.0@[#[trigger] r.2@[j] as int],
{
    let n = adj.len();
    let ghost g = adj@;
    let mut dist: Vec<i32> = vec![0i32; n];
    let mut reach: Vec<bool> = vec![false; n];
    let mut queue: VecDeque<usize> = VecDeque::new();
    reach.set(start, true);
    queue.push_back(start);
    let mut seen: usize = 1;
    let mut order: Vec<usize> = Vec::new();
    let ghost mut pu: Seq<int> = Seq::new(n as nat, |i: int| 0);
    let ghost mut pk: Seq<int> = Seq::new(n as nat, |i: int| 0);
    proof {
        assert(reached_set(reach@) =~= set![start as int]);
    }
    while queue.len() > 0
        invariant
            n == g.len(),
            g == adj@,
            n <= i32::MAX,
            adj_ok(g),
            bfs_inv(g, start as int, dist@, reach@, queue@, -1, pu, pk, seen as int, queue_head(queue@, dist@, seen as int)),
            seen <= n,
            queue@.len() > 0 ==> dist@[queue@[queue@.len() - 1] as int] <= dist@[queue@[0] as int] + 1,
            order_ok(order@, reach@, queue@, n as int),
            order_sorted(order@, dist@, queue@),
            order@.len() == 0 ==> queue@.len() == 1 && queue@[0] == start,
            order@.len() > 0 ==> order@[0] == start,
        decreases (n - seen) + queue@.len(),
    {
        let ghost q0 = queue@;
        let ghost m0 = (n - seen) + queue@.len() - 1;
        let u = queue.pop_front().unwrap();
        let ghost head = dist@[u as int] as int;
        let ghost order0 = order@;
        order.push(u);
        proof {
            assert(!queue@.contains(u)) by {
                if queue@.contains(u) {
                    let i = choose|i: int| 0 <= i < queue@.len() && queue@[i] == u;
                    assert(q0[0] == q0[i + 1]);
                }
            }
            assert(q0.contains(u)) by {
                assert(q0[0] == u);
            }
            assert(!order0.contains(u)) by {
                assert((u as int) as usize == u);
                assert(order0.contains((u as int) as usize) <==> (reach@[u as int] && !q0.contains(
                    (u as int) as usize,
                )));
            }
            assert forall|a: int, b: int| 0 <= a < order@.len() && 0 <= b < order@.len() && a != b implies order@[a]
                != order@[b] by {
                if a < order0.len() && b < order0.len() {
                    assert(order0[a] != order0[b]);
                } else if a < order0.len() {
                    assert(order0.contains(order0[a]));
                } else {
                    assert(order0.contains(order0[b]));
                }
            }
            assert forall|i: int, j: int| 0 <= i <= j < order@.len() implies dist@[#[trigger] order@[i] as int]
                <= dist@[#[trigger] order@[j] as int] by {
                if j < order0.len() {
                    assert(order@[i] == order0[i] && order@[j] == order0[j]);
                } else if i < order0.len() {
                    assert(order@[i] == order0[i] && q0[0] == u);
                }
            }
            assert forall|i: int, j: int| 0 <= i < order@.len() && 0 <= j < queue@.len() implies dist@[
                #[trigger] order@[i] as int] <= dist@[#[trigger] queue@[j] as int] by {
                assert(queue@[j] == q0[j + 1]);
                if i < order0.len() {
                    assert(order@[i] == order0[i]);
                } else {
                    assert(q0[0] == u);
                }
            }
            assert forall|v: int| 0 <= v < n implies (#[trigger] order@.contains(v as usize) <==> (reach@[v]
                && !queue@.contains(v as usize))) by {
                if v as usize == u {
                    assert(order@[order0.len() as int] == u);
                } else {
                    if order@.contains(v as usize) {
                        let i = choose|i: int| 0 <= i < order@.len() && order@[i] == v as usize;
                        assert(order0[i] == v as usize);
                    }
                    if order0.contains(v as usize) {
                        let i = choose|i: int| 0 <= i < order0.len() && order0[i] == v as usize;
                        assert(order@[i] == v as usize);
                    }
                    if queue@.contains(v as usize) {
                        let i = choose|i: int| 0 <= i < queue@.len() && queue@[i] == v as usize;
                        assert(q0[i + 1] == v as usize);
                    }
                    if q0.contains(v as usize) {
                        let i = choose|i: int| 0 <= i < q0.len() && q0[i] == v as usize;
                        assert(i != 0);
                        assert(queue@[i - 1] == v as usize);
                    }
                }
            }
        }
        proof {
            lemma_reached_set_finite(reach@);
            assert forall|i: int| 0 <= i < queue@.len() implies dist@[#[trigger] queue@[i] as int] <= head + 1 by {
                assert(queue@[i] == q0[i + 1]);
                assert(dist@[q0[q0.len() - 1] as int] >= dist@[q0[i + 1] as int]);
            }
            assert(!queue@.contains(u)) by {
                if queue@.contains(u) {
                    let i = choose|i: int| 0 <= i < queue@.len() && queue@[i] == u;
                    assert(q0[0] == q0[i + 1]);
                }
            }
            assert forall|u2: int, k: int|
                0 <= u2 < n && reach@[u2] && u2 != u && !queue@.contains(u2 as usize) && 0 <= k < g[u2]@.len()
                implies reach@[#[trigger] g[u2]@[k] as int] && dist@[g[u2]@[k] as int] <= dist@[u2] + 1 by {
                assert(!q0.contains(u2 as usize)) by {
                    if q0.contains(u2 as usize) {
                        let i = choose|i: int| 0 <= i < q0.len() && q0[i] == u2 as usize;
                        assert(i != 0);
                        assert(queue@[i - 1] == q0[i]);
                    }
                }
            }
        }
        let nbrs = &adj[u];
        let mut k: usize = 0;
        while k < nbrs.len()
            invariant
                n == g.len(),
                g == adj@,
                n <= i32::MAX,
                adj_ok(g),
                u < n,
                nbrs@ == g[u as int]@,
                k <= nbrs@.len(),
                reach@[u as int],
                dist@[u as int] == head,
                !queue@.contains(u),
                seen <= n,
                (n - seen) + queue@.len() == m0,
                bfs_inv(g, start as int, dist@, reach@, queue@, u as int, pu, pk, seen as int, head),
                order_ok(order@, reach@, queue@, n as int),
                order_sorted(order@, dist@, queue@),
                order@.len() > 0,
                order@[0] == start,
                order@[order@.len() - 1] == u,
                forall|i: int| 0 <= i < queue@.len() ==> dist@[#[trigger] queue@[i] as int] <= head + 1,
                forall|j: int| 0 <= j < k ==> reach@[#[trigger] g[u as int]@[j] as int] && dist@[g[u as int]@[j] as int]
                    <= head + 1,
            decreases nbrs@.len() - k,
        {
            let v = nbrs[k];
            proof {
                assert(g[u as int]@[k as int] == v);
            }
            if !reach[v] {
                let ghost r0 = reach@;
                let ghost d0 = dist@;
                let ghost qq = queue@;
                proof {
                    lemma_reached_set_finite(r0);
                    assert(reached_set(r0).contains(u as int));
                    assert(!reached_set(r0).contains(v as int));
                    assert(reached_set(r0).insert(v as int).subset_of(vstd::set_lib::set_int_range(0, n as int)));
                    vstd::set_lib::lemma_int_range(0, n as int);
                    vstd::set_lib::lemma_len_subset(
                        reached_set(r0).insert(v as int),
                        vstd::set_lib::set_int_range(0, n as int),
                    );
                    assert(head < seen);
                }
                reach.set(v, true);
                dist.set(v, dist[u] + 1);
                queue.push_back(v);
                proof {
                    pu = pu.update(v as int, u as int);
                    pk = pk.update(v as int, k as int);
                    assert(reached_set(reach@) =~= reached_set(r0).insert(v as int));
                    assert(!qq.contains(v)) by {
                        if qq.contains(v) {
                            let i = choose|i: int| 0 <= i < qq.len() && qq[i] == v;
                        }
                    }
                    assert forall|i: int, j: int| 0 <= i < j < queue@.len() implies #[trigger] queue@[i]
                        != #[trigger] queue@[j] && dist@[queue@[i] as int] <= dist@[queue@[j] as int] by {
                        if j == queue@.len() - 1 {
                            assert(queue@[i] == qq[i]);
                        } else {
                            assert(queue@[i] == qq[i]);
                            assert(queue@[j] == qq[j]);
                        }
                    }
                    assert forall|i: int| 0 <= i < queue@.len() implies (#[trigger] queue@[i] as int) < n
                        && reach@[queue@[i] as int] && head <= dist@[queue@[i] as int] by {
                        if i < qq.len() {
                            assert(queue@[i] == qq[i]);
                        }
                    }
                    assert forall|u2: int, k2: int|
                        0 <= u2 < n && reach@[u2] && u2 != u && !queue@.contains(u2 as usize) && 0 <= k2
                            < g[u2]@.len() implies reach@[#[trigger] g[u2]@[k2] as int] && dist@[g[u2]@[k2] as int]
                        <= dist@[u2] + 1 by {
                        assert(u2 != v) by {
                            assert(queue@[queue@.len() - 1] == v);
                        }
                        assert(!qq.contains(u2 as usize)) by {
                            if qq.contains(u2 as usize) {
                                let i = choose|i: int| 0 <= i < qq.len() && qq[i] == u2 as usize;
                                assert(queue@[i] == qq[i]);
                            }
                        }
                        assert(r0[u2]);
                        assert(r0[g[u2]@[k2] as int]);
                    }
                    assert(!queue@.contains(u)) by {
                        if queue@.contains(u) {
                            let i = choose|i: int| 0 <= i < queue@.len() && queue@[i] == u;
                            if i < qq.len() {
                                assert(qq[i] == u);
                            }
                        }
                    }
                    assert forall|i: int| 0 <= i < queue@.len() implies dist@[#[trigger] queue@[i] as int] <= head + 1 by {
                        if i < qq.len() {
                            assert(queue@[i] == qq[i]);
                        }
                    }
                    assert(!order@.contains(v)) by {
                        assert((v as int) as usize == v);
                        assert(order@.contains((v as int) as usize) <==> (r0[v as int] && !qq.contains(
                            (v as int) as usize,
                        )));
                    }
                    assert forall|i: int, j: int| 0 <= i <= j < order@.len() implies dist@[#[trigger] order@[i] as int]
                        <= dist@[#[trigger] order@[j] as int] by {
                        assert(order@[i] != v && order@[j] != v) by {
                            assert(order@.contains(order@[i]) && order@.contains(order@[j]));
                        }
                        assert(d0[order@[i] as int] <= d0[order@[j] as int]);
                    }
                    assert forall|i: int, j: int| 0 <= i < order@.len() && 0 <= j < queue@.len() implies dist@[
                        #[trigger] order@[i] as int] <= dist@[#[trigger] queue@[j] as int] by {
                        assert(order@[i] != v) by {
                            assert(order@.contains(order@[i]));
                        }
                        assert(d0[order@[i] as int] <= d0[order@[order@.len() - 1] as int]);
                        if j < qq.len() {
                            assert(queue@[j] == qq[j]);
                            assert(qq[j] != v);
                        }
                    }
                    assert forall|w: int| 0 <= w < n implies (#[trigger] order@.contains(w as usize) <==> (reach@[w]
                        && !queue@.contains(w as usize))) by {
                        if w as usize == v {
                            assert(queue@[queue@.len() - 1] == v);
                        } else {
                            if queue@.contains(w as usize) {
                                let i = choose|i: int| 0 <= i < queue@.len() && queue@[i] == w as usize;
                                assert(qq[i] == w as usize);
                            }
                            if qq.contains(w as usize) {
                                let i = choose|i: int| 0 <= i < qq.len() && qq[i] == w as usize;
                                assert(queue@[i] == w as usize);
                            }
                        }
                    }
                }
                seen = seen + 1;
            }
            k = k + 1;
        }
        proof {
            let q1 = queue@;
            if q1.len() > 0 {
                let h2 = dist@[q1[0] as int] as int;
                assert(head <= h2);
                assert(dist@[q1[q1.len() - 1] as int] <= head + 1);
            }
            assert forall|u2: int, k2: int|
                0 <= u2 < n && reach@[u2] && !q1.contains(u2 as usize) && 0 <= k2 < g[u2]@.len() implies reach@[#[trigger] g[u2]@[k2] as int]
                && dist@[g[u2]@[k2] as int] <= dist@[u2] + 1 by {
                if u2 == u {
                    assert(g[u as int]@[k2] == g[u2]@[k2]);
                }
            }
            lemma_reached_set_finite(reach@);
            assert(seen <= n);
        }
    }
    proof {
        assert forall|v: int| 0 <= v < n && reach@[v] && v != start implies exists|u2: int, k2: int|
            0 <= u2 < n && reach@[u2] && 0 <= k2 < g[u2]@.len() && #[trigger] g[u2]@[k2] == v && dist@[v]
                == dist@[u2] + 1 by {
            assert(g[pu[v]]@[pk[v]] == v);
        }
        assert forall|v: int| 0 <= v < n implies (#[trigger] order@.contains(v as usize) <==> reach@[v]) by {
            if queue@.contains(v as usize) {
                let i = choose|i: int| 0 <= i < queue@.len() && queue@[i] == v as usize;
            }
        }
    }
    (dist, reach, order)
}

/// Every edge has its reverse: `u` is listed among the neighbours of each
/// of its neighbours.
pub open spec fn adj_sym(adj: Seq<Vec<usize>>) -> bool {
    forall|u: int, k: int|
        0 <= u < adj.len() && 0 <= k < adj[u]@.len() ==> adj[#[trigger] adj[u]@[k] as int]@.contains(u as usize)
}

/// What a search from `t` reaches, a search from `s` reaches too, once `s`
/// reaches `t`.
pub proof fn lemma_reach_within(
    adj: Seq<Vec<usize>>,
    s: int,
    ds: Seq<i32>,
    rs: Seq<bool>,
    t: int,
    dt: Seq<i32>,
    rt: Seq<bool>,
    v: int,
)
    requires
        adj_ok(adj),
        0 <= s < adj.len(),
        0 <= t < adj.len(),
        bfs_field(adj, s, ds, rs),
        bfs_field(adj, t, dt, rt),
        rs[t],
        0 <= v < adj.len(),
        rt[v],
    ensures
        rs[v],
    decreases dt[v],
{
    if v != t {
        let (u, k) = choose|u: int, k: int|
            0 <= u < adj.len() && rt[u] && 0 <= k < adj[u]@.len() && #[trigger] adj[u]@[k] == v && dt[v]
                == dt[u] + 1;
        assert(0 <= dt[u]);
        lemma_reach_within(adj, s, ds, rs, t, dt, rt, u);
        assert(rs[adj[u]@[k] as int]);
    }
}

/// With edges in both directions, a search from `t` gets back to `s` when
/// they share a node that `s` reaches.
pub proof fn lemma_reach_back(
    adj: Seq<Vec<usize>>,
    s: int,
    ds: Seq<i32>,
    rs: Seq<bool>,
    t: int,
    dt: Seq<i32>,
    rt: Seq<bool>,
    v: int,
)
    requires
        adj_ok(adj),
        adj_sym(adj),
        adj.len() <= usize::MAX,
        0 <= s < adj.len(),
        0 <= t < adj.len(),
        bfs_field(adj, s, ds, rs),
        bfs_field(adj, t, dt, rt),
        0 <= v < adj.len(),
        rs[v],
        rt[v],
    ensures
        rt[s],
    decreases ds[v],
{
    if v != s {
        let (u, k) = choose|u: int, k: int|
            0 <= u < adj.len() && rs[u] && 0 <= k < adj[u]@.len() && #[trigger] adj[u]@[k] == v && ds[v]
                == ds[u] + 1;
        assert(0 <= ds[u]);
        assert(adj[v]@.contains(u as usize));
        let j = choose|j: int| 0 <= j < adj[v]@.len() && #[trigger] adj[v]@[j] == u as usize;
        assert(rt[adj[v]@[j] as int]);
        assert((u as usize) as int == u);
        assert(rt[u]);
        lemma_reach_back(adj, s, ds, rs, t, dt, rt, u);
    }
}

/// With edges in both directions, searches from two nodes of one connected
/// part reach the same nodes.
pub proof fn lemma_reach_same(
    adj: Seq<Vec<usize>>,
    s: int,
    ds: Seq<i32>,
    rs: Seq<bool>,
    t: int,
    dt: Seq<i32>,
    rt: Seq<bool>,
)
    requires
        adj_ok(adj),
        adj_sym(adj),
        adj.len() <= usize::MAX,
        0 <= s < adj.len(),
        0 <= t < adj.len(),
        bfs_field(adj, s, ds, rs),
        bfs_field(adj, t, dt, rt),
        rs[t],
    ensures
        rs == rt,
{
    lemma_reach_back(adj, s, ds, rs, t, dt, rt, t);
    assert forall|v: int| 0 <= v < adj.len() implies rs[v] == rt[v] by {
        if rt[v] {
            lemma_reach_within(adj, s, ds, rs, t, dt, rt, v);
        }
        if rs[v] {
            lemma_reach_within(adj, t, dt, rt, s, ds, rs, v);
        }
    }
    assert(rs =~= rt);
}

/// The last node with the largest distance.
pub open spec fn last_farthest(d: Seq<i32>, r: int) -> bool {
    &&& 0 <= r < d.len()
    &&& forall|j: int| 0 <= j < d.len() ==> #[trigger] d[j] <= d[r]
    &&& forall|j: int| r < j < d.len() ==> #[trigger] d[j] < d[r]
}

/// The node farthest from `start` in breadth-first steps (the last one
/// among equals); unreached nodes count as distance zero.
pub fn bfs_farthest(start: usize, adj: &Vec<Vec<usize>>) -> (far: usize)
    requires
        start < adj@.len(),
        adj@.len() <= i32::MAX,
        adj_ok(adj@),
    ensures
        exists|d: Seq<i32>, reach: Seq<bool>| bfs_field(adj@, start as int, d, reach) && last_farthest(d, far as int),
{
    let (dist, reach, _order) = bfs_distances(start, adj);
    let mut best: usize = 0;
    let mut i: usize = 1;
    while i < dist.len()
        invariant
            dist@.len() == adj@.len(),
            1 <= i <= dist@.len(),
            best < i,
            forall|j: int| 0 <= j < i ==> #[trigger] dist@[j] <= dist@[best as int],
            forall|j: int| best < j < i ==> #[trigger] dist@[j] < dist@[best as int],
        decreases dist.len() - i,
    {
        if dist[i] >= dist[best] {
            best = i;
        }
        i = i + 1;
    }
    assert(bfs_field(adj@, start as int, dist@, reach@) && last_farthest(dist@, best as int));
    best
}


// ---------------------------------------------------------------------------
// Room placement

/// A generated room lies strictly inside a `w` by `h` map, its size between
/// five and ten tiles.
pub open spec fn room_fits(r: Room, w: int, h: int) -> bool {
    &&& 1 <= r.x
    &&& 1 <= r.y
    &&& 5 <= r.w <= 10
    &&& 5 <= r.h <= 10
    &&& r.x + r.w < w
    &&& r.y + r.h < h
}

pub open spec fn clamp_int(v: int, lo: int, hi: int) -> int {
    if v < lo {
        lo
    } else if v > hi {
        hi
    } else {
        v
    }
}

/// The number of room columns (or rows) of the region grid: `(size - margin)
/// / step`, clamped to `lo..=hi`.
fn region_count(size: i32, margin: i32, step: i32, lo: i32, hi: i32) -> (c: i32)
    requires
        0 <= size,
        0 <= margin <= 4,
        0 < step,
        0 < lo <= hi,
    ensures
        lo <= c <= hi,
        size < margin ==> c == lo,
        size >= margin ==> c == clamp_int((size - margin) / (step as int), lo as int, hi as int),
{
    let q = (size - margin) / step;
    if q < lo {
        lo
    } else if q > hi {
        hi
    } else {
        q
    }
}

/// Whether `room` keeps its distance from every room placed so far.
fn clear_of(rooms: &Vec<Room>, room: &Room) -> (b: bool)
    requires
        room_in_range(*room),
        forall|k: int| 0 <= k < rooms@.len() ==> room_in_range(#[trigger] rooms@[k]),
    ensures
        b == forall|k: int| 0 <= k < rooms@.len() ==> !rooms_overlap(*room, #[trigger] rooms@[k]),
{
    let mut k: usize = 0;
    while k < rooms.len()
        invariant
            k <= rooms@.len(),
            room_in_range(*room),
            forall|j: int| 0 <= j < rooms@.len() ==> room_in_range(#[trigger] rooms@[j]),
            forall|j: int| 0 <= j < k ==> !rooms_overlap(*room, #[trigger] rooms@[j]),
        decreases rooms.len() - k,
    {
        if room.overlaps(&rooms[k]) {
            return false;
        }
        k = k + 1;
    }
    true
}

/// No tile of `m` is a `t`.
pub open spec fn lacks_tile(m: TileMap, t: TileType) -> bool {
    forall|q: Position| #[trigger] m.spec_contains(q) ==> m.tile_at(q) != t
}

/// Columns of the grid of regions rooms are placed in, for a map `width`
/// wide: one per eleven tiles past a margin of four, two to five.
pub open spec fn grid_cols(width: int) -> int {
    if width < 4 {
        2
    } else {
        clamp_int((width - 4) / 11, 2, 5)
    }
}

/// Rows of the grid of regions, for a map `height` tall: one per ten tiles
/// past a margin of four, two to four.
pub open spec fn grid_rows(height: int) -> int {
    if height < 4 {
        2
    } else {
        clamp_int((height - 4) / 10, 2, 4)
    }
}

/// The width of a region: the map's inner width shared among the columns.
pub open spec fn cell_w(width: int) -> int {
    if width < 2 {
        0
    } else {
        (width - 2) / grid_cols(width)
    }
}

/// The height of a region.
pub open spec fn cell_h(height: int) -> int {
    if height < 2 {
        0
    } else {
        (height - 2) / grid_rows(height)
    }
}

/// Regions large enough that any room fits in one with a tile to spare.
pub open spec fn roomy_grid(width: int, height: int) -> bool {
    cell_w(width) >= 11 && cell_h(height) >= 11
}

/// Room `r` lies in region `(cx, cy)` of the grid, a tile short of its far
/// sides.
pub open spec fn in_region(r: Room, width: int, height: int, cx: int, cy: int) -> bool {
    let ox = 1 + cx * cell_w(width);
    let oy = 1 + cy * cell_h(height);
    &&& ox <= r.x
    &&& r.x + r.w <= ox + cell_w(width) - 1
    &&& oy <= r.y
    &&& r.y + r.h <= oy + cell_h(height) - 1
}

/// Room `r` lies in some region of the grid.
pub open spec fn in_some_region(r: Room, width: int, height: int) -> bool {
    exists|cx: int, cy: int|
        0 <= cx < grid_cols(width) && 0 <= cy < grid_rows(height) && #[trigger] in_region(r, width, height, cx, cy)
}

/// Every room lies in a region of the grid.
pub open spec fn rooms_in_regions(rooms: Seq<Room>, width: int, height: int) -> bool {
    forall|k: int| 0 <= k < rooms.len() ==> #[trigger] in_some_region(rooms[k], width, height)
}

/// Some room of `rooms` covers `p`.
pub open spec fn in_some_room(rooms: Seq<Room>, p: Position) -> bool {
    exists|k: int| 0 <= k < rooms.len() && in_room(#[trigger] rooms[k], p)
}

proof fn lemma_in_some_room_push(rooms: Seq<Room>, r: Room, p: Position)
    ensures
        in_some_room(rooms.push(r), p) <==> in_some_room(rooms, p) || in_room(r, p),
{
    let rs = rooms.push(r);
    if in_some_room(rooms, p) {
        let k = choose|k: int| 0 <= k < rooms.len() && in_room(#[trigger] rooms[k], p);
        assert(rs[k] == rooms[k]);
    }
    if in_room(r, p) {
        assert(rs[rooms.len() as int] == r);
    }
    if in_some_room(rs, p) {
        let k = choose|k: int| 0 <= k < rs.len() && in_room(#[trigger] rs[k], p);
        if k < rooms.len() {
            assert(rs[k] == rooms[k]);
        }
    }
}

/// Rooms in different regions keep apart.
proof fn lemma_regions_apart(a: Room, b: Room, width: int, height: int, ax: int, ay: int, bx: int, by: int)
    requires
        cell_w(width) >= 0,
        cell_h(height) >= 0,
        in_region(a, width, height, ax, ay),
        in_region(b, width, height, bx, by),
        ay < by || (ay == by && ax < bx),
    ensures
        !rooms_overlap(b, a),
        !rooms_overlap(a, b),
{
    let cw = cell_w(width);
    let ch = cell_h(height);
    if ay < by {
        assert(ay * ch + ch <= by * ch) by (nonlinear_arith)
            requires
                ay < by,
                ch >= 0,
        ;
    } else {
        assert(ax * cw + cw <= bx * cw) by (nonlinear_arith)
            requires
                ax < bx,
                cw >= 0,
        ;
    }
}

/// Carving a room that fits the map opens its center and closes nothing.
proof fn lemma_carve_opens_center(m0: TileMap, m1: TileMap, room: Room, w: int, h: int)
    requires
        m0.spec_width() == w,
        m0.spec_height() == h,
        m1.spec_width() == w,
        m1.spec_height() == h,
        w <= i32::MAX,
        h <= i32::MAX,
        room_fits(room, w, h),
        forall|p: Position| #[trigger] m1.spec_contains(p) ==> m1.tile_at(p) == (if in_room(room, p) {
            TileType::Floor
        } else {
            m0.tile_at(p)
        }),
    ensures
        keeps_walkable(m0, m1),
        m1.walkable_at(center_of(room)),
{
    assert forall|p: Position| #[trigger] m0.walkable_at(p) implies m1.walkable_at(p) by {
        assert(m1.spec_contains(p));
    }
    let c = center_of(room);
    assert(c.x == room.x + room.w / 2 && c.y == room.y + room.h / 2);
    assert(m1.spec_contains(c));
    assert(in_room(room, c));
}

/// The room one attempt draws in a region whose top-left tile is
/// `(rx0, ry0)` and whose size is `rw` by `rh`, after the draws `d`: its
/// width, then its height, in `5..11`, then its left and top edge so that it
/// stays inside the region where it can (at least one tile of slack); with
/// the draws after it.
pub open spec fn attempt_room(seed: u64, d: Seq<(i32, i32)>, rx0: int, ry0: int, rw: int, rh: int) -> (Room, Seq<(i32, i32)>) {
    let w = seeded_draw(seed, d, 5, 11);
    let d1 = d.push((5i32, 11i32));
    let h = seeded_draw(seed, d1, 5, 11);
    let d2 = d1.push((5i32, 11i32));
    let x_hi = if rx0 + rw - w > rx0 + 1 {
        rx0 + rw - w
    } else {
        rx0 + 1
    };
    let y_hi = if ry0 + rh - h > ry0 + 1 {
        ry0 + rh - h
    } else {
        ry0 + 1
    };
    let x = seeded_draw(seed, d2, rx0 as i32, x_hi as i32);
    let d3 = d2.push((rx0 as i32, x_hi as i32));
    let y = seeded_draw(seed, d3, ry0 as i32, y_hi as i32);
    let d4 = d3.push((ry0 as i32, y_hi as i32));
    (Room { x, y, w, h, kind: RoomType::Combat }, d4)
}

/// A drawn room is kept when its far corner lies on the map and it
/// overlaps no room placed before.
pub open spec fn room_kept(r: Room, rooms: Seq<Room>, width: int, height: int) -> bool {
    &&& 0 <= r.x + r.w < width
    &&& 0 <= r.y + r.h < height
    &&& forall|k: int| 0 <= k < rooms.len() ==> !rooms_overlap(r, #[trigger] rooms[k])
}

/// The attempts in one region from attempt `a` on (twenty in all): the
/// first room kept is placed and ends the region. The rooms and the draws
/// after it.
pub open spec fn region_rooms(
    seed: u64,
    d: Seq<(i32, i32)>,
    rooms: Seq<Room>,
    rx0: int,
    ry0: int,
    rw: int,
    rh: int,
    width: int,
    height: int,
    a: int,
) -> (Seq<Room>, Seq<(i32, i32)>)
    decreases 20 - a,
{
    if a < 0 || a >= 20 {
        (rooms, d)
    } else {
        let (r, d2) = attempt_room(seed, d, rx0, ry0, rw, rh);
        if room_kept(r, rooms, width, height) {
            (rooms.push(r), d2)
        } else {
            region_rooms(seed, d2, rooms, rx0, ry0, rw, rh, width, height, a + 1)
        }
    }
}

/// The regions of a `width` by `height` map from column `rx` of row `ry`
/// on, row by row: the rooms placed and the draws after them.
pub open spec fn regions_from(
    seed: u64,
    d: Seq<(i32, i32)>,
    rooms: Seq<Room>,
    width: int,
    height: int,
    rx: int,
    ry: int,
) -> (Seq<Room>, Seq<(i32, i32)>)
    decreases grid_rows(height) - ry, grid_cols(width) - rx,
{
    if ry < 0 || ry >= grid_rows(height) || rx < 0 {
        (rooms, d)
    } else if rx >= grid_cols(width) {
        regions_from(seed, d, rooms, width, height, 0, ry + 1)
    } else {
        let rw = cell_w(width);
        let rh = cell_h(height);
        let (rooms2, d2) = region_rooms(seed, d, rooms, 1 + rx * rw, 1 + ry * rh, rw, rh, width, height, 0);
        regions_from(seed, d2, rooms2, width, height, rx + 1, ry)
    }
}

/// The rooms a generator seeded with `seed` places on a `width` by `height`
/// map after the draws `d`, and the draws after them.
pub open spec fn drawn_rooms(seed: u64, d: Seq<(i32, i32)>, width: int, height: int) -> (Seq<Room>, Seq<(i32, i32)>) {
    regions_from(seed, d, Seq::empty(), width, height, 0, 0)
}

/// Tries up to twenty random rooms in each region of the grid and carves the
/// first that fits inside the map and keeps clear of the rooms before it.
fn place_rooms(map: &mut TileMap, rng: &mut SeededRng, width: i32, height: i32) -> (rooms: Vec<Room>)
    requires
        old(map).wf(),
        old(map).spec_width() == width,
        old(map).spec_height() == height,
        0 <= width <= i32::MAX - 16,
        0 <= height <= i32::MAX - 16,
        lacks_tile(*old(map), TileType::StairsDown),
    ensures
        final(map).wf(),
        final(map).spec_width() == width,
        final(map).spec_height() == height,
        lacks_tile(*final(map), TileType::StairsDown),
        rooms@.len() <= 20,
        forall|k: int| 0 <= k < rooms@.len() ==> room_fits(#[trigger] rooms@[k], width as int, height as int),
        forall|a: int, b: int| 0 <= a < b < rooms@.len() ==> !rooms_overlap(#[trigger] rooms@[b], #[trigger] rooms@[a]),
        forall|k: int| 0 <= k < rooms@.len() ==> final(map).walkable_at(center_of(#[trigger] rooms@[k])),
        forall|p: Position| #[trigger] final(map).spec_contains(p) ==> final(map).tile_at(p) == (if in_some_room(rooms@, p) {
            TileType::Floor
        } else {
            old(map).tile_at(p)
        }),
        roomy_grid(width as int, height as int) ==> rooms@.len() == grid_cols(width as int) * grid_rows(height as int),
        roomy_grid(width as int, height as int) ==> rooms_in_regions(rooms@, width as int, height as int),
        final(rng).seed() == old(rng).seed(),
        rooms@ == drawn_rooms(old(rng).seed(), old(rng).draws(), width as int, height as int).0,
        final(rng).draws() == drawn_rooms(old(rng).seed(), old(rng).draws(), width as int, height as int).1,
{
    let ghost m_init = *map;
    let ghost seed0 = rng.seed();
    let ghost total = drawn_rooms(seed0, rng.draws(), width as int, height as int);
    let cols = region_count(width, 4, 11, 2, 5);
    let rows = region_count(height, 4, 10, 2, 4);
    let region_w = if width >= 2 {
        (width - 2) / cols
    } else {
        0
    };
    let region_h = if height >= 2 {
        (height - 2) / rows
    } else {
        0
    };
    proof {
        if width >= 2 {
            let a = (width - 2) as int;
            assert(region_w == a / (cols as int));
            assert(0 <= region_w <= width && cols * region_w <= width - 2) by (nonlinear_arith)
                requires
                    region_w == a / (cols as int),
                    a == width - 2,
                    2 <= cols,
                    0 <= a,
            ;
        } else {
            assert(-1 <= region_w <= 0);
        }
        if height >= 2 {
            let a = (height - 2) as int;
            assert(region_h == a / (rows as int));
            assert(0 <= region_h <= height && rows * region_h <= height - 2) by (nonlinear_arith)
                requires
                    region_h == a / (rows as int),
                    a == height - 2,
                    2 <= rows,
                    0 <= a,
            ;
        } else {
            assert(-1 <= region_h <= 0);
        }
    }
    let ghost big = region_w >= 11 && region_h >= 11;
    proof {
        assert(cols == grid_cols(width as int));
        assert(rows == grid_rows(height as int));
        assert(big <==> roomy_grid(width as int, height as int));
        assert(big ==> region_w == cell_w(width as int) && region_h == cell_h(height as int));
    }
    let ghost mut cells: Seq<(int, int)> = seq![];
    let mut rooms: Vec<Room> = Vec::new();
    let mut ry: i32 = 0;
    proof {
        assert(region_w == cell_w(width as int));
        assert(region_h == cell_h(height as int));
    }
    while ry < rows
        invariant
            rng.seed() == seed0,
            regions_from(seed0, rng.draws(), rooms@, width as int, height as int, 0, ry as int) == total,
            region_w == cell_w(width as int),
            region_h == cell_h(height as int),
            map.wf(),
            map.spec_width() == width,
            map.spec_height() == height,
            0 <= width <= i32::MAX - 16,
            0 <= height <= i32::MAX - 16,
            2 <= cols <= 5,
            2 <= rows <= 4,
            -1 <= region_w <= width,
            -1 <= region_h <= height,
            cols * region_w <= width - 2 || width < 2,
            rows * region_h <= height - 2 || height < 2,
            width >= 2 ==> region_w >= 0,
            height >= 2 ==> region_h >= 0,
            width < 2 ==> region_w <= 0,
            height < 2 ==> region_h <= 0,
            0 <= ry <= rows,
            rooms@.len() <= ry * cols,
            forall|k: int| 0 <= k < rooms@.len() ==> room_fits(#[trigger] rooms@[k], width as int, height as int),
            forall|a: int, b: int| 0 <= a < b < rooms@.len() ==> !rooms_overlap(#[trigger] rooms@[b], #[trigger] rooms@[a]),
            forall|k: int| 0 <= k < rooms@.len() ==> map.walkable_at(center_of(#[trigger] rooms@[k])),
            lacks_tile(*map, TileType::StairsDown),
            m_init.wf(),
            m_init.spec_width() == width,
            m_init.spec_height() == height,
            forall|p: Position| #[trigger] map.spec_contains(p) ==> map.tile_at(p) == (if in_some_room(rooms@, p) {
                TileType::Floor
            } else {
                m_init.tile_at(p)
            }),
            cols == grid_cols(width as int),
            rows == grid_rows(height as int),
            big <==> roomy_grid(width as int, height as int),
            big <==> region_w >= 11 && region_h >= 11,
            big ==> region_w == cell_w(width as int) && region_h == cell_h(height as int),
            cells.len() == rooms@.len(),
            forall|k: int| 0 <= k < cells.len() ==> 0 <= (#[trigger] cells[k]).0 < cols && 0 <= cells[k].1 < ry,
            big ==> forall|k: int| 0 <= k < cells.len() ==> #[trigger] in_region(rooms@[k], width as int, height as int, cells[k].0, cells[k].1),
            big ==> rooms@.len() == ry * cols,
        decreases rows - ry,
    {
        let mut rx: i32 = 0;
        while rx < cols
            invariant
                rng.seed() == seed0,
                regions_from(seed0, rng.draws(), rooms@, width as int, height as int, rx as int, ry as int) == total,
                region_w == cell_w(width as int),
                region_h == cell_h(height as int),
                map.wf(),
                map.spec_width() == width,
                map.spec_height() == height,
                0 <= width <= i32::MAX - 16,
                0 <= height <= i32::MAX - 16,
                2 <= cols <= 5,
                2 <= rows <= 4,
                -1 <= region_w <= width,
                -1 <= region_h <= height,
                cols * region_w <= width - 2 || width < 2,
                rows * region_h <= height - 2 || height < 2,
                width >= 2 ==> region_w >= 0,
                height >= 2 ==> region_h >= 0,
                width < 2 ==> region_w <= 0,
                height < 2 ==> region_h <= 0,
                0 <= ry < rows,
                0 <= rx <= cols,
                rooms@.len() <= ry * cols + rx,
                forall|k: int| 0 <= k < rooms@.len() ==> room_fits(#[trigger] rooms@[k], width as int, height as int),
                forall|a: int, b: int| 0 <= a < b < rooms@.len() ==> !rooms_overlap(#[trigger] rooms@[b], #[trigger] rooms@[a]),
                forall|k: int| 0 <= k < rooms@.len() ==> map.walkable_at(center_of(#[trigger] rooms@[k])),
                lacks_tile(*map, TileType::StairsDown),
                m_init.wf(),
                m_init.spec_width() == width,
                m_init.spec_height() == height,
                forall|p: Position| #[trigger] map.spec_contains(p) ==> map.tile_at(p) == (if in_some_room(rooms@, p) {
                    TileType::Floor
                } else {
                    m_init.tile_at(p)
                }),
                cols == grid_cols(width as int),
                rows == grid_rows(height as int),
                big <==> roomy_grid(width as int, height as int),
                big <==> region_w >= 11 && region_h >= 11,
                big ==> region_w == cell_w(width as int) && region_h == cell_h(height as int),
                cells.len() == rooms@.len(),
                forall|k: int| 0 <= k < cells.len() ==> 0 <= (#[trigger] cells[k]).0 < cols && 0 <= cells[k].1 <= ry && (
                    cells[k].1 < ry || cells[k].0 < rx),
                big ==> forall|k: int| 0 <= k < cells.len() ==> #[trigger] in_region(rooms@[k], width as int, height as int, cells[k].0, cells[k].1),
                big ==> rooms@.len() == ry * cols + rx,
            decreases cols - rx,
        {
            proof {
                assert(-5 <= rx * region_w <= width) by (nonlinear_arith)
                    requires
                        0 <= rx < cols,
                        cols <= 5,
                        -1 <= region_w <= width,
                        cols * region_w <= width - 2 || width < 2,
                        width < 2 ==> region_w <= 0,
                        0 <= width,
                ;
                assert(-4 <= ry * region_h <= height) by (nonlinear_arith)
                    requires
                        0 <= ry < rows,
                        rows <= 4,
                        -1 <= region_h <= height,
                        rows * region_h <= height - 2 || height < 2,
                        height < 2 ==> region_h <= 0,
                        0 <= height,
                ;
                assert(rx * region_w + region_w <= width - 2 || width < 2) by (nonlinear_arith)
                    requires
                        0 <= rx < cols,
                        cols * region_w <= width - 2 || width < 2,
                        -1 <= region_w,
                ;
                assert(ry * region_h + region_h <= height - 2 || height < 2) by (nonlinear_arith)
                    requires
                        0 <= ry < rows,
                        rows * region_h <= height - 2 || height < 2,
                        -1 <= region_h,
                ;
                assert(width >= 2 ==> rx * region_w >= 0) by (nonlinear_arith)
                    requires
                        0 <= rx,
                        width >= 2 ==> region_w >= 0,
                ;
                assert(height >= 2 ==> ry * region_h >= 0) by (nonlinear_arith)
                    requires
                        0 <= ry,
                        height >= 2 ==> region_h >= 0,
                ;
            }
            let region_x = 1 + rx * region_w;
            let region_y = 1 + ry * region_h;
            let mut attempt: u32 = 0;
            let ghost base = rooms@.len();
            let ghost reg = region_rooms(
                seed0,
                rng.draws(),
                rooms@,
                region_x as int,
                region_y as int,
                region_w as int,
                region_h as int,
                width as int,
                height as int,
                0,
            );
            assert(regions_from(seed0, rng.draws(), rooms@, width as int, height as int, rx as int, ry as int)
                == regions_from(seed0, reg.1, reg.0, width as int, height as int, rx + 1, ry as int));
            while attempt < 20
                invariant_except_break
                    rooms@.len() == base,
                    region_rooms(
                        seed0,
                        rng.draws(),
                        rooms@,
                        region_x as int,
                        region_y as int,
                        region_w as int,
                        region_h as int,
                        width as int,
                        height as int,
                        attempt as int,
                    ) == reg,
                    big ==> attempt == 0,
                    cells.len() == base,
                invariant
                    rng.seed() == seed0,
                    map.wf(),
                    map.spec_width() == width,
                    map.spec_height() == height,
                    0 <= width <= i32::MAX - 16,
                    0 <= height <= i32::MAX - 16,
                    -4 <= region_x <= width + 1,
                    -3 <= region_y <= height + 1,
                    region_x + region_w <= width - 1 || width < 2,
                    region_y + region_h <= height - 1 || height < 2,
                    width >= 2 ==> region_x >= 1,
                    height >= 2 ==> region_y >= 1,
                    -1 <= region_w <= width,
                    -1 <= region_h <= height,
                    forall|k: int| 0 <= k < rooms@.len() ==> room_fits(#[trigger] rooms@[k], width as int, height as int),
                    forall|a: int, b: int| 0 <= a < b < rooms@.len() ==> !rooms_overlap(#[trigger] rooms@[b], #[trigger] rooms@[a]),
                    forall|k: int| 0 <= k < rooms@.len() ==> map.walkable_at(center_of(#[trigger] rooms@[k])),
                    lacks_tile(*map, TileType::StairsDown),
                    m_init.wf(),
                    m_init.spec_width() == width,
                    m_init.spec_height() == height,
                    forall|p: Position| #[trigger] map.spec_contains(p) ==> map.tile_at(p) == (if in_some_room(rooms@, p) {
                        TileType::Floor
                    } else {
                        m_init.tile_at(p)
                    }),
                    0 <= rx < cols,
                    0 <= ry < rows,
                    region_x == 1 + rx * region_w,
                    region_y == 1 + ry * region_h,
                    big <==> region_w >= 11 && region_h >= 11,
                    big ==> region_w == cell_w(width as int) && region_h == cell_h(height as int),
                    cells.len() == rooms@.len(),
                    forall|k: int| 0 <= k < cells.len() ==> 0 <= (#[trigger] cells[k]).0 < cols && 0 <= cells[k].1 < rows && (
                        cells[k].1 < ry || (cells[k].1 == ry && cells[k].0 <= rx)) && (k < base ==> cells[k].1 < ry || cells[k].0 < rx),
                    big ==> forall|k: int| 0 <= k < cells.len() ==> #[trigger] in_region(rooms@[k], width as int, height as int, cells[k].0, cells[k].1),
                ensures
                    rooms@.len() <= base + 1,
                    big ==> rooms@.len() == base + 1,
                    rooms@ == reg.0,
                    rng.draws() == reg.1,
                decreases 20 - attempt,
            {
                let ghost d_before = rng.draws();
                let w = rng_range(rng, 5, 11);
                let h = rng_range(rng, 5, 11);
                let x_hi = if region_x + region_w - w > region_x + 1 {
                    region_x + region_w - w
                } else {
                    region_x + 1
                };
                let y_hi = if region_y + region_h - h > region_y + 1 {
                    region_y + region_h - h
                } else {
                    region_y + 1
                };
                let x = rng_range(rng, region_x, x_hi);
                let y = rng_range(rng, region_y, y_hi);
                let room = Room { x, y, w, h, kind: RoomType::Combat };
                assert(attempt_room(seed0, d_before, region_x as int, region_y as int, region_w as int, region_h as int)
                    == (room, rng.draws()));
                proof {
                    assert forall|k: int| 0 <= k < rooms@.len() implies room_in_range(#[trigger] rooms@[k]) by {
                        assert(room_fits(rooms@[k], width as int, height as int));
                    }
                }
                proof {
                    if big {
                        assert(x + w <= region_x + region_w - 1 && y + h <= region_y + region_h - 1);
                        assert(in_region(room, width as int, height as int, rx as int, ry as int));
                        assert(map.spec_contains(Position { x: (x + w) as i32, y: (y + h) as i32 }));
                        assert forall|k: int| 0 <= k < rooms@.len() implies !rooms_overlap(room, #[trigger] rooms@[k]) by {
                            assert(in_region(rooms@[k], width as int, height as int, cells[k].0, cells[k].1));
                            lemma_regions_apart(rooms@[k], room, width as int, height as int, cells[k].0, cells[k].1, rx as int, ry as int);
                        }
                    }
                }
                if map.contains(Position::new(x + w, y + h)) && clear_of(&rooms, &room) {
                    let ghost m0 = *map;
                    map.carve_room(&room);
                    let ghost before = rooms@;
                    rooms.push(room);
                    proof {
                        assert forall|p: Position| #[trigger] map.spec_contains(p) implies map.tile_at(p) == (if in_some_room(
                            rooms@,
                            p,
                        ) {
                            TileType::Floor
                        } else {
                            m_init.tile_at(p)
                        }) by {
                            assert(m0.spec_contains(p));
                            lemma_in_some_room_push(before, room, p);
                        }
                        cells = cells.push((rx as int, ry as int));
                        if big {
                            assert forall|k: int| 0 <= k < cells.len() implies #[trigger] in_region(
                                rooms@[k],
                                width as int,
                                height as int,
                                cells[k].0,
                                cells[k].1,
                            ) by {
                                if k < before.len() {
                                    assert(rooms@[k] == before[k]);
                                    assert(cells[k] == cells.drop_last()[k]);
                                } else {
                                    assert(rooms@[k] == room);
                                }
                            }
                        }
                        assert forall|k: int| 0 <= k < cells.len() implies 0 <= (#[trigger] cells[k]).0 < cols && 0 <= cells[k].1
                            < rows && (cells[k].1 < ry || (cells[k].1 == ry && cells[k].0 <= rx)) && (k < base ==> cells[k].1 < ry
                            || cells[k].0 < rx) by {
                            if k < before.len() {
                                assert(cells[k] == cells.drop_last()[k]);
                            }
                        }
                        lemma_carve_opens_center(m0, *map, room, width as int, height as int);
                        assert forall|q: Position| #[trigger] map.spec_contains(q) implies map.tile_at(q)
                            != TileType::StairsDown by {
                            assert(m0.spec_contains(q));
                        }
                        assert forall|k: int| 0 <= k < rooms@.len() implies map.walkable_at(
                            center_of(#[trigger] rooms@[k]),
                        ) by {
                            if k < before.len() {
                                assert(m0.walkable_at(center_of(before[k])));
                            }
                        }
                        assert forall|a: int, b: int| 0 <= a < b < rooms@.len() implies !rooms_overlap(
                            #[trigger] rooms@[b],
                            #[trigger] rooms@[a],
                        ) by {
                            if b == rooms@.len() - 1 {
                                assert(rooms@[a] == before[a]);
                            } else {
                                assert(rooms@[a] == before[a]);
                                assert(rooms@[b] == before[b]);
                            }
                        }
                    }
                    break;
                }
                attempt = attempt + 1;
            }
            proof {
                assert(rooms@.len() <= ry * cols + rx + 1);
                assert forall|k: int| 0 <= k < cells.len() implies 0 <= (#[trigger] cells[k]).0 < cols && 0 <= cells[k].1 <= ry
                    && (cells[k].1 < ry || cells[k].0 < rx + 1) by {
                }
            }
            rx = rx + 1;
        }
        assert(regions_from(seed0, rng.draws(), rooms@, width as int, height as int, rx as int, ry as int)
            == regions_from(seed0, rng.draws(), rooms@, width as int, height as int, 0, ry + 1));
        proof {
            assert(rooms@.len() <= ry * cols + cols);
            assert(ry * cols + cols == (ry + 1) * cols) by (nonlinear_arith);
            assert forall|k: int| 0 <= k < cells.len() implies 0 <= (#[trigger] cells[k]).0 < cols && 0 <= cells[k].1 < ry + 1 by {
            }
        }
        ry = ry + 1;
    }
    proof {
        assert(rows * cols <= 20) by (nonlinear_arith)
            requires
                2 <= cols <= 5,
                2 <= rows <= 4,
        ;
        if big {
            assert(rows * cols == grid_cols(width as int) * grid_rows(height as int)) by (nonlinear_arith)
                requires
                    rows == grid_rows(height as int),
                    cols == grid_cols(width as int),
            ;
            assert forall|k: int| 0 <= k < rooms@.len() implies #[trigger] in_some_region(
                rooms@[k],
                width as int,
                height as int,
            ) by {
                assert(in_region(rooms@[k], width as int, height as int, cells[k].0, cells[k].1));
                assert(0 <= cells[k].0 < grid_cols(width as int));
                assert(0 <= cells[k].1 < grid_rows(height as int));
            }
            assert(rooms_in_regions(rooms@, width as int, height as int));
        }
        assert(big <==> roomy_grid(width as int, height as int));
    }
    rooms
}


// ---------------------------------------------------------------------------
// The room-and-corridor generator

/// How many corridors beyond the spanning tree a level gets: fifteen
/// percent of the `r` unused candidates, rounded up. The product is taken in
/// single precision, and its rounding passes the next integer at 100 and at
/// 180 candidates.
pub open spec fn extra_loops(r: int) -> int {
    (3 * r + 19) / 20 + if r == 100 || r == 180 {
        1int
    } else {
        0int
    }
}

/// The number of extra corridors for `remaining` unused candidates (at most
/// the 190 pairs of twenty rooms).
pub fn extra_loop_count(remaining: usize) -> (c: usize)
    requires
        remaining <= 190,
    ensures
        c == extra_loops(remaining as int),
        c <= remaining,
{
    let base = (3 * remaining + 19) / 20;
    if remaining == 100 || remaining == 180 {
        base + 1
    } else {
        base
    }
}

/// The chance in percent that a room becomes a boss room at `depth`.
pub open spec fn boss_odds(depth: u32) -> int {
    if depth == 1 {
        0
    } else if 2 <= depth <= 3 {
        15
    } else {
        25
    }
}

/// The chance in percent, on top of `boss_odds`, that a room becomes a
/// treasure room at `depth`.
pub open spec fn treasure_odds(depth: u32) -> int {
    if depth == 1 {
        30
    } else if 2 <= depth <= 3 {
        30
    } else {
        35
    }
}

/// The kind of an ordinary room for a roll in `0..100`.
pub open spec fn kind_for_roll(roll: int, depth: u32) -> RoomType {
    if roll < boss_odds(depth) && boss_odds(depth) > 0 {
        RoomType::Boss
    } else if roll < boss_odds(depth) + treasure_odds(depth) {
        RoomType::Treasure
    } else {
        RoomType::Combat
    }
}

/// The centres of the rooms among the first `k` that hold ordinary enemies
/// (combat and treasure rooms), in room order.
pub open spec fn combat_centers(centers: Seq<Position>, kinds: Seq<RoomType>, k: int) -> Seq<Position>
    decreases k,
{
    if k <= 0 {
        Seq::empty()
    } else {
        let prev = combat_centers(centers, kinds, k - 1);
        if kinds[k - 1] == RoomType::Combat || kinds[k - 1] == RoomType::Treasure {
            prev.push(centers[k - 1])
        } else {
            prev
        }
    }
}

/// The centres of the boss rooms among the first `k`, in room order.
pub open spec fn boss_centers(centers: Seq<Position>, kinds: Seq<RoomType>, k: int) -> Seq<Position>
    decreases k,
{
    if k <= 0 {
        Seq::empty()
    } else {
        let prev = boss_centers(centers, kinds, k - 1);
        if kinds[k - 1] == RoomType::Boss {
            prev.push(centers[k - 1])
        } else {
            prev
        }
    }
}

/// How many kind draws come before that of room `r` when room `exit` draws
/// none (rooms are drawn from the second on).
pub open spec fn kind_draws_before(r: int, exit: int) -> nat {
    if 1 <= exit < r {
        (r - 2) as nat
    } else {
        (r - 1) as nat
    }
}

/// `n` draws in `0..100`.
pub open spec fn percent_span(n: nat) -> Seq<(i32, i32)> {
    Seq::new(n, |_i: int| (0i32, 100i32))
}

/// The kinds of a generated level's rooms: the first is the entrance; the
/// room `exit`, when it is not the first, is the exit; every other room has
/// the kind `kind_for_roll` gives its draw in `0..100` from the generator
/// seeded with `seed`, made after the draws `base` and the kind draws of the
/// rooms before it.
pub open spec fn drawn_kinds(kinds: Seq<RoomType>, seed: u64, base: Seq<(i32, i32)>, exit: int, depth: u32) -> bool {
    &&& kinds.len() >= 1
    &&& 0 <= exit < kinds.len()
    &&& kinds[0] == RoomType::Entrance
    &&& exit != 0 ==> kinds[exit] == RoomType::Exit
    &&& forall|r: int|
        1 <= r < kinds.len() && r != exit ==> #[trigger] kinds[r] == kind_for_roll(
            seeded_draw(seed, base + percent_span(kind_draws_before(r, exit)), 0, 100) as int,
            depth,
        )
}

pub fn room_kind_for_roll(roll: i32, depth: u32) -> (k: RoomType)
    ensures
        k == kind_for_roll(roll as int, depth),
{
    let (boss, treasure): (i32, i32) = if depth == 1 {
        (0, 30)
    } else if depth >= 2 && depth <= 3 {
        (15, 30)
    } else {
        (25, 35)
    };
    if roll < boss && boss > 0 {
        RoomType::Boss
    } else if roll < boss + treasure {
        RoomType::Treasure
    } else {
        RoomType::Combat
    }
}

/// The center tile of a room.
pub open spec fn center_of(r: Room) -> Position {
    Position { x: (r.x + r.w / 2) as i32, y: (r.y + r.h / 2) as i32 }
}

fn room_centers(rooms: &Vec<Room>) -> (c: Vec<Position>)
    requires
        forall|k: int| 0 <= k < rooms@.len() ==> room_in_range(#[trigger] rooms@[k]),
    ensures
        c@.len() == rooms@.len(),
        forall|k: int| 0 <= k < rooms@.len() ==> #[trigger] c@[k] == center_of(rooms@[k]),
{
    let mut c: Vec<Position> = Vec::new();
    let mut k: usize = 0;
    while k < rooms.len()
        invariant
            k <= rooms@.len(),
            c@.len() == k,
            forall|j: int| 0 <= j < rooms@.len() ==> room_in_range(#[trigger] rooms@[j]),
            forall|j: int| 0 <= j < k ==> #[trigger] c@[j] == center_of(rooms@[j]),
        decreases rooms.len() - k,
    {
        c.push(rooms[k].center());
        k = k + 1;
    }
    c
}

/// The neighbours of each room along the chosen spanning-tree edges, in
/// the order of those edges.
fn tree_adjacency(n: usize, edges: &Vec<MstEdge>, tree: &Vec<usize>) -> (adj: Vec<Vec<usize>>)
    requires
        edges_within(n as int, edges@),
        forall|k: int| 0 <= k < tree@.len() ==> (#[trigger] tree@[k] as int) < edges@.len(),
    ensures
        adj@.len() == n,
        adj_ok(adj@),
{
    let mut adj: Vec<Vec<usize>> = Vec::new();
    let mut u: usize = 0;
    while u < n
        invariant
            u <= n,
            adj@.len() == u,
            edges_within(n as int, edges@),
            forall|k: int| 0 <= k < tree@.len() ==> (#[trigger] tree@[k] as int) < edges@.len(),
            forall|a: int, k: int| 0 <= a < u && 0 <= k < adj@[a]@.len() ==> (#[trigger] adj@[a]@[k] as int) < n,
        decreases n - u,
    {
        let mut list: Vec<usize> = Vec::new();
        let mut t: usize = 0;
        while t < tree.len()
            invariant
                t <= tree@.len(),
                edges_within(n as int, edges@),
                forall|k: int| 0 <= k < tree@.len() ==> (#[trigger] tree@[k] as int) < edges@.len(),
                forall|k: int| 0 <= k < list@.len() ==> (#[trigger] list@[k] as int) < n,
            decreases tree.len() - t,
        {
            let e = edges[tree[t]];
            if e.from == u {
                list.push(e.to);
            } else if e.to == u {
                list.push(e.from);
            }
            t = t + 1;
        }
        let ghost before = adj@;
        adj.push(list);
        proof {
            assert forall|a: int, k: int| 0 <= a < u + 1 && 0 <= k < adj@[a]@.len() implies (#[trigger] adj@[a]@[k]
                as int) < n by {
                if a < u {
                    assert(adj@[a] == before[a]);
                }
            }
        }
        u = u + 1;
    }
    adj
}

/// The rooms of a level: every one placed by the generator fits the map
/// and they keep apart, or there is the single fallback room in the middle.
pub open spec fn level_rooms(rooms: Seq<Room>, width: int, height: int) -> bool {
    &&& 1 <= rooms.len() <= 20
    &&& forall|k: int| 0 <= k < rooms.len() ==> room_in_range(#[trigger] rooms[k])
    &&& ((forall|k: int| 0 <= k < rooms.len() ==> room_fits(#[trigger] rooms[k], width, height)) || (rooms.len()
        == 1 && rooms[0].w == 6 && rooms[0].h == 6 && rooms[0].x == width / 2 - 3 && rooms[0].y == height / 2
        - 3))
}

proof fn lemma_level_centers(rooms: Seq<Room>, c: Seq<Position>, width: int, height: int)
    requires
        0 <= width,
        0 <= height,
        width * height <= i32::MAX,
        level_rooms(rooms, width, height),
        c.len() == rooms.len(),
        forall|k: int| 0 <= k < rooms.len() ==> #[trigger] c[k] == center_of(rooms[k]),
    ensures
        centers_close(c),
        0 < width && 0 < height ==> forall|k: int|
            0 <= k < c.len() ==> 0 <= (#[trigger] c[k]).x < width && 0 <= c[k].y < height,
{
    if forall|k: int| 0 <= k < rooms.len() ==> room_fits(#[trigger] rooms[k], width, height) {
        assert(room_fits(rooms[0], width, height));
        assert(width + height <= width * height) by (nonlinear_arith)
            requires
                7 <= width,
                7 <= height,
        ;
        assert forall|i: int, j: int| 0 <= i < c.len() && 0 <= j < c.len() implies manhattan(
            #[trigger] c[i],
            #[trigger] c[j],
        ) <= i32::MAX by {
            assert(room_fits(rooms[i], width, height));
            assert(room_fits(rooms[j], width, height));
        }
        assert forall|k: int| 0 <= k < c.len() implies 0 <= (#[trigger] c[k]).x < width && 0 <= c[k].y
            < height by {
            assert(room_fits(rooms[k], width, height));
        }
    } else {
        assert(c.len() == 1);
        assert forall|i: int, j: int| 0 <= i < c.len() && 0 <= j < c.len() implies manhattan(
            #[trigger] c[i],
            #[trigger] c[j],
        ) <= i32::MAX by {
            assert(i == 0 && j == 0);
        }
    }
}

/// The rooms of a generated level: those drawn from the seed (see
/// `drawn_rooms`), or one six-by-six room in the middle when none could be
/// placed.
pub open spec fn generated_rooms(seed: u64, width: int, height: int) -> Seq<Room> {
    let drawn = drawn_rooms(seed, Seq::empty(), width, height).0;
    if drawn.len() > 0 {
        drawn
    } else {
        seq![Room { x: (width / 2 - 3) as i32, y: (height / 2 - 3) as i32, w: 6, h: 6, kind: RoomType::Entrance }]
    }
}

/// The centres of the rooms, in order.
pub open spec fn room_centers_of(rooms: Seq<Room>) -> Seq<Position> {
    Seq::new(rooms.len(), |k: int| center_of(rooms[k]))
}

/// A generated level of rooms, as `generate` draws it from `seed`: the
/// rooms are `generated_rooms` and every tile of them is walkable; the start
/// is the first room's centre, the stairs down the centre of the exit room;
/// each room's kind is drawn (see `drawn_kinds`), and the enemies stand at
/// the centres of the combat and treasure rooms and the bosses at those of
/// the boss rooms.
pub open spec fn rooms_level(out: MapGenOutput, seed: u64, width: int, height: int, depth: u32) -> bool {
    &&& exists|centers: Seq<Position>, kinds: Seq<RoomType>, exit: int, base: Seq<(i32, i32)>|
        #![trigger drawn_kinds(kinds, seed, base, exit, depth), combat_centers(centers, kinds, kinds.len() as int)]
        {
            &&& centers == room_centers_of(generated_rooms(seed, width, height))
            &&& centers.len() == kinds.len()
            &&& drawn_kinds(kinds, seed, base, exit, depth)
            &&& centers[0] == out.player_start
            &&& (exit != 0 ==> out.stairs_down == centers[exit])
            &&& (exit == 0 ==> out.stairs_down == out.player_start)
            &&& forall|k: int| 0 <= k < centers.len() ==> connects(out.map, out.player_start, #[trigger] centers[k])
            &&& out.combat_spawns@ == combat_centers(centers, kinds, kinds.len() as int)
            &&& out.boss_spawns@ == boss_centers(centers, kinds, kinds.len() as int)
        }
    &&& forall|k: int, p: Position|
        0 <= k < generated_rooms(seed, width, height).len() && in_room(
            #[trigger] generated_rooms(seed, width, height)[k],
            p,
        ) && #[trigger] out.map.spec_contains(p) ==> out.map.walkable_at(p)
}

proof fn lemma_spawns_keep(centers: Seq<Position>, kinds: Seq<RoomType>, k: int, good: spec_fn(Position) -> bool)
    requires
        0 <= k <= centers.len(),
        k <= kinds.len(),
        forall|v: int| 0 <= v < k ==> good(#[trigger] centers[v]),
    ensures
        forall|j: int|
            0 <= j < combat_centers(centers, kinds, k).len() ==> good(#[trigger] combat_centers(centers, kinds, k)[j]),
        forall|j: int|
            0 <= j < boss_centers(centers, kinds, k).len() ==> good(#[trigger] boss_centers(centers, kinds, k)[j]),
    decreases k,
{
    if k > 0 {
        lemma_spawns_keep(centers, kinds, k - 1, good);
        let c = combat_centers(centers, kinds, k - 1);
        let b = boss_centers(centers, kinds, k - 1);
        assert(good(centers[k - 1]));
        assert forall|j: int| 0 <= j < combat_centers(centers, kinds, k).len() implies good(
            #[trigger] combat_centers(centers, kinds, k)[j],
        ) by {
            if j < c.len() {
                assert(good(c[j]));
            }
        }
        assert forall|j: int| 0 <= j < boss_centers(centers, kinds, k).len() implies good(
            #[trigger] boss_centers(centers, kinds, k)[j],
        ) by {
            if j < b.len() {
                assert(good(b[j]));
            }
        }
    }
}

proof fn lemma_no_boss_centers(centers: Seq<Position>, kinds: Seq<RoomType>, k: int)
    requires
        0 <= k <= kinds.len(),
        forall|j: int| 0 <= j < k ==> #[trigger] kinds[j] != RoomType::Boss,
    ensures
        boss_centers(centers, kinds, k).len() == 0,
    decreases k,
{
    if k > 0 {
        lemma_no_boss_centers(centers, kinds, k - 1);
    }
}

/// The spawn points of the rooms: the centres of the combat and treasure
/// rooms, then those of the boss rooms, each in room order.
fn room_spawns(centers: &Vec<Position>, kinds: &Vec<RoomType>) -> (r: (Vec<Position>, Vec<Position>))
    requires
        centers@.len() == kinds@.len(),
    ensures
        r.0@ == combat_centers(centers@, kinds@, kinds@.len() as int),
        r.1@ == boss_centers(centers@, kinds@, kinds@.len() as int),
        (forall|j: int| 0 <= j < kinds@.len() ==> #[trigger] kinds@[j] != RoomType::Boss) ==> r.1@.len() == 0,
{
    let n = kinds.len();
    let mut combat_spawns: Vec<Position> = Vec::new();
    let mut boss_spawns: Vec<Position> = Vec::new();
    let mut q: usize = 0;
    while q < n
        invariant
            q <= n,
            n == kinds@.len(),
            centers@.len() == n,
            combat_spawns@ == combat_centers(centers@, kinds@, q as int),
            boss_spawns@ == boss_centers(centers@, kinds@, q as int),
        decreases n - q,
    {
        match kinds[q] {
            RoomType::Combat | RoomType::Treasure => {
                combat_spawns.push(centers[q]);
            },
            RoomType::Boss => {
                boss_spawns.push(centers[q]);
            },
            _ => {},
        }
        q = q + 1;
    }
    proof {
        if forall|j: int| 0 <= j < kinds@.len() ==> #[trigger] kinds@[j] != RoomType::Boss {
            lemma_no_boss_centers(centers@, kinds@, n as int);
        }
    }
    (combat_spawns, boss_spawns)
}

impl TileMap {
    /// A level of rooms joined by corridors, drawn from a generator seeded
    /// with `seed`: up to twenty rooms placed at random in a grid of regions, a minimum spanning tree of corridors
    /// between their centers plus fifteen percent of the other candidate
    /// corridors, the stairs up in the first room and the stairs down in the
    /// room farthest from it along the tree, and enemies in combat,
    /// treasure and boss rooms. Whatever the random draws, the map has the
    /// requested size, the stairs lie on their tiles and the first level
    /// has no boss; the enemies stand at the centres of the rooms whose kind
    /// the seeded draws made combat, treasure or boss (see `drawn_kinds`).
    #[verifier::spinoff_prover]
    #[verifier::rlimit(60)]
    pub fn generate(width: i32, height: i32, depth: u32, seed: u64) -> (out: MapGenOutput)
        requires
            0 <= width <= i32::MAX - 16,
            0 <= height <= i32::MAX - 16,
            width * height <= i32::MAX,
        ensures
            out.map.wf(),
            out.map.spec_width() == width,
            out.map.spec_height() == height,
            out.stairs_up == out.player_start,
            0 < width && 0 < height ==> out.map.spec_contains(out.player_start) && out.map.spec_contains(
                out.stairs_down,
            ),
            out.map.spec_contains(out.stairs_down) ==> out.map.tile_at(out.stairs_down) == TileType::StairsDown,
            out.map.spec_contains(out.stairs_up) && out.stairs_up != out.stairs_down ==> out.map.tile_at(
                out.stairs_up,
            ) == TileType::StairsUp,
            depth == 1 ==> out.boss_spawns@.len() == 0,
            0 < width && 0 < height ==> forall|j: int|
                0 <= j < out.combat_spawns@.len() ==> out.map.spec_contains(#[trigger] out.combat_spawns@[j]),
            0 < width && 0 < height ==> forall|j: int|
                0 <= j < out.boss_spawns@.len() ==> out.map.spec_contains(#[trigger] out.boss_spawns@[j]),
            forall|q: Position| #[trigger] out.map.spec_contains(q) && out.map.tile_at(q) == TileType::StairsDown ==> q
                == out.stairs_down,
            0 < width && 0 < height ==> connects(out.map, out.player_start, out.stairs_down),
            0 < width && 0 < height ==> forall|j: int|
                0 <= j < out.combat_spawns@.len() ==> connects(out.map, out.player_start, #[trigger] out.combat_spawns@[j]),
            0 < width && 0 < height ==> forall|j: int|
                0 <= j < out.boss_spawns@.len() ==> connects(out.map, out.player_start, #[trigger] out.boss_spawns@[j]),
            0 < width && 0 < height ==> rooms_level(out, seed, width as int, height as int, depth),
    {
        let mut map = TileMap::new_filled(width, height, TileType::Wall);
        let mut rng = seeded_rng(seed);
        let mut rooms = place_rooms(&mut map, &mut rng, width, height);
        proof {
            assert forall|p: Position| #[trigger] map.spec_contains(p) && in_some_room(rooms@, p) implies map.tile_at(p)
                == TileType::Floor by {
            }
        }
        if rooms.len() == 0 {
            let room = Room { x: width / 2 - 3, y: height / 2 - 3, w: 6, h: 6, kind: RoomType::Entrance };
            let ghost mr = map;
            let ghost before = rooms@;
            map.carve_room(&room);
            rooms.push(room);
            proof {
                assert forall|p: Position| #[trigger] map.spec_contains(p) && in_some_room(rooms@, p) implies map.tile_at(p)
                    == TileType::Floor by {
                    assert(mr.spec_contains(p));
                    lemma_in_some_room_push(before, room, p);
                }
                assert(rooms@ =~= generated_rooms(seed, width as int, height as int));
                assert forall|q: Position| #[trigger] map.spec_contains(q) implies map.tile_at(q) != TileType::StairsDown by {
                    assert(mr.spec_contains(q));
                }
                if 0 < width && 0 < height {
                    let c = center_of(room);
                    assert(c.x == width / 2 && c.y == height / 2);
                    assert(map.spec_contains(c));
                    assert(in_room(room, c));
                    assert(rooms@[0] == room);
                }
            }
        }
        assert(rooms@ == generated_rooms(seed, width as int, height as int));
        assert(0 < width && 0 < height ==> forall|k: int|
            0 <= k < rooms@.len() ==> map.walkable_at(center_of(#[trigger] rooms@[k])));
        proof {
            assert forall|k: int| 0 <= k < rooms@.len() implies room_in_range(#[trigger] rooms@[k]) by {
                if forall|j: int| 0 <= j < rooms@.len() ==> room_fits(#[trigger] rooms@[j], width as int, height as int) {
                    assert(room_fits(rooms@[k], width as int, height as int));
                }
            }
            assert(level_rooms(rooms@, width as int, height as int));
        }
        let n = rooms.len();
        let centers = room_centers(&rooms);
        proof {
            lemma_level_centers(rooms@, centers@, width as int, height as int);
            if 0 < width && 0 < height {
                assert forall|i: int| 0 <= i < n implies map.walkable_at(#[trigger] centers@[i]) by {
                    assert(map.walkable_at(center_of(rooms@[i])));
                }
            }
        }
        let edges = room_edges(&centers);
        proof {
            assert(edges_within(n as int, edges@)) by {
                assert forall|k: int| 0 <= k < edges@.len() implies (#[trigger] edges@[k]).from < n && edges@[k].to
                    < n by {
                    assert(pair_edge(centers@, edges@[k]));
                }
            }
            assert(edges@.len() <= 190) by (nonlinear_arith)
                requires
                    edges@.len() == n * (n - 1) / 2,
                    1 <= n <= 20,
            ;
        }
        let (tree, mut remaining) = kruskal(n, &edges);
        let extra = extra_loop_count(remaining.len());

        // Shuffle the unused candidates by swapping each with a random one.
        let rl = remaining.len();
        let mut i: usize = 0;
        while i < rl
            invariant
                i <= rl,
                rl == remaining@.len(),
                rl <= 190,
                rng.seed() == seed,
                forall|k: int| 0 <= k < remaining@.len() ==> (#[trigger] remaining@[k] as int) < edges@.len(),
            decreases rl - i,
        {
            let j = rng_range(&mut rng, 0, rl as i32) as usize;
            let a = remaining[i];
            let b = remaining[j];
            remaining.set(i, b);
            remaining.set(j, a);
            i = i + 1;
        }

        // Carve the tree corridors, then the first `extra` shuffled ones.
        let mut t: usize = 0;
        while t < tree.len() + extra
            invariant
                map.wf(),
                map.spec_width() == width,
                map.spec_height() == height,
                extra <= remaining@.len(),
                edges_within(n as int, edges@),
                centers@.len() == n,
                forall|k: int| 0 <= k < tree@.len() ==> (#[trigger] tree@[k] as int) < edges@.len(),
                forall|k: int| 0 <= k < remaining@.len() ==> (#[trigger] remaining@[k] as int) < edges@.len(),
                tree@.len() + remaining@.len() == edges@.len(),
                edges@.len() <= 190,
                lacks_tile(map, TileType::StairsDown),
                rooms@ == generated_rooms(seed, width as int, height as int),
                forall|p: Position| #[trigger] map.spec_contains(p) && in_some_room(rooms@, p) ==> map.walkable_at(p),
                0 < width && 0 < height ==> forall|i: int| 0 <= i < n ==> map.walkable_at(#[trigger] centers@[i]),
                0 < width && 0 < height ==> forall|k: int|
                    0 <= k < centers@.len() ==> 0 <= (#[trigger] centers@[k]).x < width && 0 <= centers@[k].y < height,
                0 < width && 0 < height ==> forall|q: int|
                    0 <= q < t && q < tree@.len() ==> connects(
                        map,
                        centers@[edges@[#[trigger] tree@[q] as int].from as int],
                        centers@[edges@[tree@[q] as int].to as int],
                    ),
            decreases tree.len() + extra - t,
        {
            let idx = if t < tree.len() {
                tree[t]
            } else {
                remaining[t - tree.len()]
            };
            let e = edges[idx];
            let ghost mb = map;
            map.carve_corridor(centers[e.from], centers[e.to]);
            proof {
                assert forall|q: Position| #[trigger] map.spec_contains(q) implies map.tile_at(q) != TileType::StairsDown by {
                    assert(mb.spec_contains(q));
                }
                assert forall|p: Position| #[trigger] map.spec_contains(p) && in_some_room(rooms@, p) implies map.walkable_at(
                    p,
                ) by {
                    assert(mb.spec_contains(p));
                }
                if 0 < width && 0 < height {
                    let cf = centers@[e.from as int];
                    let ct = centers@[e.to as int];
                    assert(mb.spec_contains(cf));
                    assert(mb.walkable_at(ct));
                    lemma_corridor_joins(mb, map, cf, ct);
                    assert forall|i: int| 0 <= i < n implies map.walkable_at(#[trigger] centers@[i]) by {
                        assert(mb.walkable_at(centers@[i]));
                    }
                    assert forall|q: int| 0 <= q < t + 1 && q < tree@.len() implies connects(
                        map,
                        centers@[edges@[#[trigger] tree@[q] as int].from as int],
                        centers@[edges@[tree@[q] as int].to as int],
                    ) by {
                        if q < t {
                            lemma_connects_keep(
                                mb,
                                map,
                                centers@[edges@[tree@[q] as int].from as int],
                                centers@[edges@[tree@[q] as int].to as int],
                            );
                        }
                    }
                }
            }
            t = t + 1;
        }

        // The entrance is the first room; the exit the farthest along the tree.
        let mut kinds: Vec<RoomType> = Vec::new();
        let mut k: usize = 0;
        while k < n
            invariant
                k <= n,
                n == rooms@.len(),
                kinds@.len() == k,
                forall|j: int| 0 <= j < k ==> #[trigger] kinds@[j] != RoomType::Boss,
                k > 0 ==> kinds@[0] == RoomType::Entrance,
            decreases n - k,
        {
            kinds.push(if k == 0 {
                RoomType::Entrance
            } else {
                RoomType::Combat
            });
            k = k + 1;
        }
        let adj = tree_adjacency(n, &edges, &tree);
        let farthest = bfs_farthest(0, &adj);
        if farthest != 0 {
            kinds.set(farthest, RoomType::Exit);
        } else if n > 1 {
            kinds.set(n - 1, RoomType::Exit);
        }
        let ghost base = rng.draws();
        let ghost exit = farthest as int;
        let mut r: usize = 1;
        while r < n
            invariant
                1 <= r <= n,
                kinds@.len() == n,
                depth == 1 ==> forall|j: int| 0 <= j < n ==> #[trigger] kinds@[j] != RoomType::Boss,
                0 <= exit < n,
                exit == farthest as int,
                rng.seed() == seed,
                rng.draws() == base + percent_span(kind_draws_before(r as int, exit)),
                kinds@[0] == RoomType::Entrance,
                exit != 0 ==> kinds@[exit] == RoomType::Exit,
                forall|j: int|
                    1 <= j < r && j != exit ==> #[trigger] kinds@[j] == kind_for_roll(
                        seeded_draw(seed, base + percent_span(kind_draws_before(j, exit)), 0, 100) as int,
                        depth,
                    ),
            decreases n - r,
        {
            if r != farthest {
                let ghost before = rng.draws();
                let roll = rng_range(&mut rng, 0, 100);
                kinds.set(r, room_kind_for_roll(roll, depth));
                assert(rng.draws() =~= base + percent_span(kind_draws_before(r + 1, exit)));
            }
            r = r + 1;
        }

        let player_start = centers[0];
        let stairs_up = player_start;
        let stairs_down = if farthest != 0 {
            centers[farthest]
        } else {
            player_start
        };
        let ghost m0 = map;
        map.set_tile(stairs_up, TileType::StairsUp);
        let ghost m1 = map;
        map.set_tile(stairs_down, TileType::StairsDown);
        proof {
            if map.spec_contains(stairs_down) {
                lemma_set_tile_reads(m1, map, stairs_down, TileType::StairsDown, stairs_down);
            }
            if map.spec_contains(stairs_up) && stairs_up != stairs_down {
                lemma_set_tile_reads(m0, m1, stairs_up, TileType::StairsUp, stairs_up);
                lemma_set_tile_reads(m1, map, stairs_down, TileType::StairsDown, stairs_up);
                if !m1.spec_contains(stairs_down) {
                    assert(map.tile_seq() == m1.tile_seq());
                }
            }
            assert forall|q: Position| #[trigger] map.spec_contains(q) && map.tile_at(q) == TileType::StairsDown implies q
                == stairs_down by {
                assert(m0.spec_contains(q));
                if m0.spec_contains(stairs_up) {
                    lemma_set_tile_reads(m0, m1, stairs_up, TileType::StairsUp, q);
                }
                if m1.spec_contains(stairs_down) {
                    lemma_set_tile_reads(m1, map, stairs_down, TileType::StairsDown, q);
                }
            }
            if 0 < width && 0 < height {
                lemma_set_tile_keeps(m0, m1, stairs_up, TileType::StairsUp);
                lemma_set_tile_keeps(m1, map, stairs_down, TileType::StairsDown);
                lemma_rooms_joined(m0, m1, map, centers@, edges@, tree@);
            }
        }

        let (combat_spawns, boss_spawns) = room_spawns(&centers, &kinds);
        proof {
            if 0 < width && 0 < height {
                let good = |p: Position| map.spec_contains(p) && connects(map, player_start, p);
                assert forall|v: int| 0 <= v < n implies good(#[trigger] centers@[v]) by {
                    assert(connects(map, centers@[0], centers@[v]));
                }
                lemma_spawns_keep(centers@, kinds@, n as int, good);
                assert forall|j: int| 0 <= j < combat_spawns@.len() implies map.spec_contains(
                    #[trigger] combat_spawns@[j],
                ) && connects(map, player_start, combat_spawns@[j]) by {
                    assert(good(combat_spawns@[j]));
                }
                assert forall|j: int| 0 <= j < boss_spawns@.len() implies map.spec_contains(
                    #[trigger] boss_spawns@[j],
                ) && connects(map, player_start, boss_spawns@[j]) by {
                    assert(good(boss_spawns@[j]));
                }
            }
        }
        proof {
            if 0 < width && 0 < height {
                assert(centers@ =~= room_centers_of(generated_rooms(seed, width as int, height as int)));
                assert forall|k: int, p: Position|
                    0 <= k < rooms@.len() && in_room(#[trigger] rooms@[k], p) && #[trigger] map.spec_contains(p) implies map.walkable_at(
                    p,
                ) by {
                    assert(in_some_room(rooms@, p));
                    assert(m0.spec_contains(p));
                    assert(m0.walkable_at(p));
                }
                assert(drawn_kinds(kinds@, seed, base, exit, depth));
                assert(combat_spawns@ == combat_centers(centers@, kinds@, kinds@.len() as int));
            }
        }
        MapGenOutput { map, player_start, stairs_up, stairs_down, combat_spawns, boss_spawns }
    }
}

} // verus!
