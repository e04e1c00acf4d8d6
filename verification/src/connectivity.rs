//! Connectivity and distance engine: breadth-first search with exact
//! shortest-path depths, eccentricity, connected-component counting, and the
//! graph diameter.
//!
//! Walks are the mathematical reference: `is_path` says a sequence of nodes
//! joins `s` to `t` along edges, `reachable` that some walk does. A completed
//! BFS assigns every node of the source's component the depth
//! `1 + `(its shortest-path distance), leaving depth `0` elsewhere.

use rayon::iter::IntoParallelIterator;
use rayon::iter::ParallelIterator;
use vstd::prelude::*;

use crate::graph::Graph;
use crate::graph::sym;

verus! {

/// `v` stands in `u`'s neighbor list (both in range).
pub open spec fn adjacent(adj: Seq<Seq<u32>>, u: int, v: int) -> bool {
    &&& 0 <= u < adj.len()
    &&& 0 <= v < adj.len()
    &&& adj[u].contains(v as u32)
}

/// `p` is a walk from `s` to `t`: nonempty, inside the graph, consecutive
/// entries adjacent. Its length in edges is `p.len() - 1`.
pub open spec fn is_path(adj: Seq<Seq<u32>>, p: Seq<int>, s: int, t: int) -> bool {
    &&& p.len() >= 1
    &&& p[0] == s
    &&& p.last() == t
    &&& forall|i: int| 0 <= i < p.len() ==> 0 <= #[trigger] p[i] < adj.len()
    &&& forall|i: int| 0 <= i < p.len() - 1 ==> adjacent(adj, #[trigger] p[i], p[i + 1])
}

pub open spec fn reachable(adj: Seq<Seq<u32>>, s: int, t: int) -> bool {
    exists|p: Seq<int>| is_path(adj, p, s, t)
}

pub proof fn lemma_reachable_refl(adj: Seq<Seq<u32>>, s: int)
    requires
        0 <= s < adj.len(),
    ensures
        reachable(adj, s, s),
{
    let p = seq![s];
    assert(is_path(adj, p, s, s));
}

pub proof fn lemma_reachable_step(adj: Seq<Seq<u32>>, s: int, u: int, w: int)
    requires
        reachable(adj, s, u),
        adjacent(adj, u, w),
    ensures
        reachable(adj, s, w),
{
    let p = choose|p: Seq<int>| is_path(adj, p, s, u);
    let p2 = p.push(w);
    assert forall|i: int| 0 <= i < p2.len() - 1 implies adjacent(adj, #[trigger] p2[i], p2[i + 1]) by {
        if i < p.len() - 1 {
            assert(p2[i] == p[i] && p2[i + 1] == p[i + 1]);
        } else {
            assert(p2[i] == u && p2[i + 1] == w);
        }
    }
    assert(is_path(adj, p2, s, w));
}

pub proof fn lemma_reachable_trans(adj: Seq<Seq<u32>>, s: int, m: int, t: int)
    requires
        reachable(adj, s, m),
        reachable(adj, m, t),
    ensures
        reachable(adj, s, t),
{
    let p1 = choose|p: Seq<int>| is_path(adj, p, s, m);
    let p2 = choose|p: Seq<int>| is_path(adj, p, m, t);
    let p = p1 + p2.skip(1);
    if p2.len() == 1 {
        assert(p =~= p1);
        assert(is_path(adj, p, s, t));
    } else {
        assert(p.last() == p2.last());
        assert forall|i: int| 0 <= i < p.len() - 1 implies adjacent(adj, #[trigger] p[i], p[i + 1]) by {
            if i < p1.len() - 1 {
                assert(p[i] == p1[i] && p[i + 1] == p1[i + 1]);
            } else if i == p1.len() - 1 {
                assert(p[i] == m);
                assert(p[i + 1] == p2[1]);
                assert(adjacent(adj, p2[0], p2[1]));
            } else {
                let j = i - p1.len();
                assert(p[i] == p2[j + 1] && p[i + 1] == p2[j + 2]);
                assert(adjacent(adj, p2[j + 1], p2[j + 2]));
            }
        }
        assert(is_path(adj, p, s, t));
    }
}

pub proof fn lemma_adjacent_sym(adj: Seq<Seq<u32>>, u: int, v: int)
    requires
        sym(adj),
        adjacent(adj, u, v),
    ensures
        adjacent(adj, v, u),
{
}

pub proof fn lemma_reachable_sym(adj: Seq<Seq<u32>>, s: int, t: int)
    requires
        sym(adj),
        reachable(adj, s, t),
    ensures
        reachable(adj, t, s),
{
    let p = choose|p: Seq<int>| is_path(adj, p, s, t);
    let r = Seq::new(p.len(), |i: int| p[p.len() - 1 - i]);
    assert forall|i: int| 0 <= i < r.len() - 1 implies adjacent(adj, #[trigger] r[i], r[i + 1]) by {
        let j = p.len() - 1 - i;
        assert(r[i] == p[j] && r[i + 1] == p[j - 1]);
        assert(adjacent(adj, p[j - 1], p[j]));
        lemma_adjacent_sym(adj, p[j - 1], p[j]);
    }
    assert(r.last() == p[0]);
    assert(is_path(adj, r, t, s));
}

/// `v` was first visited by the present search: nonzero depth now, zero
/// depth before.
pub open spec fn newly(d: Seq<usize>, o: Seq<usize>, v: int) -> bool {
    &&& 0 <= v < d.len()
    &&& d[v] != 0
    &&& o[v] == 0
}

/// The nodes already visited before the search form a closed set: no edge
/// leaves it.
pub open spec fn closed_old(adj: Seq<Seq<u32>>, o: Seq<usize>) -> bool {
    forall|u: int, w: int|
        0 <= u < adj.len() && o[u] != 0 && #[trigger] adjacent(adj, u, w) ==> o[w] != 0
}

/// Walking any path from the source, the depth can rise by at most one per
/// edge, so the whole component is visited and every depth is at most the
/// path's node count.
proof fn lemma_path_depth_bound(
    adj: Seq<Seq<u32>>,
    d: Seq<usize>,
    o: Seq<usize>,
    p: Seq<int>,
    s: int,
    t: int,
)
    requires
        d.len() == adj.len(),
        o.len() == adj.len(),
        is_path(adj, p, s, t),
        newly(d, o, s),
        d[s] == 1,
        forall|u: int, w: int|
            newly(d, o, u) && #[trigger] adjacent(adj, u, w) ==> newly(d, o, w) && d[w] <= d[u]
                + 1,
    ensures
        newly(d, o, t),
        d[t] <= p.len(),
    decreases p.len(),
{
    if p.len() == 1 {
    } else {
        let q = p.drop_last();
        let t2 = p[p.len() - 2];
        assert(is_path(adj, q, s, t2)) by {
            assert(forall|i: int| 0 <= i < q.len() ==> q[i] == p[i]);
            assert forall|i: int| 0 <= i < q.len() - 1 implies adjacent(adj, #[trigger] q[i], q[i + 1]) by {
                assert(q[i] == p[i] && q[i + 1] == p[i + 1]);
                assert(adjacent(adj, p[i], p[i + 1]));
            }
        }
        lemma_path_depth_bound(adj, d, o, q, s, t2);
        assert(adjacent(adj, p[p.len() - 2], p[p.len() - 1]));
    }
}

/// The depths are exactly `1 +` the shortest-path distance from `s`, over
/// the whole component of `s`: a witness walk of that very node count
/// exists, and no walk is shorter.
pub open spec fn depths_exact(adj: Seq<Seq<u32>>, s: int, d: Seq<usize>) -> bool {
    forall|v: int|
        #[trigger] reachable(adj, s, v) ==> ((exists|p: Seq<int>|
            is_path(adj, p, s, v) && p.len() == d[v]) && (forall|p: Seq<int>|
            is_path(adj, p, s, v) ==> p.len() >= d[v]))
}

/// `r` is the eccentricity of `s`: every node of `s`'s component is within
/// `r` edges of `s`, and some node is no closer than `r` edges.
pub open spec fn is_ecc(adj: Seq<Seq<u32>>, s: int, r: int) -> bool {
    &&& forall|t: int|
        #[trigger] reachable(adj, s, t) ==> exists|p: Seq<int>|
            is_path(adj, p, s, t) && p.len() <= r + 1
    &&& exists|t: int|
        #[trigger] reachable(adj, s, t) && (forall|p: Seq<int>|
            is_path(adj, p, s, t) ==> p.len() >= r + 1)
}

/// Eccentricity is a function of the graph and the source.
pub proof fn lemma_ecc_unique(adj: Seq<Seq<u32>>, s: int, r1: int, r2: int)
    requires
        is_ecc(adj, s, r1),
        is_ecc(adj, s, r2),
    ensures
        r1 == r2,
{
    let t1 = choose|t: int|
        #[trigger] reachable(adj, s, t) && (forall|p: Seq<int>|
            is_path(adj, p, s, t) ==> p.len() >= r1 + 1);
    let p1 = choose|p: Seq<int>| is_path(adj, p, s, t1) && p.len() <= r2 + 1;
    assert(p1.len() >= r1 + 1);
    let t2 = choose|t: int|
        #[trigger] reachable(adj, s, t) && (forall|p: Seq<int>|
            is_path(adj, p, s, t) ==> p.len() >= r2 + 1);
    let p2 = choose|p: Seq<int>| is_path(adj, p, s, t2) && p.len() <= r1 + 1;
    assert(p2.len() >= r2 + 1);
}

/// `r` is the diameter: the greatest eccentricity over all sources, `0` on
/// the empty graph.
pub open spec fn is_diameter(adj: Seq<Seq<u32>>, r: int) -> bool {
    &&& adj.len() == 0 ==> r == 0
    &&& forall|s: int, t: int|
        #[trigger] reachable(adj, s, t) ==> exists|p: Seq<int>|
            is_path(adj, p, s, t) && p.len() <= r + 1
    &&& adj.len() > 0 ==> exists|s: int, t: int|
        #[trigger] reachable(adj, s, t) && (forall|p: Seq<int>|
            is_path(adj, p, s, t) ==> p.len() >= r + 1)
}

/// The diameter is a function of the graph.
pub proof fn lemma_diameter_unique(adj: Seq<Seq<u32>>, r1: int, r2: int)
    requires
        is_diameter(adj, r1),
        is_diameter(adj, r2),
    ensures
        r1 == r2,
{
    if adj.len() > 0 {
        let (s1, t1) = choose|s: int, t: int|
            #[trigger] reachable(adj, s, t) && (forall|p: Seq<int>|
                is_path(adj, p, s, t) ==> p.len() >= r1 + 1);
        let p1 = choose|p: Seq<int>| is_path(adj, p, s1, t1) && p.len() <= r2 + 1;
        assert(p1.len() >= r1 + 1);
        let (s2, t2) = choose|s: int, t: int|
            #[trigger] reachable(adj, s, t) && (forall|p: Seq<int>|
                is_path(adj, p, s, t) ==> p.len() >= r2 + 1);
        let p2 = choose|p: Seq<int>| is_path(adj, p, s2, t2) && p.len() <= r1 + 1;
        assert(p2.len() >= r2 + 1);
    }
}

/// Depths a completed BFS assigned differ by at most one across any edge of
/// the source's component.
pub proof fn lemma_bfs_monotonicity(
    adj: Seq<Seq<u32>>,
    d: Seq<usize>,
    s: int,
    u: int,
    v: int,
)
    requires
        sym(adj),
        depths_exact(adj, s, d),
        reachable(adj, s, u),
        adjacent(adj, u, v),
    ensures
        reachable(adj, s, v),
        d[u] <= d[v] + 1,
        d[v] <= d[u] + 1,
{
    lemma_reachable_step(adj, s, u, v);
    let pu = choose|p: Seq<int>| is_path(adj, p, s, u) && p.len() == d[u];
    let pu2 = pu.push(v);
    assert forall|i: int| 0 <= i < pu2.len() - 1 implies adjacent(adj, #[trigger] pu2[i], pu2[i + 1]) by {
        if i < pu.len() - 1 {
            assert(pu2[i] == pu[i] && pu2[i + 1] == pu[i + 1]);
        } else {
            assert(pu2[i] == u && pu2[i + 1] == v);
        }
    }
    assert(is_path(adj, pu2, s, v));
    assert(pu2.len() >= d[v]);
    lemma_adjacent_sym(adj, u, v);
    let pv = choose|p: Seq<int>| is_path(adj, p, s, v) && p.len() == d[v];
    let pv2 = pv.push(u);
    assert forall|i: int| 0 <= i < pv2.len() - 1 implies adjacent(adj, #[trigger] pv2[i], pv2[i + 1]) by {
        if i < pv.len() - 1 {
            assert(pv2[i] == pv[i] && pv2[i + 1] == pv[i + 1]);
        } else {
            assert(pv2[i] == v && pv2[i + 1] == u);
        }
    }
    assert(is_path(adj, pv2, s, u));
    assert(pv2.len() >= d[u]);
}

/// No two of `q`'s entries are equal and all are below `n`, so there are at
/// most `n` of them.
proof fn lemma_distinct_bounded(q: Seq<u32>, n: int)
    requires
        n >= 0,
        forall|i: int| 0 <= i < q.len() ==> (#[trigger] q[i] as int) < n,
        forall|i: int, j: int| 0 <= i < j < q.len() ==> q[i] != q[j],
    ensures
        q.len() <= n,
    decreases n,
{
    if n == 0 {
        if q.len() > 0 {
            assert((q[0] as int) < 0);
        }
    } else if q.len() > 0 {
        if exists|i: int| 0 <= i < q.len() && (q[i] as int) == n - 1 {
            let i = choose|i: int| 0 <= i < q.len() && (q[i] as int) == n - 1;
            let q2 = q.remove(i);
            assert forall|a: int| 0 <= a < q2.len() implies (#[trigger] q2[a] as int) < n - 1 by {
                if a < i {
                    assert(q2[a] == q[a]);
                    assert(q[a] != q[i]);
                } else {
                    assert(q2[a] == q[a + 1]);
                    assert(q[a + 1] != q[i]);
                }
            }
            assert forall|a: int, b: int| 0 <= a < b < q2.len() implies q2[a] != q2[b] by {
                let a2 = if a < i { a } else { a + 1 };
                let b2 = if b < i { b } else { b + 1 };
                assert(q2[a] == q[a2] && q2[b] == q[b2]);
            }
            lemma_distinct_bounded(q2, n - 1);
        } else {
            assert forall|a: int| 0 <= a < q.len() implies (#[trigger] q[a] as int) < n - 1 by {
                assert((q[a] as int) != n - 1);
            }
            lemma_distinct_bounded(q, n - 1);
        }
    }
}

impl Graph {
    /// Breadth-first search from `start` over the nodes not yet visited in
    /// `depth` (`0` marks unvisited; the set already visited must be closed,
    /// so the search stays inside `start`'s component). Returns the updated
    /// depth array and the eccentricity of `start` within its component:
    /// newly visited nodes get depth `1 +` their exact distance from
    /// `start`, all other entries stay as they were.
    pub fn bfs(&self, start: u32, depth: Vec<usize>) -> (res: (Vec<usize>, usize))
        requires
            self.wf(),
            (start as int) < self@.len(),
            depth@.len() == self@.len(),
            depth@[start as int] == 0,
            closed_old(self@, depth@),
        ensures
            res.0@.len() == self@.len(),
            forall|v: int| 0 <= v < self@.len() && depth@[v] != 0 ==> res.0@[v] == depth@[v],
            forall|v: int|
                0 <= v < self@.len() ==> ((#[trigger] res.0@[v] != 0) <==> (depth@[v] != 0
                    || reachable(self@, start as int, v))),
            forall|v: int|
                #[trigger] reachable(self@, start as int, v) ==> depth@[v] == 0 && res.0@[v] != 0,
            depths_exact(self@, start as int, res.0@),
            forall|v: int|
                #[trigger] reachable(self@, start as int, v) ==> res.0@[v] <= res.1 + 1,
            exists|v: int|
                #[trigger] reachable(self@, start as int, v) && res.0@[v] == res.1 + 1,
            res.1 + 1 <= self@.len(),
    {
        let ghost adj = self@;
        let ghost o = depth@;
        let ghost s = start as int;
        let n = self.nodes.len();
        let mut d = depth;
        let mut q: Vec<u32> = Vec::new();
        let mut head: usize = 0;
        let mut dmax: usize = 1;
        d.set(start as usize, 1);
        q.push(start);
        proof {
            assert(is_path(adj, seq![s], s, s));
            assert forall|v: int| #[trigger] newly(d@, o, v) implies q@.contains(v as u32) by {
                if v == s {
                    assert(q@[0] == start);
                } else {
                    assert(d@[v] == o[v]);
                }
            }
        }
        while head < q.len()
            invariant
                self.wf(),
                adj == self@,
                o == depth@,
                s == start as int,
                0 <= s < adj.len(),
                n == adj.len(),
                d@.len() == adj.len(),
                o.len() == adj.len(),
                closed_old(adj, o),
                o[s] == 0,
                head <= q@.len() <= adj.len(),
                q@.len() >= 1,
                q@[0] == start,
                d@[s] == 1,
                dmax == d@[q@.last() as int],
                dmax >= 1,
                forall|i: int|
                    0 <= i < q@.len() ==> (#[trigger] q@[i] as int) < adj.len() && d@[
                    q@[i] as int] != 0 && o[q@[i] as int] == 0,
                forall|i: int, j: int| 0 <= i < j < q@.len() ==> q@[i] != q@[j],
                forall|v: int| 0 <= v < adj.len() && o[v] != 0 ==> d@[v] == o[v],
                forall|v: int| #[trigger] newly(d@, o, v) ==> q@.contains(v as u32),
                forall|i: int, j: int|
                    0 <= i <= j < q@.len() ==> d@[#[trigger] q@[i] as int] <= d@[
                    #[trigger] q@[j] as int],
                forall|i: int, j: int|
                    head <= i <= j < q@.len() ==> d@[#[trigger] q@[j] as int] <= d@[
                    #[trigger] q@[i] as int] + 1,
                forall|i: int| 0 <= i < q@.len() ==> d@[#[trigger] q@[i] as int] <= i + 1,
                forall|i: int, w: int|
                    0 <= i < head && #[trigger] adjacent(adj, q@[i] as int, w) ==> d@[w] != 0
                        && o[w] == 0 && d@[w] <= d@[q@[i] as int] + 1,
                forall|v: int|
                    #[trigger] newly(d@, o, v) ==> exists|p: Seq<int>|
                        is_path(adj, p, s, v) && p.len() == d@[v],
            decreases adj.len() - head,
        {
            let tail = q[head];
            let dt = d[tail as usize];
            let ghost t = tail as int;
            let row = &self.nodes[tail as usize];
            let ghost head0 = head as int;
            let mut kk: usize = 0;
            proof {
                assert(row@ == adj[t]);
            }
            while kk < row.len()
                invariant
                    self.wf(),
                    adj == self@,
                    o == depth@,
                    s == start as int,
                    0 <= s < adj.len(),
                    n == adj.len(),
                    d@.len() == adj.len(),
                    o.len() == adj.len(),
                    closed_old(adj, o),
                    o[s] == 0,
                    head0 == head,
                    head < q@.len() <= adj.len(),
                    q@[0] == start,
                    d@[s] == 1,
                    tail == q@[head0],
                    t == tail as int,
                    row@ == adj[t],
                    kk <= row@.len(),
                    dt == d@[t],
                    dmax == d@[q@.last() as int],
                    dmax >= 1,
                    forall|i: int|
                        0 <= i < q@.len() ==> (#[trigger] q@[i] as int) < adj.len() && d@[
                        q@[i] as int] != 0 && o[q@[i] as int] == 0,
                    forall|i: int, j: int| 0 <= i < j < q@.len() ==> q@[i] != q@[j],
                    forall|v: int| 0 <= v < adj.len() && o[v] != 0 ==> d@[v] == o[v],
                    forall|v: int| #[trigger] newly(d@, o, v) ==> q@.contains(v as u32),
                    forall|i: int, j: int|
                        0 <= i <= j < q@.len() ==> d@[#[trigger] q@[i] as int] <= d@[
                        #[trigger] q@[j] as int],
                    forall|i: int, j: int|
                        head <= i <= j < q@.len() ==> d@[#[trigger] q@[j] as int] <= d@[
                        #[trigger] q@[i] as int] + 1,
                    forall|i: int| 0 <= i < q@.len() ==> d@[#[trigger] q@[i] as int] <= i + 1,
                    forall|i: int, w: int|
                        0 <= i < head && #[trigger] adjacent(adj, q@[i] as int, w) ==> d@[w] != 0
                            && o[w] == 0 && d@[w] <= d@[q@[i] as int] + 1,
                    forall|v: int|
                        #[trigger] newly(d@, o, v) ==> exists|p: Seq<int>|
                            is_path(adj, p, s, v) && p.len() == d@[v],
                    forall|k2: int|
                        0 <= k2 < kk ==> d@[#[trigger] row@[k2] as int] != 0 && o[row@[
                        k2] as int] == 0 && d@[row@[k2] as int] <= dt + 1,
                decreases row@.len() - kk,
            {
                let w = row[kk];
                let ghost wi = w as int;
                proof {
                    assert(adj[t][kk as int] == w);
                    assert(adjacent(adj, t, wi)) by {
                        assert(adj[t][kk as int] == w);
                    }
                    // a neighbor of a newly visited node cannot be an
                    // already-visited one: the old set is closed
                    if o[wi] != 0 {
                        lemma_adjacent_sym(adj, t, wi);
                        assert(o[t] != 0);
                    }
                }
                if d[w as usize] == 0 {
                    proof {
                        assert(dt <= head0 + 1);
                        assert(head0 + 1 <= q@.len());
                        assert(q@.len() <= adj.len() < u32::MAX as int);
                    }
                    dmax = dt + 1;
                    let ghost d_old = d@;
                    let ghost q_old = q@;
                    d.set(w as usize, dmax);
                    q.push(w);
                    proof {
                        // the fresh node was in nobody's list of facts yet
                        assert(!q_old.contains(w)) by {
                            if q_old.contains(w) {
                                let j = choose|j: int|
                                    0 <= j < q_old.len() && q_old[j] == w;
                                assert(d_old[q_old[j] as int] != 0);
                            }
                        }
                        lemma_distinct_bounded(q@, adj.len() as int);
                        // the witness path: one edge beyond the parent's
                        assert(newly(d_old, o, t));
                        let pt = choose|p: Seq<int>|
                            is_path(adj, p, s, t) && p.len() == d_old[t];
                        let pw = pt.push(wi);
                        assert forall|i: int|
                            0 <= i < pw.len() - 1 implies adjacent(
                            adj,
                            #[trigger] pw[i],
                            pw[i + 1],
                        ) by {
                            if i < pt.len() - 1 {
                                assert(pw[i] == pt[i] && pw[i + 1] == pt[i + 1]);
                            } else {
                                assert(pw[i] == t && pw[i + 1] == wi);
                            }
                        }
                        assert(is_path(adj, pw, s, wi));
                        assert(pw.len() == dmax);
                        assert forall|v: int| #[trigger] newly(d@, o, v) implies exists|p: Seq<int>|
                            is_path(adj, p, s, v) && p.len() == d@[v] by {
                            if v == wi {
                                assert(is_path(adj, pw, s, v) && pw.len() == d@[v]);
                            } else {
                                assert(newly(d_old, o, v));
                                assert(d@[v] == d_old[v]);
                            }
                        }
                        assert forall|v: int| #[trigger] newly(d@, o, v) implies q@.contains(
                            v as u32,
                        ) by {
                            if v == wi {
                                assert(q@[q@.len() - 1] == w);
                            } else {
                                assert(d@[v] == d_old[v]);
                                assert(newly(d_old, o, v));
                                assert(q_old.contains(v as u32));
                                let j = choose|j: int| 0 <= j < q_old.len() && q_old[j] == v as u32;
                                assert(q@[j] == v as u32);
                            }
                        }
                        assert forall|v: int| 0 <= v < adj.len() && o[v] != 0 implies d@[v]
                            == o[v] by {
                            if v == wi {
                            } else {
                                assert(d@[v] == d_old[v]);
                            }
                        }
                        assert forall|i: int, w2: int|
                            0 <= i < head && #[trigger] adjacent(adj, q@[i] as int, w2) implies d@[
                            w2] != 0 && o[w2] == 0 && d@[w2] <= d@[q@[i] as int] + 1 by {
                            assert(q@[i] == q_old[i]);
                            assert(adjacent(adj, q_old[i] as int, w2));
                            assert(d_old[w2] != 0);
                            assert(w2 != wi);
                            assert(d@[w2] == d_old[w2]);
                            assert(d@[q@[i] as int] == d_old[q_old[i] as int]);
                        }
                    }
                } else {
                    proof {
                        // the visited neighbor is in the queue; its position
                        // tells its depth is within one of the parent's
                        assert(newly(d@, o, wi));
                        assert(q@.contains(w));
                        let j = choose|j: int| 0 <= j < q@.len() && q@[j] == w;
                        if j <= head0 {
                            assert(d@[q@[j] as int] <= d@[q@[head0] as int]);
                        } else {
                            assert(d@[q@[j] as int] <= d@[q@[head0] as int] + 1);
                        }
                    }
                }
                kk = kk + 1;
            }
            proof {
                // the popped node is now fully processed
                assert forall|i: int, w: int|
                    0 <= i < head + 1 && #[trigger] adjacent(adj, q@[i] as int, w) implies d@[w]
                    != 0 && o[w] == 0 && d@[w] <= d@[q@[i] as int] + 1 by {
                    if i == head0 {
                        assert(adj[t].contains(w as u32));
                        let k2 = choose|k2: int|
                            0 <= k2 < adj[t].len() && adj[t][k2] == w as u32;
                        assert(row@[k2] == w as u32);
                        assert(d@[row@[k2] as int] <= dt + 1);
                    }
                }
            }
            head = head + 1;
        }
        proof {
            // every edge out of the newly visited set stays in it, one depth
            // step at most
            assert forall|u: int, w: int|
                newly(d@, o, u) && #[trigger] adjacent(adj, u, w) implies newly(d@, o, w) && d@[w]
                <= d@[u] + 1 by {
                assert(q@.contains(u as u32));
                let j = choose|j: int| 0 <= j < q@.len() && q@[j] == u as u32;
                assert(adjacent(adj, q@[j] as int, w));
            }
            // reachable nodes are exactly the newly visited ones, and their
            // depths are least over all walks
            assert forall|v: int| #[trigger] reachable(adj, s, v) implies newly(d@, o, v) && (
            forall|p: Seq<int>| is_path(adj, p, s, v) ==> p.len() >= d@[v]) by {
                let p0 = choose|p: Seq<int>| is_path(adj, p, s, v);
                lemma_path_depth_bound(adj, d@, o, p0, s, v);
                assert forall|p: Seq<int>| is_path(adj, p, s, v) implies p.len() >= d@[v] by {
                    lemma_path_depth_bound(adj, d@, o, p, s, v);
                }
            }
            assert forall|v: int| #[trigger] newly(d@, o, v) implies reachable(adj, s, v) by {
                let p = choose|p: Seq<int>| is_path(adj, p, s, v) && p.len() == d@[v];
            }
            assert forall|v: int|
                0 <= v < adj.len() implies ((d@[v] != 0) <==> (o[v] != 0 || reachable(
                adj,
                s,
                v,
            ))) by {
                if d@[v] != 0 && o[v] == 0 {
                    assert(newly(d@, o, v));
                    assert(reachable(adj, s, v));
                }
                if reachable(adj, s, v) {
                    assert(newly(d@, o, v));
                }
            }
            // the returned value is the greatest depth among the component
            assert forall|v: int| #[trigger] reachable(adj, s, v) implies d@[v] <= dmax by {
                assert(newly(d@, o, v));
                assert(q@.contains(v as u32));
                let j = choose|j: int| 0 <= j < q@.len() && q@[j] == v as u32;
                assert(d@[q@[j] as int] <= d@[q@[q@.len() - 1] as int]);
            }
            let last = q@[q@.len() - 1] as int;
            assert(newly(d@, o, last));
            assert(reachable(adj, s, last));
            assert(dmax <= q@.len());
            assert(reachable(adj, s, s));
        }
        (d, dmax - 1)
    }

    /// Runs a breadth-first search from `start` on a fresh depth array and
    /// returns the eccentricity of `start`.
    pub fn bfs_depth(&self, start: u32) -> (r: usize)
        requires
            self.wf(),
            (start as int) < self@.len(),
        ensures
            is_ecc(self@, start as int, r as int),
            r < self@.len(),
    {
        let n = self.nodes.len();
        let mut depth: Vec<usize> = Vec::new();
        let mut i: usize = 0;
        while i < n
            invariant
                i <= n,
                depth@.len() == i,
                forall|v: int| 0 <= v < i ==> depth@[v] == 0,
            decreases n - i,
        {
            depth.push(0);
            i = i + 1;
        }
        let ghost s = start as int;
        let (d, ecc) = self.bfs(start, depth);
        proof {
            assert forall|t: int| #[trigger] reachable(self@, s, t) implies exists|p: Seq<int>|
                is_path(self@, p, s, t) && p.len() <= ecc + 1 by {
                let p = choose|p: Seq<int>| is_path(self@, p, s, t) && p.len() == d@[t];
                assert(d@[t] <= ecc + 1);
            }
            let vmax = choose|v: int| #[trigger] reachable(self@, s, v) && d@[v] == ecc + 1;
            assert forall|p: Seq<int>| is_path(self@, p, s, vmax) implies p.len() >= ecc + 1 by {
                assert(p.len() >= d@[vmax]);
            }
            assert(is_ecc(self@, s, ecc as int));
        }
        ecc
    }
}

/// `v` is the least node of its component: no earlier node reaches it.
pub open spec fn is_first_of_class(adj: Seq<Seq<u32>>, v: int) -> bool {
    forall|m: int| 0 <= m < v ==> !reachable(adj, m, v)
}

/// How many nodes below `k` open a new component: the number of connected
/// components among the nodes `0..k` once `k` is the node count.
pub open spec fn rep_count(adj: Seq<Seq<u32>>, k: int) -> int
    decreases k,
{
    if k <= 0 {
        0
    } else {
        rep_count(adj, k - 1) + if is_first_of_class(adj, k - 1) {
            1int
        } else {
            0int
        }
    }
}

impl Graph {
    /// Find the number of connected components: a BFS is launched from every
    /// node not yet visited, in id order, and the launches are counted.
    pub fn connected_components(&self) -> (r: usize)
        requires
            self.wf(),
        ensures
            r == rep_count(self@, self@.len() as int),
    {
        let ghost adj = self@;
        let n = self.nodes.len();
        let mut depth: Vec<usize> = Vec::new();
        let mut i: usize = 0;
        while i < n
            invariant
                i <= n,
                depth@.len() == i,
                forall|u: int| 0 <= u < i ==> depth@[u] == 0,
            decreases n - i,
        {
            depth.push(0);
            i = i + 1;
        }
        let mut components: usize = 0;
        let mut v: usize = 0;
        while v < n
            invariant
                self.wf(),
                adj == self@,
                n == adj.len(),
                v <= n,
                depth@.len() == n,
                components == rep_count(adj, v as int),
                components <= v,
                forall|u: int|
                    0 <= u < adj.len() ==> ((#[trigger] depth@[u] != 0) <==> exists|m: int|
                        0 <= m < v && #[trigger] reachable(adj, m, u)),
            decreases n - v,
        {
            if depth[v] == 0 {
                proof {
                    // nothing below v reaches v, so v opens a component
                    assert(is_first_of_class(adj, v as int)) by {
                        assert forall|m: int| 0 <= m < v implies !reachable(adj, m, v as int) by {
                            if reachable(adj, m, v as int) {
                                assert(depth@[v as int] != 0);
                            }
                        }
                    }
                    // the visited set is a union of components, hence closed
                    assert(closed_old(adj, depth@)) by {
                        assert forall|u: int, w: int|
                            0 <= u < adj.len() && depth@[u] != 0 && #[trigger] adjacent(
                            adj,
                            u,
                            w,
                        ) implies depth@[w] != 0 by {
                            let m = choose|m: int| 0 <= m < v && #[trigger] reachable(adj, m, u);
                            lemma_reachable_step(adj, m, u, w);
                        }
                    }
                }
                components = components + 1;
                let ghost o = depth@;
                let res = self.bfs(v as u32, depth);
                depth = res.0;
                proof {
                    assert forall|u: int|
                        0 <= u < adj.len() implies ((#[trigger] depth@[u] != 0) <==> exists|m: int|
                            0 <= m < v + 1 && #[trigger] reachable(adj, m, u)) by {
                        if depth@[u] != 0 {
                            if o[u] != 0 {
                                let m = choose|m: int|
                                    0 <= m < v && #[trigger] reachable(adj, m, u);
                                assert(reachable(adj, m, u));
                            } else {
                                assert(reachable(adj, v as int, u));
                            }
                        }
                        if exists|m: int| 0 <= m < v + 1 && #[trigger] reachable(adj, m, u) {
                            let m = choose|m: int|
                                0 <= m < v + 1 && #[trigger] reachable(adj, m, u);
                            if m < v {
                                assert(o[u] != 0);
                                assert(depth@[u] == o[u]);
                            } else {
                                assert(reachable(adj, v as int, u));
                            }
                        }
                    }
                }
            } else {
                proof {
                    // something below v already reaches v: no new component
                    assert(!is_first_of_class(adj, v as int)) by {
                        let m = choose|m: int| 0 <= m < v && #[trigger] reachable(adj, m, v as int);
                    }
                    assert forall|u: int|
                        0 <= u < adj.len() implies ((#[trigger] depth@[u] != 0) <==> exists|m: int|
                            0 <= m < v + 1 && #[trigger] reachable(adj, m, u)) by {
                        if exists|m: int| 0 <= m < v + 1 && #[trigger] reachable(adj, m, u) {
                            let m = choose|m: int|
                                0 <= m < v + 1 && #[trigger] reachable(adj, m, u);
                            if m == v {
                                // v's component was opened earlier: route the
                                // witness through it
                                let m0 = choose|m0: int|
                                    0 <= m0 < v && #[trigger] reachable(adj, m0, v as int);
                                lemma_reachable_trans(adj, m0, v as int, u);
                                assert(reachable(adj, m0, u));
                            }
                        }
                    }
                }
            }
            v = v + 1;
        }
        components
    }

    /// The greatest eccentricity over all sources, one BFS per source in
    /// turn.
    pub fn diameter_serial(&self) -> (r: usize)
        requires
            self.wf(),
        ensures
            is_diameter(self@, r as int),
    {
        let ghost adj = self@;
        let n = self.nodes.len();
        let mut best: usize = 0;
        let mut sidx: usize = 0;
        let ghost mut eccs = Seq::<int>::empty();
        while sidx < n
            invariant
                self.wf(),
                adj == self@,
                n == adj.len(),
                sidx <= n,
                sidx == 0 ==> best == 0,
                sidx > 0 ==> exists|s0: int| 0 <= s0 < sidx && is_ecc(adj, s0, best as int),
                eccs.len() == sidx,
                forall|i: int| 0 <= i < sidx ==> is_ecc(adj, i, #[trigger] eccs[i]) && eccs[i]
                    <= best,
            decreases n - sidx,
        {
            let ghost best0 = best as int;
            let e = self.bfs_depth(sidx as u32);
            if e > best {
                best = e;
            }
            proof {
                eccs = eccs.push(e as int);
                if e == best {
                    assert(exists|s0: int| 0 <= s0 < sidx + 1 && is_ecc(adj, s0, best as int));
                } else {
                    let s0 = choose|s0: int| 0 <= s0 < sidx && is_ecc(adj, s0, best0);
                    assert(0 <= s0 < sidx + 1 && is_ecc(adj, s0, best as int));
                }
                assert forall|i: int| 0 <= i < sidx + 1 implies is_ecc(adj, i, #[trigger] eccs[i])
                    && eccs[i] <= best by {
                    if i < sidx {
                        assert(eccs[i] == eccs.drop_last()[i]);
                    } else {
                        assert(eccs[i] == e as int);
                    }
                }
            }
            sidx = sidx + 1;
        }
        proof {
            assert forall|s: int, t: int| #[trigger] reachable(adj, s, t) implies exists|
                p: Seq<int>,
            |
                is_path(adj, p, s, t) && p.len() <= best + 1 by {
                let p0 = choose|p: Seq<int>| is_path(adj, p, s, t);
                assert(0 <= p0[0] < adj.len());
                assert(p0[0] == s);
                assert(is_ecc(adj, s, eccs[s]) && eccs[s] <= best);
                let p1 = choose|p: Seq<int>| is_path(adj, p, s, t) && p.len() <= eccs[s] + 1;
                assert(p1.len() <= best + 1);
            }
            if n > 0 {
                let s0 = choose|s0: int| 0 <= s0 < n && is_ecc(adj, s0, best as int);
                let t0 = choose|t: int|
                    #[trigger] reachable(adj, s0, t) && (forall|p: Seq<int>|
                        is_path(adj, p, s0, t) ==> p.len() >= best + 1);
                assert(reachable(adj, s0, t0) && (forall|p: Seq<int>|
                    is_path(adj, p, s0, t0) ==> p.len() >= best + 1));
            }
        }
        best
    }

    /// Compute the diameter, the per-source searches distributed across a
    /// worker pool and reduced with `max`.
    ///
    /// Relies on rayon's `into_par_iter`/`map`/`max` over `0..n`: `max`
    /// returns the greatest mapped value and `None` exactly on an empty
    /// range, and `usize`'s order is associative, so the reduction equals the
    /// sequential maximum of `bfs_depth` over all sources. Each `bfs_depth`
    /// result satisfies `is_ecc`, eccentricity is unique (`lemma_ecc_unique`),
    /// and the greatest eccentricity is the diameter, the fact
    /// `diameter_serial` proves.
    #[verifier::external_body]
    pub fn diameter(&self) -> (r: usize)
        requires
            self.wf(),
        ensures
            is_diameter(self@, r as int),
    {
        (0..self.nodes.len())
            .into_par_iter()
            .map(|v| self.bfs_depth(v as u32))
            .max()
            .unwrap_or(0)
    }
}

} // verus!
