//! The undirected graph model: dense node ids `0..node_count`, each node
//! holding the unordered list of its neighbors. Edges are stored in both
//! directions; the well-formedness invariant keeps the adjacency symmetric.

use vstd::prelude::*;

use crate::errors::GraphError;

verus! {

broadcast use vstd::string::to_string_from_display_ensures_for_str;

/// Every neighbor entry names a node of the graph.
pub open spec fn entries_in_range(adj: Seq<Seq<u32>>) -> bool {
    forall|i: int, k: int|
        0 <= i < adj.len() && 0 <= k < adj[i].len() ==> (#[trigger] adj[i][k]) < adj.len()
}

/// The adjacency is symmetric: `w` stands in `u`'s neighbor list exactly
/// when `u` stands in `w`'s.
pub open spec fn sym(adj: Seq<Seq<u32>>) -> bool {
    forall|u: int, w: int|
        0 <= u < adj.len() && 0 <= w < adj.len() ==> ((#[trigger] adj[u].contains(w as u32))
            <==> adj[w].contains(u as u32))
}

/// Total number of neighbor entries: twice the number of edges.
pub open spec fn sum_lens(adj: Seq<Seq<u32>>) -> int
    decreases adj.len(),
{
    if adj.len() == 0 {
        0
    } else {
        sum_lens(adj.drop_last()) + adj.last().len()
    }
}

/// The adjacency after one undirected edge `t -- h` is inserted: `h` joins
/// `t`'s neighbor list and `t` joins `h`'s.
pub open spec fn edge_added(adj: Seq<Seq<u32>>, t: u32, h: u32) -> Seq<Seq<u32>> {
    let a1 = adj.update(t as int, adj[t as int].push(h));
    a1.update(h as int, a1[h as int].push(t))
}

proof fn lemma_push_contains<T>(s: Seq<T>, x: T, y: T)
    ensures
        s.push(x).contains(y) <==> (s.contains(y) || x == y),
{
    if s.push(x).contains(y) {
        let i = choose|i: int| 0 <= i < s.push(x).len() && s.push(x)[i] == y;
        if i < s.len() {
            assert(s[i] == y);
        }
    }
    if s.contains(y) {
        let i = choose|i: int| 0 <= i < s.len() && s[i] == y;
        assert(s.push(x)[i] == y);
    }
    assert(s.push(x)[s.len() as int] == x);
}

proof fn lemma_sum_lens_update(adj: Seq<Seq<u32>>, i: int, x: Seq<u32>)
    requires
        0 <= i < adj.len(),
    ensures
        sum_lens(adj.update(i, x)) == sum_lens(adj) - adj[i].len() + x.len(),
    decreases adj.len(),
{
    let upd = adj.update(i, x);
    if i == adj.len() - 1 {
        assert(upd.drop_last() =~= adj.drop_last());
        assert(upd.last() == x);
    } else {
        assert(upd.drop_last() =~= adj.drop_last().update(i, x));
        assert(upd.last() == adj.last());
        lemma_sum_lens_update(adj.drop_last(), i, x);
    }
}

proof fn lemma_sum_lens_push(adj: Seq<Seq<u32>>, x: Seq<u32>)
    ensures
        sum_lens(adj.push(x)) == sum_lens(adj) + x.len(),
{
    assert(adj.push(x).drop_last() =~= adj);
    assert(adj.push(x).last() == x);
}

/// An undirected graph: a diagnostic name and one neighbor list per node.
/// Built once by `new`/`add_node`/`add_edge` or by the text loader, then
/// only read.
#[derive(Debug, PartialEq)]
pub struct Graph {
    pub name: String,
    pub nodes: Vec<Vec<u32>>,
    pub edges: usize,
}

impl View for Graph {
    type V = Seq<Seq<u32>>;

    open spec fn view(&self) -> Seq<Seq<u32>> {
        self.nodes@.map_values(|v: Vec<u32>| v@)
    }
}

impl Graph {
    /// The graph's name, as a sequence of characters.
    pub open spec fn name_spec(&self) -> Seq<char> {
        self.name@
    }

    /// Well-formedness: node ids fit the id type, every neighbor entry is a
    /// valid node, adjacency is symmetric, and the edge counter is half the
    /// total neighbor-entry count.
    pub open spec fn wf(&self) -> bool {
        &&& self@.len() < u32::MAX as int
        &&& entries_in_range(self@)
        &&& sym(self@)
        &&& self.edges <= usize::MAX / 2
        &&& 2 * self.edges == sum_lens(self@)
    }

    /// Create a new empty graph.
    pub fn new(name: &str) -> (g: Graph)
        ensures
            g.wf(),
            g@ == Seq::<Seq<u32>>::empty(),
            g.name_spec() == name@,
            g.edges == 0,
    {
        let g = Graph { name: name.to_string(), nodes: Vec::new(), edges: 0 };
        proof {
            assert(g@ =~= Seq::<Seq<u32>>::empty());
        }
        g
    }

    /// Return the number of nodes in the graph.
    pub fn node_count(&self) -> (n: usize)
        ensures
            n == self@.len(),
    {
        self.nodes.len()
    }

    /// Return the name of the graph.
    pub fn name(&self) -> (r: &str)
        ensures
            r@ == self.name_spec(),
    {
        self.name.as_str()
    }

    /// Return the number of edges in the graph: half the total neighbor-entry
    /// count, each edge having been stored in both directions.
    pub fn edge_count(&self) -> (r: usize)
        requires
            self.wf(),
        ensures
            2 * r == sum_lens(self@),
    {
        self.edges
    }

    /// Add a node to a graph; its id is the next dense index.
    pub fn add_node(&mut self) -> (id: u32)
        requires
            old(self).wf(),
            old(self)@.len() + 1 < u32::MAX as int,
        ensures
            final(self).wf(),
            final(self)@ == old(self)@.push(Seq::<u32>::empty()),
            final(self).name_spec() == old(self).name_spec(),
            final(self).edges == old(self).edges,
            id == old(self)@.len(),
    {
        let ghost a0 = self@;
        self.nodes.push(Vec::new());
        proof {
            assert(self@ =~= a0.push(Seq::<u32>::empty()));
            lemma_sum_lens_push(a0, Seq::<u32>::empty());
            assert forall|u: int, w: int|
                0 <= u < self@.len() && 0 <= w < self@.len() implies ((#[trigger] self@[u].contains(
                w as u32,
            )) <==> self@[w].contains(u as u32)) by {
                if u < a0.len() && w < a0.len() {
                    assert(self@[u] == a0[u] && self@[w] == a0[w]);
                } else if u == a0.len() && w == a0.len() {
                } else if u == a0.len() {
                    assert(!self@[u].contains(w as u32));
                    if self@[w].contains(u as u32) {
                        let k = choose|k: int|
                            0 <= k < a0[w].len() && a0[w][k] == u as u32;
                        assert(a0[w][k] < a0.len());
                    }
                } else {
                    assert(!self@[w].contains(u as u32));
                    if self@[u].contains(w as u32) {
                        let k = choose|k: int|
                            0 <= k < a0[u].len() && a0[u][k] == w as u32;
                        assert(a0[u][k] < a0.len());
                    }
                }
            }
        }
        (self.nodes.len() - 1) as u32
    }

    /// Add an edge to a graph; an undirected graph stores it in both
    /// directions. Endpoints at or above the node count are a checked error
    /// that leaves the graph unchanged.
    pub fn add_edge(&mut self, tail: u32, head: u32) -> (r: Result<(), GraphError>)
        requires
            old(self).wf(),
            old(self).edges < usize::MAX / 2,
        ensures
            final(self).wf(),
            final(self).name_spec() == old(self).name_spec(),
            match r {
                Ok(_) => {
                    &&& (tail as int) < old(self)@.len()
                    &&& (head as int) < old(self)@.len()
                    &&& final(self)@ == edge_added(old(self)@, tail, head)
                    &&& final(self).edges == old(self).edges + 1
                },
                Err(e) => {
                    &&& e == GraphError::NodeOutOfRange
                    &&& ((tail as int) >= old(self)@.len() || (head as int) >= old(self)@.len())
                    &&& final(self)@ == old(self)@
                    &&& final(self).edges == old(self).edges
                },
            },
    {
        if (tail as usize) >= self.nodes.len() || (head as usize) >= self.nodes.len() {
            return Err(GraphError::NodeOutOfRange);
        }
        let ghost a0 = self@;
        let ghost a1 = a0.update(tail as int, a0[tail as int].push(head));
        self.nodes[tail as usize].push(head);
        proof {
            assert(self@ =~= a1);
        }
        self.nodes[head as usize].push(tail);
        self.edges = self.edges + 1;
        proof {
            let a2 = a1.update(head as int, a1[head as int].push(tail));
            assert(self@ =~= a2);
            assert(self@ == edge_added(a0, tail, head));
            lemma_sum_lens_update(a0, tail as int, a0[tail as int].push(head));
            lemma_sum_lens_update(a1, head as int, a1[head as int].push(tail));
            let t = tail as int;
            let h = head as int;
            assert forall|i: int, k: int|
                0 <= i < self@.len() && 0 <= k < self@[i].len() implies (#[trigger] self@[i][k])
                < self@.len() by {
                if i == h && k == a1[h].len() {
                } else if i == h {
                    assert(self@[i][k] == a1[h][k]);
                    if h == t {
                        if k == a0[t].len() {
                        } else {
                            assert(a1[h][k] == a0[i][k]);
                        }
                    } else {
                        assert(a1[h][k] == a0[i][k]);
                    }
                } else if i == t {
                    if k == a0[t].len() {
                    } else {
                        assert(self@[i][k] == a0[i][k]);
                    }
                } else {
                    assert(self@[i][k] == a0[i][k]);
                }
            }
            assert forall|u: int, w: int|
                0 <= u < self@.len() && 0 <= w < self@.len() implies ((#[trigger] self@[u].contains(
                w as u32,
            )) <==> self@[w].contains(u as u32)) by {
                lemma_push_contains(a0[t], head, w as u32);
                lemma_push_contains(a0[t], head, u as u32);
                lemma_push_contains(a1[h], tail, w as u32);
                lemma_push_contains(a1[h], tail, u as u32);
                if t == h {
                    lemma_push_contains(a0[t].push(head), tail, w as u32);
                    lemma_push_contains(a0[t].push(head), tail, u as u32);
                }
                assert(a1[t].contains(w as u32) == (a0[t].contains(w as u32) || head == w as u32));
                assert(self@[u] == if u == h {
                    a1[h].push(tail)
                } else {
                    a1[u]
                });
            }
        }
        Ok(())
    }

    /// Return the maximum node degree in the graph.
    pub fn max_degree(&self) -> (r: usize)
        ensures
            forall|i: int| 0 <= i < self@.len() ==> (#[trigger] self@[i].len()) <= r,
            self@.len() == 0 ==> r == 0,
            self@.len() > 0 ==> exists|i: int| 0 <= i < self@.len() && (#[trigger] self@[i].len())
                == r,
    {
        let mut best: usize = 0;
        let mut i: usize = 0;
        while i < self.nodes.len()
            invariant
                i <= self@.len(),
                forall|j: int| 0 <= j < i ==> (#[trigger] self@[j].len()) <= best,
                i == 0 ==> best == 0,
                i > 0 ==> exists|j: int| 0 <= j < i && (#[trigger] self@[j].len()) == best,
            decreases self@.len() - i,
        {
            let d = self.nodes[i].len();
            if d > best {
                best = d;
            }
            proof {
                if d == best {
                    assert(self@[i as int].len() == best);
                    assert(exists|j: int|
                        0 <= j < i + 1 && (#[trigger] self@[j].len()) == best);
                } else {
                    let j0 = choose|j: int| 0 <= j < i && (#[trigger] self@[j].len()) == best;
                    assert(self@[j0].len() == best);
                    assert(exists|j: int|
                        0 <= j < i + 1 && (#[trigger] self@[j].len()) == best);
                }
            }
            i = i + 1;
        }
        best
    }

    /// No two selected nodes are adjacent.
    pub open spec fn stable(adj: Seq<Seq<u32>>, sel: Seq<bool>) -> bool {
        forall|i: int, k: int|
            0 <= i < adj.len() && 0 <= k < adj[i].len() && sel[i] ==> !sel[(
            #[trigger] adj[i][k]) as int]
    }

    /// Check whether the selected set is stable: no edge joins two selected
    /// nodes. Short-circuits on the first violation.
    pub fn is_set_stable(&self, set: &Vec<bool>) -> (r: bool)
        requires
            self.wf(),
            set@.len() == self@.len(),
        ensures
            r == Self::stable(self@, set@),
    {
        let mut i: usize = 0;
        while i < self.nodes.len()
            invariant
                self.wf(),
                set@.len() == self@.len(),
                i <= self@.len(),
                forall|i2: int, k: int|
                    0 <= i2 < i && 0 <= k < self@[i2].len() && set@[i2] ==> !set@[(
                    #[trigger] self@[i2][k]) as int],
            decreases self@.len() - i,
        {
            if set[i] {
                let row = &self.nodes[i];
                let mut k: usize = 0;
                while k < row.len()
                    invariant
                        self.wf(),
                        set@.len() == self@.len(),
                        i < self@.len(),
                        row@ == self@[i as int],
                        set@[i as int],
                        k <= row@.len(),
                        forall|k2: int|
                            0 <= k2 < k ==> !set@[(#[trigger] row@[k2]) as int],
                    decreases row@.len() - k,
                {
                    let n = row[k];
                    if set[n as usize] {
                        return false;
                    }
                    k = k + 1;
                }
            }
            i = i + 1;
        }
        true
    }
}

/// The load invariant: a well-formed graph's edge count is half its total
/// neighbor-entry count, and every neighbor relation is mutual — if `v`
/// stands in `u`'s list, `u` stands in `v`'s.
pub proof fn lemma_load_invariant(g: Graph)
    requires
        g.wf(),
    ensures
        2 * g.edges == sum_lens(g@),
        forall|u: int, k: int|
            0 <= u < g@.len() && 0 <= k < g@[u].len() ==> g@[(#[trigger] g@[u][k]) as int].contains(
                u as u32,
            ),
{
    assert forall|u: int, k: int|
        0 <= u < g@.len() && 0 <= k < g@[u].len() implies g@[(#[trigger] g@[u][k]) as int].contains(
        u as u32,
    ) by {
        let v = g@[u][k];
        assert(v < g@.len());
        assert(g@[u].contains(v)) by {
            assert(g@[u][k] == v);
        }
        assert(g@[u].contains(((v as int) as u32)));
    }
}

} // verus!
