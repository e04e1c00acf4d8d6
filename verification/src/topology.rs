//! The order-degree checker: a candidate graph is feasible when it has the
//! required node count, stays within the degree bound, is connected, and
//! meets the required diameter.

use vstd::prelude::*;

use crate::connectivity::is_diameter;
use crate::connectivity::rep_count;
use crate::graph::Graph;
use crate::graph::sum_lens;

verus! {

/// The checker's diagnostics and verdict.
#[derive(Clone, Copy, Debug, PartialEq, Eq, Structural)]
pub struct TopologyReport {
    pub nodes: usize,
    pub edges: usize,
    pub max_degree: usize,
    pub components: usize,
    pub diameter: usize,
    pub verified: bool,
}

/// What the checker's report must be: each diagnostic pinned by the graph,
/// the verdict by the required counts and bounds.
pub open spec fn report_matches(
    node_count: usize,
    max_degree: usize,
    diameter: usize,
    adj: Seq<Seq<u32>>,
    r: TopologyReport,
) -> bool {
    &&& r.nodes == adj.len()
    &&& 2 * r.edges == sum_lens(adj)
    &&& (forall|i: int| 0 <= i < adj.len() ==> (#[trigger] adj[i].len()) <= r.max_degree)
    &&& (adj.len() == 0 ==> r.max_degree == 0)
    &&& (adj.len() > 0 ==> exists|i: int|
        0 <= i < adj.len() && (#[trigger] adj[i].len()) == r.max_degree)
    &&& r.components == rep_count(adj, adj.len() as int)
    &&& is_diameter(adj, r.diameter as int)
    &&& r.verified == (node_count == adj.len() && r.max_degree <= max_degree && r.components <= 1
        && r.diameter <= diameter)
}

/// One outcome per input: any two results the contract allows for the same
/// requirements and graph are equal, so a second run cannot differ.
pub proof fn lemma_verify_idempotent(
    node_count: usize,
    max_degree: usize,
    diameter: usize,
    adj: Seq<Seq<u32>>,
    r1: TopologyReport,
    r2: TopologyReport,
)
    requires
        report_matches(node_count, max_degree, diameter, adj, r1),
        report_matches(node_count, max_degree, diameter, adj, r2),
    ensures
        r1 == r2,
{
    crate::connectivity::lemma_diameter_unique(adj, r1.diameter as int, r2.diameter as int);
    if adj.len() > 0 {
        let i1 = choose|i: int| 0 <= i < adj.len() && (#[trigger] adj[i].len()) == r1.max_degree;
        let i2 = choose|i: int| 0 <= i < adj.len() && (#[trigger] adj[i].len()) == r2.max_degree;
        assert(adj[i1].len() <= r2.max_degree);
        assert(adj[i2].len() <= r1.max_degree);
    }
}

/// Check a candidate graph against the required node count, degree bound
/// and diameter: feasible exactly when the counts match, no degree exceeds
/// the bound, the graph is one component, and the diameter is at most the
/// required one.
pub fn verify_solution(node_count: usize, max_degree: usize, diameter: usize, g: &Graph) -> (r:
    TopologyReport)
    requires
        g.wf(),
    ensures
        report_matches(node_count, max_degree, diameter, g@, r),
{
    let nodes = g.node_count();
    let edges = g.edge_count();
    let md = g.max_degree();
    let components = g.connected_components();
    let d = g.diameter();
    let verified = node_count == nodes && md <= max_degree && components <= 1 && d <= diameter;
    TopologyReport { nodes, edges, max_degree: md, components, diameter: d, verified }
}

} // verus!
