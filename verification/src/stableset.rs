//! The stable-set checker: decode the candidate selection, then test that no
//! edge joins two selected nodes. Node, edge, component and selection counts
//! are reported as diagnostics whatever the verdict.

use vstd::prelude::*;

use crate::connectivity::rep_count;
use crate::decoder::decode_spec;
use crate::decoder::extract_selection;
use crate::decoder::lemma_decode_len;
use crate::errors::FormatError;
use crate::graph::Graph;
use crate::graph::sum_lens;

verus! {

/// How many entries of a selection are set.
pub open spec fn count_true(s: Seq<bool>) -> int
    decreases s.len(),
{
    if s.len() == 0 {
        0
    } else {
        count_true(s.drop_last()) + if s.last() {
            1int
        } else {
            0int
        }
    }
}

/// The decoded boolean selection a solution text denotes for a graph of
/// `dim` nodes.
pub open spec fn selection_spec(data: Seq<u8>, dim: usize) -> Seq<bool> {
    decode_spec(data, dim, 1, 0)->Ok_0.map_values(|x: i32| x == 1)
}

/// The checker's diagnostics and verdict.
#[derive(Clone, Copy, Debug, PartialEq, Eq, Structural)]
pub struct StableSetReport {
    pub nodes: usize,
    pub edges: usize,
    pub components: usize,
    pub set_size: usize,
    pub verified: bool,
}

/// What the checker's outcome must be for a graph and a solution text:
/// each diagnostic is pinned by the graph and the decoded selection, the
/// verdict by stability; a decode failure is handed through.
pub open spec fn report_matches(
    adj: Seq<Seq<u32>>,
    data: Seq<u8>,
    r: Result<StableSetReport, FormatError>,
) -> bool {
    match r {
        Ok(rep) => {
            &&& decode_spec(data, adj.len() as usize, 1i32, 0i32) is Ok
            &&& rep.nodes == adj.len()
            &&& 2 * rep.edges == sum_lens(adj)
            &&& rep.components == rep_count(adj, adj.len() as int)
            &&& rep.set_size == count_true(selection_spec(data, adj.len() as usize))
            &&& rep.verified == Graph::stable(adj, selection_spec(data, adj.len() as usize))
        },
        Err(e) => decode_spec(data, adj.len() as usize, 1i32, 0i32) == Err::<Seq<i32>, FormatError>(
            e,
        ),
    }
}

/// One outcome per input: any two results the contract allows for the same
/// graph and solution text are equal, so a second run cannot differ.
pub proof fn lemma_verify_idempotent(
    adj: Seq<Seq<u32>>,
    data: Seq<u8>,
    r1: Result<StableSetReport, FormatError>,
    r2: Result<StableSetReport, FormatError>,
)
    requires
        report_matches(adj, data, r1),
        report_matches(adj, data, r2),
    ensures
        r1 == r2,
{
}

/// Decode a solution for `g` and check it: the verdict is `true` exactly
/// when the selected set is stable. A malformed solution text is the
/// decoder's error; an infeasible selection is a normal `false` verdict.
pub fn verify_solution(g: &Graph, solution_data: &[u8]) -> (r: Result<
    StableSetReport,
    FormatError,
>)
    requires
        g.wf(),
    ensures
        report_matches(g@, solution_data@, r),
{
    let dim = g.node_count();
    let selection = match extract_selection(solution_data, dim) {
        Ok(v) => v,
        Err(e) => {
            return Err(e);
        },
    };
    proof {
        lemma_decode_len(solution_data@, dim, 1, 0);
    }
    let mut set_size: usize = 0;
    let mut i: usize = 0;
    while i < selection.len()
        invariant
            i <= selection@.len(),
            set_size == count_true(selection@.take(i as int)),
            set_size <= i,
        decreases selection@.len() - i,
    {
        if selection[i] {
            set_size = set_size + 1;
        }
        proof {
            assert(selection@.take(i + 1).drop_last() =~= selection@.take(i as int));
            assert(selection@.take(i + 1).last() == selection@[i as int]);
        }
        i = i + 1;
    }
    proof {
        assert(selection@.take(i as int) =~= selection@);
    }
    let components = g.connected_components();
    let verified = g.is_set_stable(&selection);
    Ok(
        StableSetReport {
            nodes: dim,
            edges: g.edge_count(),
            components,
            set_size,
            verified,
        },
    )
}

} // verus!
