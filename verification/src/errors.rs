//! Error types. A checker aborts with one of these when the input text is
//! malformed; an infeasible but well-formed solution is reported through a
//! normal verdict instead.

use vstd::prelude::*;

verus! {

/// Failure while sniffing or decoding a solution text.
#[allow(inconsistent_fields)]
#[derive(Clone, Copy, Debug, PartialEq, Eq, Structural)]
pub enum FormatError {
    /// The input holds nothing but whitespace.
    Empty,
    /// A byte that no format allows, at byte offset `pos` (0-based).
    UnexpectedChar { pos: usize, found: u8 },
    /// A dense 0/1 vector whose digit count is not the expected dimension.
    WrongLength { expected: usize, found: usize },
    /// A 1-based variable index outside `1..=dim`, on text line `line` (1-based).
    /// A line counter or an accumulated index wider than its type saturates.
    IndexOutOfRange { line: usize, index: u64, dim: usize },
    /// In an annotated line, the value after the whitespace is not `0`/`1`.
    BadValueChar { line: usize, found: u8 },
}

/// Failure of `Graph::add_edge`: an endpoint at or above the node count.
#[derive(Clone, Copy, Debug, PartialEq, Eq, Structural)]
pub enum GraphError {
    NodeOutOfRange,
}

/// Failure while loading a graph from its edge-list text.
#[derive(Clone, Copy, Debug, PartialEq, Eq, Structural)]
pub enum LoadError {
    /// A line that is no comment, dimension or edge line, a repeated or
    /// too-short dimension line, or an edge line before the dimension line
    /// or after the declared edge count is exhausted.
    SyntaxError { line: usize },
    /// The dimension line's node count is not a number the node id type holds.
    BadNodeCount { line: usize },
    /// The dimension line's edge count is not a number.
    BadEdgeCount { line: usize },
    /// An edge line's endpoint is not a number the node id type holds.
    BadNodeNo { line: usize },
    /// An edge endpoint outside `1..=node_count`, or a self-loop.
    EdgeOutOfRange { line: usize, tail: u64, head: u64, node_count: usize },
    /// More edges than the machine's address space lets the graph count.
    TooManyEdges { line: usize },
    /// Fewer edge lines than the dimension line declared.
    MissingEdges { missing: u64 },
}

/// Failure of the multi-network checker: malformed auxiliary files,
/// references to unknown edges, or an infeasible network structure.
#[derive(Clone, Copy, Debug, PartialEq, Eq, Structural)]
pub enum SteinerError {
    /// An arcs line with fewer than three fields.
    ArcsLineMalformed { line: usize },
    /// An arcs field that is not a number.
    ArcsBadNumber { line: usize },
    /// A terminals line with fewer than two fields.
    TermsLineMalformed { line: usize },
    /// A terminals field that is not a number.
    TermsBadNumber { line: usize },
    /// A solution line with fewer than three fields.
    SolLineMalformed { line: usize },
    /// A solution field that is not a number.
    SolBadNumber { line: usize },
    /// A solution edge absent from the arcs file.
    EdgeNotInArcs { line: usize, head: u64, tail: u64 },
    /// A network that selects edges but declares no terminals.
    NetworkWithoutTerminals { network: u64 },
    /// A declared terminal that no selected edge of its network touches.
    TerminalNotCovered { network: u64, terminal: u64 },
    /// A declared terminal not reachable from the network's first terminal.
    TerminalNotConnected { network: u64, terminal: u64 },
    /// Two networks whose selected edges touch a common node.
    SharedNode { network_a: u64, network_b: u64 },
    /// A network with more nodes or edges than the machine's graph
    /// representation can index.
    NetworkTooLarge { network: u64 },
    /// A selected edge no longer present in the arcs map.
    SolutionEdgeMissing { head: u64, tail: u64 },
    /// The summed edge weights exceed the widest machine integer.
    CostOverflow,
}

} // verus!
