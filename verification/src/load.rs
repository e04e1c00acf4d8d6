//! Line-oriented graph loader for the edge-list text format:
//! comment lines start with `c`, exactly one `p <word> <nodes> <edges>`
//! dimension line precedes the `e <tail> <head>` edge lines, endpoints are
//! 1-based, self-loops are rejected, and the declared edge count must be
//! met exactly.

use vstd::prelude::*;

use crate::errors::LoadError;
use crate::graph::Graph;
use crate::graph::edge_added;
use crate::text::parse_u64;
use crate::text::parse_u64_spec;
use crate::text::split_lines;
use crate::text::split_lines_spec;
use crate::text::tokens;
use crate::text::tokens_spec;
use crate::text::lemma_tokens_nonempty;

verus! {

/// The loader's running state: the adjacency built so far, the declared node
/// count, the declared edges still owed, and the edges added so far.
pub struct LoadState {
    pub adj: Seq<Seq<u32>>,
    pub nc: int,
    pub ec: int,
    pub ne: int,
}

/// What one line does to the loader's state, mirroring the format exactly:
/// the outcome is `Err` precisely on the line's first violation.
pub open spec fn load_line(st: LoadState, line: Seq<u8>, lineno: int) -> Result<
    LoadState,
    LoadError,
> {
    let toks = tokens_spec(line);
    if toks.len() == 0 || toks[0][0] == 99 {
        Ok(st)
    } else if toks[0][0] == 112 {
        if toks.len() < 4 || st.nc != 0 || st.ec != 0 {
            Err(LoadError::SyntaxError { line: lineno as usize })
        } else {
            match parse_u64_spec(toks[2]) {
                Option::None => Err(LoadError::BadNodeCount { line: lineno as usize }),
                Option::Some(nc) => match parse_u64_spec(toks[3]) {
                    Option::None => Err(LoadError::BadEdgeCount { line: lineno as usize }),
                    Option::Some(ec) => if nc >= u32::MAX as u64 {
                        Err(LoadError::BadNodeCount { line: lineno as usize })
                    } else {
                        Ok(
                            LoadState {
                                adj: Seq::new(nc as nat, |i| Seq::<u32>::empty()),
                                nc: nc as int,
                                ec: ec as int,
                                ne: st.ne,
                            },
                        )
                    },
                },
            }
        }
    } else if toks[0][0] == 101 {
        if toks.len() < 3 || st.nc == 0 || st.ec == 0 {
            Err(LoadError::SyntaxError { line: lineno as usize })
        } else {
            match parse_u64_spec(toks[1]) {
                Option::None => Err(LoadError::BadNodeNo { line: lineno as usize }),
                Option::Some(tail) => if tail > u32::MAX as u64 {
                    Err(LoadError::BadNodeNo { line: lineno as usize })
                } else {
                    match parse_u64_spec(toks[2]) {
                        Option::None => Err(LoadError::BadNodeNo { line: lineno as usize }),
                        Option::Some(head) => if head > u32::MAX as u64 {
                            Err(LoadError::BadNodeNo { line: lineno as usize })
                        } else if tail < 1 || tail as int > st.nc || head < 1 || head as int
                            > st.nc || tail == head {
                            Err(
                                LoadError::EdgeOutOfRange {
                                    line: lineno as usize,
                                    tail,
                                    head,
                                    node_count: st.nc as usize,
                                },
                            )
                        } else if st.ne >= usize::MAX as int / 2 {
                            Err(LoadError::TooManyEdges { line: lineno as usize })
                        } else {
                            Ok(
                                LoadState {
                                    adj: edge_added(st.adj, (head - 1) as u32, (tail - 1) as u32),
                                    nc: st.nc,
                                    ec: st.ec - 1,
                                    ne: st.ne + 1,
                                },
                            )
                        },
                    }
                },
            }
        }
    } else {
        Err(LoadError::SyntaxError { line: lineno as usize })
    }
}

pub open spec fn load_lines(ls: Seq<Seq<u8>>, k: int, st: LoadState) -> Result<
    LoadState,
    LoadError,
>
    decreases ls.len() - k,
{
    if k < 0 || k >= ls.len() {
        Ok(st)
    } else {
        match load_line(st, ls[k], k + 1) {
            Ok(st2) => load_lines(ls, k + 1, st2),
            Err(e) => Err(e),
        }
    }
}

/// What loading a whole text returns: the line fold, then the check that the
/// declared edge count was met.
pub open spec fn load_spec(data: Seq<u8>) -> Result<LoadState, LoadError> {
    let ls = split_lines_spec(data);
    match load_lines(ls, 0, LoadState { adj: Seq::<Seq<u32>>::empty(), nc: 0, ec: 0, ne: 0 }) {
        Ok(st) => if st.ec != 0 {
            Err(LoadError::MissingEdges { missing: st.ec as u64 })
        } else {
            Ok(st)
        },
        Err(e) => Err(e),
    }
}

impl Graph {
    /// Create a new graph from the data of an edge-list text. The result is
    /// exactly what `load_spec` says: a well-formed graph on success, the
    /// first violation's error otherwise.
    pub fn read_from_text(name: &str, data: &[u8]) -> (r: Result<Graph, LoadError>)
        ensures
            match r {
                Ok(g) => {
                    &&& load_spec(data@) is Ok
                    &&& g@ == load_spec(data@)->Ok_0.adj
                    &&& g.wf()
                    &&& g.name_spec() == name@
                },
                Err(e) => load_spec(data@) == Err::<LoadState, LoadError>(e),
            },
    {
        let ghost ls = split_lines_spec(data@);
        let lines = split_lines(data);
        let mut g = Graph::new(name);
        let mut node_cnt: usize = 0;
        let mut edge_left: u64 = 0;
        let mut k: usize = 0;
        proof {
            assert(g@ =~= Seq::<Seq<u32>>::empty());
        }
        while k < lines.len()
            invariant
                k <= lines@.len(),
                ls == split_lines_spec(data@),
                lines@.map_values(|l: Vec<u8>| l@) == ls,
                g.wf(),
                g.name_spec() == name@,
                node_cnt == g@.len(),
                node_cnt < u32::MAX,
                load_lines(ls, 0, LoadState { adj: Seq::<Seq<u32>>::empty(), nc: 0, ec: 0, ne: 0 })
                    == load_lines(
                    ls,
                    k as int,
                    LoadState { adj: g@, nc: node_cnt as int, ec: edge_left as int, ne: g.edges as int },
                ),
            decreases lines@.len() - k,
        {
            let ghost st = LoadState {
                adj: g@,
                nc: node_cnt as int,
                ec: edge_left as int,
                ne: g.edges as int,
            };
            let line = &lines[k];
            proof {
                assert(line@ == ls[k as int]);
                lemma_tokens_nonempty(line@);
            }
            let toks = tokens(line.as_slice());
            let lineno: usize = k + 1;
            if toks.len() == 0 || toks[0][0] == 99 {
                proof {
                    assert(load_line(st, ls[k as int], k + 1) == Ok::<LoadState, LoadError>(st));
                }
            } else if toks[0][0] == 112 {
                if toks.len() < 4 || node_cnt != 0 || edge_left != 0 {
                    return Err(LoadError::SyntaxError { line: lineno });
                }
                let nc_parsed = match parse_u64(toks[2].as_slice()) {
                    Option::Some(v) => v,
                    Option::None => {
                        return Err(LoadError::BadNodeCount { line: lineno });
                    },
                };
                let ec_parsed = match parse_u64(toks[3].as_slice()) {
                    Option::Some(v) => v,
                    Option::None => {
                        return Err(LoadError::BadEdgeCount { line: lineno });
                    },
                };
                if nc_parsed >= u32::MAX as u64 {
                    return Err(LoadError::BadNodeCount { line: lineno });
                }
                g = Graph::new(name);
                node_cnt = nc_parsed as usize;
                edge_left = ec_parsed;
                let mut j: usize = 0;
                proof {
                    assert(g@ =~= Seq::<Seq<u32>>::empty());
                    assert(g@ =~= Seq::new(0, |i: int| Seq::<u32>::empty()));
                }
                while j < node_cnt
                    invariant
                        j <= node_cnt,
                        node_cnt < u32::MAX,
                        g.wf(),
                        g.edges == 0,
                        g.name_spec() == name@,
                        g@ == Seq::new(j as nat, |i: int| Seq::<u32>::empty()),
                    decreases node_cnt - j,
                {
                    g.add_node();
                    proof {
                        assert(g@ =~= Seq::new((j + 1) as nat, |i: int| Seq::<u32>::empty()));
                    }
                    j = j + 1;
                }
                proof {
                    assert(load_line(st, ls[k as int], k + 1) == Ok::<LoadState, LoadError>(
                        LoadState {
                            adj: g@,
                            nc: node_cnt as int,
                            ec: edge_left as int,
                            ne: g.edges as int,
                        },
                    ));
                }
            } else if toks[0][0] == 101 {
                if toks.len() < 3 || node_cnt == 0 || edge_left == 0 {
                    return Err(LoadError::SyntaxError { line: lineno });
                }
                let tail = match parse_u64(toks[1].as_slice()) {
                    Option::Some(v) => v,
                    Option::None => {
                        return Err(LoadError::BadNodeNo { line: lineno });
                    },
                };
                if tail > u32::MAX as u64 {
                    return Err(LoadError::BadNodeNo { line: lineno });
                }
                let head = match parse_u64(toks[2].as_slice()) {
                    Option::Some(v) => v,
                    Option::None => {
                        return Err(LoadError::BadNodeNo { line: lineno });
                    },
                };
                if head > u32::MAX as u64 {
                    return Err(LoadError::BadNodeNo { line: lineno });
                }
                if tail < 1 || tail > node_cnt as u64 || head < 1 || head > node_cnt as u64 || tail
                    == head {
                    return Err(
                        LoadError::EdgeOutOfRange { line: lineno, tail, head, node_count: node_cnt },
                    );
                }
                if g.edges >= usize::MAX / 2 {
                    return Err(LoadError::TooManyEdges { line: lineno });
                }
                match g.add_edge((head - 1) as u32, (tail - 1) as u32) {
                    Ok(_) => {},
                    Err(_) => {
                        proof {
                            assert(false);
                        }
                    },
                }
                edge_left = edge_left - 1;
                proof {
                    assert(load_line(st, ls[k as int], k + 1) == Ok::<LoadState, LoadError>(
                        LoadState {
                            adj: g@,
                            nc: node_cnt as int,
                            ec: edge_left as int,
                            ne: g.edges as int,
                        },
                    ));
                }
            } else {
                return Err(LoadError::SyntaxError { line: lineno });
            }
            k = k + 1;
        }
        if edge_left != 0 {
            return Err(LoadError::MissingEdges { missing: edge_left });
        }
        Ok(g)
    }
}

} // verus!
