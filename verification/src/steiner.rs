//! The multi-network Steiner checker: an arcs file gives the undirected
//! edges and their weights, a terminals file assigns terminal nodes to
//! networks, and a solution file selects edges per network. Each network's
//! selected edges must cover and connect its terminals, distinct networks
//! must touch disjoint node sets, and the total cost is the sum of the
//! selected edges' weights, per network.
//!
//! Node ids are arbitrary 64-bit numbers; a network's selected edges are
//! remapped to dense ids before the breadth-first search.

use vstd::prelude::*;

use crate::connectivity::reachable;
use crate::errors::SteinerError;
use crate::graph::Graph;
use crate::graph::edge_added;
use crate::text::parse_u64;
use crate::text::parse_u64_spec;
use crate::text::split_lines;
use crate::text::split_lines_spec;
use crate::text::tokens;
use crate::text::tokens_spec;
use crate::text::lemma_tokens_nonempty;

verus! {

// ---------------------------------------------------------------------------
// First-index searches
// ---------------------------------------------------------------------------

/// Index of the first element satisfying `p`, or the length.
pub open spec fn find_first<T>(s: Seq<T>, p: spec_fn(T) -> bool) -> int
    decreases s.len(),
{
    if s.len() == 0 {
        0
    } else if p(s[0]) {
        0
    } else {
        1 + find_first(s.skip(1), p)
    }
}

pub proof fn lemma_find_first<T>(s: Seq<T>, p: spec_fn(T) -> bool)
    ensures
        0 <= find_first(s, p) <= s.len(),
        find_first(s, p) < s.len() ==> p(s[find_first(s, p)]),
        forall|j: int| 0 <= j < find_first(s, p) ==> !p(s[j]),
    decreases s.len(),
{
    if s.len() != 0 && !p(s[0]) {
        lemma_find_first(s.skip(1), p);
        assert forall|j: int| 0 <= j < find_first(s, p) implies !p(s[j]) by {
            if j > 0 {
                assert(s.skip(1)[j - 1] == s[j]);
            }
        }
    }
}

/// An arcs-file key: both endpoints, the smaller first.
pub open spec fn arc_key(a: u64, b: u64) -> spec_fn(Arc) -> bool {
    |x: Arc| x.a == a && x.b == b
}

/// A per-network record's key.
pub open spec fn net_key<T>(id: u64) -> spec_fn((u64, T)) -> bool {
    |x: (u64, T)| x.0 == id
}

/// A node label's key.
pub open spec fn node_key(v: u64) -> spec_fn(u64) -> bool {
    |x: u64| x == v
}

// ---------------------------------------------------------------------------
// The arcs file
// ---------------------------------------------------------------------------

/// One undirected weighted edge, endpoints ordered `a <= b`.
#[derive(Clone, Copy, Debug, PartialEq, Eq, Structural)]
pub struct Arc {
    pub a: u64,
    pub b: u64,
    pub w: u64,
}

/// Index of the arc with the given normalized endpoints, or the length.
pub open spec fn arc_pos(arcs: Seq<Arc>, a: u64, b: u64) -> int {
    find_first(arcs, arc_key(a, b))
}

/// What one arcs line does: a comment or blank line is skipped; otherwise
/// three numbers give an edge, and a repeated edge replaces its weight.
pub open spec fn arcs_line(st: Seq<Arc>, line: Seq<u8>, lineno: int) -> Result<
    Seq<Arc>,
    SteinerError,
> {
    let toks = tokens_spec(line);
    if toks.len() == 0 || toks[0][0] == 35 {
        Ok(st)
    } else if toks.len() < 3 {
        Err(SteinerError::ArcsLineMalformed { line: lineno as usize })
    } else {
        match parse_u64_spec(toks[0]) {
            Option::None => Err(SteinerError::ArcsBadNumber { line: lineno as usize }),
            Option::Some(head) => match parse_u64_spec(toks[1]) {
                Option::None => Err(SteinerError::ArcsBadNumber { line: lineno as usize }),
                Option::Some(tail) => match parse_u64_spec(toks[2]) {
                    Option::None => Err(SteinerError::ArcsBadNumber { line: lineno as usize }),
                    Option::Some(w) => {
                        let a = if head < tail {
                            head
                        } else {
                            tail
                        };
                        let b = if head < tail {
                            tail
                        } else {
                            head
                        };
                        let p = arc_pos(st, a, b);
                        if p < st.len() {
                            Ok(st.update(p, Arc { a, b, w }))
                        } else {
                            Ok(st.push(Arc { a, b, w }))
                        }
                    },
                },
            },
        }
    }
}

pub open spec fn arcs_lines(ls: Seq<Seq<u8>>, k: int, st: Seq<Arc>) -> Result<
    Seq<Arc>,
    SteinerError,
>
    decreases ls.len() - k,
{
    if k < 0 || k >= ls.len() {
        Ok(st)
    } else {
        match arcs_line(st, ls[k], k + 1) {
            Ok(st2) => arcs_lines(ls, k + 1, st2, ),
            Err(e) => Err(e),
        }
    }
}

/// What parsing a whole arcs text returns.
pub open spec fn arcs_spec(data: Seq<u8>) -> Result<Seq<Arc>, SteinerError> {
    arcs_lines(split_lines_spec(data), 0, Seq::<Arc>::empty())
}

/// Find the arc with the given normalized endpoints.
fn find_arc(arcs: &Vec<Arc>, a: u64, b: u64) -> (r: usize)
    ensures
        r == arc_pos(arcs@, a, b),
{
    let mut j: usize = 0;
    while j < arcs.len()
        invariant
            j <= arcs@.len(),
            forall|i: int| 0 <= i < j ==> !((#[trigger] arcs@[i]).a == a && arcs@[i].b == b),
        decreases arcs@.len() - j,
    {
        if arcs[j].a == a && arcs[j].b == b {
            proof {
                lemma_find_first(arcs@, arc_key(a, b));
                assert(arc_key(a, b)(arcs@[j as int]));
                assert forall|i: int| 0 <= i < j implies !arc_key(a, b)(arcs@[i]) by {}
                if arc_pos(arcs@, a, b) < j {
                    assert(arc_key(a, b)(arcs@[arc_pos(arcs@, a, b)]));
                }
            }
            return j;
        }
        j = j + 1;
    }
    proof {
        lemma_find_first(arcs@, arc_key(a, b));
        if arc_pos(arcs@, a, b) < arcs@.len() {
            assert(arc_key(a, b)(arcs@[arc_pos(arcs@, a, b)]));
        }
    }
    arcs.len()
}

/// Read arcs from the file's data: `head tail weight` per line, `#`
/// comments and blank lines skipped, endpoints normalized so the map is
/// undirected.
pub fn read_arcs(data: &[u8]) -> (r: Result<Vec<Arc>, SteinerError>)
    ensures
        match r {
            Ok(arcs) => arcs_spec(data@) == Ok::<Seq<Arc>, SteinerError>(arcs@),
            Err(e) => arcs_spec(data@) == Err::<Seq<Arc>, SteinerError>(e),
        },
{
    let ghost ls = split_lines_spec(data@);
    let lines = split_lines(data);
    let mut arcs: Vec<Arc> = Vec::new();
    let mut k: usize = 0;
    proof {
        assert(arcs@ =~= Seq::<Arc>::empty());
    }
    while k < lines.len()
        invariant
            k <= lines@.len(),
            ls == split_lines_spec(data@),
            lines@.map_values(|l: Vec<u8>| l@) == ls,
            arcs_lines(ls, 0, Seq::<Arc>::empty()) == arcs_lines(ls, k as int, arcs@),
        decreases lines@.len() - k,
    {
        let ghost st = arcs@;
        let line = &lines[k];
        proof {
            assert(line@ == ls[k as int]);
            lemma_tokens_nonempty(line@);
        }
        let toks = tokens(line.as_slice());
        if toks.len() == 0 || toks[0][0] == 35 {
            proof {
                assert(arcs_line(st, ls[k as int], k + 1) == Ok::<Seq<Arc>, SteinerError>(st));
            }
        } else if toks.len() < 3 {
            return Err(SteinerError::ArcsLineMalformed { line: k + 1 });
        } else {
            let head = match parse_u64(toks[0].as_slice()) {
                Option::Some(v) => v,
                Option::None => {
                    return Err(SteinerError::ArcsBadNumber { line: k + 1 });
                },
            };
            let tail = match parse_u64(toks[1].as_slice()) {
                Option::Some(v) => v,
                Option::None => {
                    return Err(SteinerError::ArcsBadNumber { line: k + 1 });
                },
            };
            let w = match parse_u64(toks[2].as_slice()) {
                Option::Some(v) => v,
                Option::None => {
                    return Err(SteinerError::ArcsBadNumber { line: k + 1 });
                },
            };
            let a = if head < tail {
                head
            } else {
                tail
            };
            let b = if head < tail {
                tail
            } else {
                head
            };
            let p = find_arc(&arcs, a, b);
            if p < arcs.len() {
                arcs.set(p, Arc { a, b, w });
            } else {
                arcs.push(Arc { a, b, w });
            }
            proof {
                assert(arcs_line(st, ls[k as int], k + 1) == Ok::<Seq<Arc>, SteinerError>(
                    arcs@,
                ));
            }
        }
        k = k + 1;
    }
    Ok(arcs)
}

// ---------------------------------------------------------------------------
// The terminals file
// ---------------------------------------------------------------------------

/// The mathematical view of per-network records.
pub open spec fn terms_view(t: Seq<(u64, Vec<u64>)>) -> Seq<(u64, Seq<u64>)> {
    t.map_values(|p: (u64, Vec<u64>)| (p.0, p.1@))
}

/// Index of the record for the network, or the length.
pub open spec fn net_pos<T>(ts: Seq<(u64, T)>, id: u64) -> int {
    find_first(ts, net_key::<T>(id))
}

/// What one terminals line does: `node network` appends the node to the
/// network's terminal list, networks appearing in first-seen order.
pub open spec fn terms_line(st: Seq<(u64, Seq<u64>)>, line: Seq<u8>, lineno: int) -> Result<
    Seq<(u64, Seq<u64>)>,
    SteinerError,
> {
    let toks = tokens_spec(line);
    if toks.len() == 0 || toks[0][0] == 35 {
        Ok(st)
    } else if toks.len() < 2 {
        Err(SteinerError::TermsLineMalformed { line: lineno as usize })
    } else {
        match parse_u64_spec(toks[0]) {
            Option::None => Err(SteinerError::TermsBadNumber { line: lineno as usize }),
            Option::Some(node) => match parse_u64_spec(toks[1]) {
                Option::None => Err(SteinerError::TermsBadNumber { line: lineno as usize }),
                Option::Some(network) => {
                    let p = net_pos(st, network);
                    if p < st.len() {
                        Ok(st.update(p, (network, st[p].1.push(node))))
                    } else {
                        Ok(st.push((network, seq![node])))
                    }
                },
            },
        }
    }
}

pub open spec fn terms_lines(ls: Seq<Seq<u8>>, k: int, st: Seq<(u64, Seq<u64>)>) -> Result<
    Seq<(u64, Seq<u64>)>,
    SteinerError,
>
    decreases ls.len() - k,
{
    if k < 0 || k >= ls.len() {
        Ok(st)
    } else {
        match terms_line(st, ls[k], k + 1) {
            Ok(st2) => terms_lines(ls, k + 1, st2),
            Err(e) => Err(e),
        }
    }
}

/// What parsing a whole terminals text returns.
pub open spec fn terms_spec(data: Seq<u8>) -> Result<Seq<(u64, Seq<u64>)>, SteinerError> {
    terms_lines(split_lines_spec(data), 0, Seq::<(u64, Seq<u64>)>::empty())
}

/// Find the record for a network id.
fn find_net<T>(ts: &Vec<(u64, T)>, id: u64) -> (r: usize)
    ensures
        r == net_pos(ts@, id),
{
    let mut j: usize = 0;
    while j < ts.len()
        invariant
            j <= ts@.len(),
            forall|i: int| 0 <= i < j ==> (#[trigger] ts@[i]).0 != id,
        decreases ts@.len() - j,
    {
        if ts[j].0 == id {
            proof {
                lemma_find_first(ts@, net_key::<T>(id));
                assert(net_key::<T>(id)(ts@[j as int]));
                if net_pos(ts@, id) < j {
                    assert(net_key::<T>(id)(ts@[net_pos(ts@, id)]));
                }
            }
            return j;
        }
        j = j + 1;
    }
    proof {
        lemma_find_first(ts@, net_key::<T>(id));
        if net_pos(ts@, id) < ts@.len() {
            assert(net_key::<T>(id)(ts@[net_pos(ts@, id)]));
        }
    }
    ts.len()
}

/// Read terminals from the file's data: `node network` per line, `#`
/// comments and blank lines skipped.
pub fn read_terminals(data: &[u8]) -> (r: Result<Vec<(u64, Vec<u64>)>, SteinerError>)
    ensures
        match r {
            Ok(ts) => terms_spec(data@) == Ok::<Seq<(u64, Seq<u64>)>, SteinerError>(
                terms_view(ts@),
            ),
            Err(e) => terms_spec(data@) == Err::<Seq<(u64, Seq<u64>)>, SteinerError>(e),
        },
{
    let ghost ls = split_lines_spec(data@);
    let lines = split_lines(data);
    let mut ts: Vec<(u64, Vec<u64>)> = Vec::new();
    let mut k: usize = 0;
    proof {
        assert(terms_view(ts@) =~= Seq::<(u64, Seq<u64>)>::empty());
    }
    while k < lines.len()
        invariant
            k <= lines@.len(),
            ls == split_lines_spec(data@),
            lines@.map_values(|l: Vec<u8>| l@) == ls,
            terms_lines(ls, 0, Seq::<(u64, Seq<u64>)>::empty()) == terms_lines(
                ls,
                k as int,
                terms_view(ts@),
            ),
        decreases lines@.len() - k,
    {
        let ghost st = terms_view(ts@);
        let line = &lines[k];
        proof {
            assert(line@ == ls[k as int]);
            lemma_tokens_nonempty(line@);
        }
        let toks = tokens(line.as_slice());
        if toks.len() == 0 || toks[0][0] == 35 {
            proof {
                assert(terms_line(st, ls[k as int], k + 1) == Ok::<
                    Seq<(u64, Seq<u64>)>,
                    SteinerError,
                >(st));
            }
        } else if toks.len() < 2 {
            return Err(SteinerError::TermsLineMalformed { line: k + 1 });
        } else {
            let node = match parse_u64(toks[0].as_slice()) {
                Option::Some(v) => v,
                Option::None => {
                    return Err(SteinerError::TermsBadNumber { line: k + 1 });
                },
            };
            let network = match parse_u64(toks[1].as_slice()) {
                Option::Some(v) => v,
                Option::None => {
                    return Err(SteinerError::TermsBadNumber { line: k + 1 });
                },
            };
            let p = find_net(&ts, network);
            proof {
                assert(net_pos(terms_view(ts@), network) == net_pos(ts@, network)) by {
                    lemma_find_first(ts@, net_key::<Vec<u64>>(network));
                    lemma_find_first(terms_view(ts@), net_key::<Seq<u64>>(network));
                    let pa = net_pos(ts@, network);
                    let pb = net_pos(terms_view(ts@), network);
                    assert(forall|i: int|
                        0 <= i < ts@.len() ==> (#[trigger] terms_view(ts@)[i]).0 == ts@[i].0);
                    if pa < pb {
                        assert(net_key::<Vec<u64>>(network)(ts@[pa]));
                        assert(net_key::<Seq<u64>>(network)(terms_view(ts@)[pa]));
                    }
                    if pb < pa {
                        assert(net_key::<Seq<u64>>(network)(terms_view(ts@)[pb]));
                        assert(net_key::<Vec<u64>>(network)(ts@[pb]));
                    }
                }
            }
            if p < ts.len() {
                let ghost ts0 = ts@;
                ts[p].1.push(node);
                proof {
                    lemma_find_first(ts0, net_key::<Vec<u64>>(network));
                    assert(net_key::<Vec<u64>>(network)(ts0[p as int]));
                    assert(ts0[p as int].0 == network);
                    assert(terms_view(ts@) =~~= st.update(
                        p as int,
                        (network, st[p as int].1.push(node)),
                    ));
                }
            } else {
                let mut fresh: Vec<u64> = Vec::new();
                fresh.push(node);
                ts.push((network, fresh));
                proof {
                    assert(fresh@ =~= seq![node]);
                    assert(terms_view(ts@) =~~= st.push((network, seq![node])));
                }
            }
            proof {
                assert(terms_line(st, ls[k as int], k + 1) == Ok::<
                    Seq<(u64, Seq<u64>)>,
                    SteinerError,
                >(terms_view(ts@)));
            }
        }
        k = k + 1;
    }
    Ok(ts)
}

// ---------------------------------------------------------------------------
// The solution file
// ---------------------------------------------------------------------------

/// The mathematical view of per-network selected-edge records.
pub open spec fn sols_view(t: Seq<(u64, Vec<(u64, u64)>)>) -> Seq<(u64, Seq<(u64, u64)>)> {
    t.map_values(|p: (u64, Vec<(u64, u64)>)| (p.0, p.1@))
}

/// What one solution line does: `head tail network` selects one edge for a
/// network; the edge must exist in the arcs map, endpoints kept as read.
pub open spec fn sols_line(
    st: Seq<(u64, Seq<(u64, u64)>)>,
    line: Seq<u8>,
    lineno: int,
    arcs: Seq<Arc>,
) -> Result<Seq<(u64, Seq<(u64, u64)>)>, SteinerError> {
    let toks = tokens_spec(line);
    if toks.len() == 0 || toks[0][0] == 35 {
        Ok(st)
    } else if toks.len() < 3 {
        Err(SteinerError::SolLineMalformed { line: lineno as usize })
    } else {
        match parse_u64_spec(toks[0]) {
            Option::None => Err(SteinerError::SolBadNumber { line: lineno as usize }),
            Option::Some(head) => match parse_u64_spec(toks[1]) {
                Option::None => Err(SteinerError::SolBadNumber { line: lineno as usize }),
                Option::Some(tail) => match parse_u64_spec(toks[2]) {
                    Option::None => Err(SteinerError::SolBadNumber { line: lineno as usize }),
                    Option::Some(network) => {
                        let a = if head < tail {
                            head
                        } else {
                            tail
                        };
                        let b = if head < tail {
                            tail
                        } else {
                            head
                        };
                        if arc_pos(arcs, a, b) >= arcs.len() {
                            Err(
                                SteinerError::EdgeNotInArcs {
                                    line: lineno as usize,
                                    head,
                                    tail,
                                },
                            )
                        } else {
                            let p = net_pos(st, network);
                            if p < st.len() {
                                Ok(st.update(p, (network, st[p].1.push((head, tail)))))
                            } else {
                                Ok(st.push((network, seq![(head, tail)])))
                            }
                        }
                    },
                },
            },
        }
    }
}

pub open spec fn sols_lines(
    ls: Seq<Seq<u8>>,
    k: int,
    st: Seq<(u64, Seq<(u64, u64)>)>,
    arcs: Seq<Arc>,
) -> Result<Seq<(u64, Seq<(u64, u64)>)>, SteinerError>
    decreases ls.len() - k,
{
    if k < 0 || k >= ls.len() {
        Ok(st)
    } else {
        match sols_line(st, ls[k], k + 1, arcs) {
            Ok(st2) => sols_lines(ls, k + 1, st2, arcs),
            Err(e) => Err(e),
        }
    }
}

/// What parsing a whole solution text against an arcs map returns.
pub open spec fn sols_spec(data: Seq<u8>, arcs: Seq<Arc>) -> Result<
    Seq<(u64, Seq<(u64, u64)>)>,
    SteinerError,
> {
    sols_lines(split_lines_spec(data), 0, Seq::<(u64, Seq<(u64, u64)>)>::empty(), arcs)
}

/// Read the selected edges from the solution file's data: `head tail
/// network` per line, `#` comments and blank lines skipped, each edge
/// checked against the arcs map.
pub fn read_solutions(data: &[u8], arcs: &Vec<Arc>) -> (r: Result<
    Vec<(u64, Vec<(u64, u64)>)>,
    SteinerError,
>)
    ensures
        match r {
            Ok(ss) => sols_spec(data@, arcs@) == Ok::<Seq<(u64, Seq<(u64, u64)>)>, SteinerError>(
                sols_view(ss@),
            ),
            Err(e) => sols_spec(data@, arcs@) == Err::<Seq<(u64, Seq<(u64, u64)>)>, SteinerError>(
                e,
            ),
        },
{
    let ghost ls = split_lines_spec(data@);
    let lines = split_lines(data);
    let mut ss: Vec<(u64, Vec<(u64, u64)>)> = Vec::new();
    let mut k: usize = 0;
    proof {
        assert(sols_view(ss@) =~= Seq::<(u64, Seq<(u64, u64)>)>::empty());
    }
    while k < lines.len()
        invariant
            k <= lines@.len(),
            ls == split_lines_spec(data@),
            lines@.map_values(|l: Vec<u8>| l@) == ls,
            sols_lines(ls, 0, Seq::<(u64, Seq<(u64, u64)>)>::empty(), arcs@) == sols_lines(
                ls,
                k as int,
                sols_view(ss@),
                arcs@,
            ),
        decreases lines@.len() - k,
    {
        let ghost st = sols_view(ss@);
        let line = &lines[k];
        proof {
            assert(line@ == ls[k as int]);
            lemma_tokens_nonempty(line@);
        }
        let toks = tokens(line.as_slice());
        if toks.len() == 0 || toks[0][0] == 35 {
            proof {
                assert(sols_line(st, ls[k as int], k + 1, arcs@) == Ok::<
                    Seq<(u64, Seq<(u64, u64)>)>,
                    SteinerError,
                >(st));
            }
        } else if toks.len() < 3 {
            return Err(SteinerError::SolLineMalformed { line: k + 1 });
        } else {
            let head = match parse_u64(toks[0].as_slice()) {
                Option::Some(v) => v,
                Option::None => {
                    return Err(SteinerError::SolBadNumber { line: k + 1 });
                },
            };
            let tail = match parse_u64(toks[1].as_slice()) {
                Option::Some(v) => v,
                Option::None => {
                    return Err(SteinerError::SolBadNumber { line: k + 1 });
                },
            };
            let network = match parse_u64(toks[2].as_slice()) {
                Option::Some(v) => v,
                Option::None => {
                    return Err(SteinerError::SolBadNumber { line: k + 1 });
                },
            };
            let a = if head < tail {
                head
            } else {
                tail
            };
            let b = if head < tail {
                tail
            } else {
                head
            };
            let ap = find_arc(arcs, a, b);
            if ap >= arcs.len() {
                return Err(SteinerError::EdgeNotInArcs { line: k + 1, head, tail });
            }
            let p = find_net(&ss, network);
            proof {
                assert(net_pos(sols_view(ss@), network) == net_pos(ss@, network)) by {
                    lemma_find_first(ss@, net_key::<Vec<(u64, u64)>>(network));
                    lemma_find_first(sols_view(ss@), net_key::<Seq<(u64, u64)>>(network));
                    let pa = net_pos(ss@, network);
                    let pb = net_pos(sols_view(ss@), network);
                    assert(forall|i: int|
                        0 <= i < ss@.len() ==> (#[trigger] sols_view(ss@)[i]).0 == ss@[i].0);
                    if pa < pb {
                        assert(net_key::<Vec<(u64, u64)>>(network)(ss@[pa]));
                        assert(net_key::<Seq<(u64, u64)>>(network)(sols_view(ss@)[pa]));
                    }
                    if pb < pa {
                        assert(net_key::<Seq<(u64, u64)>>(network)(sols_view(ss@)[pb]));
                        assert(net_key::<Vec<(u64, u64)>>(network)(ss@[pb]));
                    }
                }
            }
            if p < ss.len() {
                let ghost ss0 = ss@;
                ss[p].1.push((head, tail));
                proof {
                    lemma_find_first(ss0, net_key::<Vec<(u64, u64)>>(network));
                    assert(net_key::<Vec<(u64, u64)>>(network)(ss0[p as int]));
                    assert(ss0[p as int].0 == network);
                    assert(sols_view(ss@) =~~= st.update(
                        p as int,
                        (network, st[p as int].1.push((head, tail))),
                    ));
                }
            } else {
                let mut fresh: Vec<(u64, u64)> = Vec::new();
                fresh.push((head, tail));
                ss.push((network, fresh));
                proof {
                    assert(fresh@ =~= seq![(head, tail)]);
                    assert(sols_view(ss@) =~~= st.push((network, seq![(head, tail)])));
                }
            }
            proof {
                assert(sols_line(st, ls[k as int], k + 1, arcs@) == Ok::<
                    Seq<(u64, Seq<(u64, u64)>)>,
                    SteinerError,
                >(sols_view(ss@)));
            }
        }
        k = k + 1;
    }
    Ok(ss)
}

// ---------------------------------------------------------------------------
// The feasibility check
// ---------------------------------------------------------------------------

/// The nodes a selected-edge list touches, in first-appearance order.
pub open spec fn nlist(edges: Seq<(u64, u64)>) -> Seq<u64>
    decreases edges.len(),
{
    if edges.len() == 0 {
        seq![]
    } else {
        let r = nlist(edges.drop_last());
        let u = edges.last().0;
        let v = edges.last().1;
        let r2 = if r.contains(u) {
            r
        } else {
            r.push(u)
        };
        if r2.contains(v) {
            r2
        } else {
            r2.push(v)
        }
    }
}

/// Dense index of a node label among the touched nodes.
pub open spec fn idx_of(nl: Seq<u64>, v: u64) -> int {
    find_first(nl, node_key(v))
}

/// Every selected edge's endpoints are among the touched nodes.
proof fn lemma_nlist_covers(edges: Seq<(u64, u64)>)
    ensures
        forall|i: int|
            0 <= i < edges.len() ==> nlist(edges).contains((#[trigger] edges[i]).0) && nlist(
                edges,
            ).contains(edges[i].1),
    decreases edges.len(),
{
    if edges.len() > 0 {
        lemma_nlist_covers(edges.drop_last());
        let r = nlist(edges.drop_last());
        let u = edges.last().0;
        let v = edges.last().1;
        assert forall|i: int|
            0 <= i < edges.len() implies nlist(edges).contains((#[trigger] edges[i]).0) && nlist(
            edges,
        ).contains(edges[i].1) by {
            if i < edges.len() - 1 {
                assert(edges.drop_last()[i] == edges[i]);
                assert(r.contains(edges[i].0) && r.contains(edges[i].1));
                lemma_contains_after_push(r, u, edges[i].0);
                lemma_contains_after_push(r, u, edges[i].1);
                let r2 = if r.contains(u) {
                    r
                } else {
                    r.push(u)
                };
                lemma_contains_after_push(r2, v, edges[i].0);
                lemma_contains_after_push(r2, v, edges[i].1);
            } else {
                let r2 = if r.contains(u) {
                    r
                } else {
                    r.push(u)
                };
                if !r.contains(u) {
                    assert(r.push(u)[r.len() as int] == u);
                }
                lemma_contains_after_push(r2, v, u);
                if !r2.contains(v) {
                    assert(r2.push(v)[r2.len() as int] == v);
                }
            }
        }
    }
}

proof fn lemma_contains_after_push<T>(s: Seq<T>, x: T, y: T)
    ensures
        s.contains(y) ==> s.push(x).contains(y),
{
    if s.contains(y) {
        let i = choose|i: int| 0 <= i < s.len() && s[i] == y;
        assert(s.push(x)[i] == y);
    }
}

/// A touched node's dense index is a valid position.
proof fn lemma_idx_of_contains(nl: Seq<u64>, v: u64)
    ensures
        (idx_of(nl, v) < nl.len()) <==> nl.contains(v),
        idx_of(nl, v) < nl.len() ==> nl[idx_of(nl, v)] == v,
        0 <= idx_of(nl, v),
{
    lemma_find_first(nl, node_key(v));
    if idx_of(nl, v) < nl.len() {
        assert(node_key(v)(nl[idx_of(nl, v)]));
    }
    if nl.contains(v) {
        let i = choose|i: int| 0 <= i < nl.len() && nl[i] == v;
        if idx_of(nl, v) > i {
            assert(!node_key(v)(nl[i]));
        }
    }
}

/// A network too big for the machine's graph representation.
pub open spec fn too_large(edges: Seq<(u64, u64)>) -> bool {
    nlist(edges).len() + 1 >= u32::MAX as int || edges.len() >= usize::MAX as int / 2
}

/// The dense adjacency of the first `i` selected edges over the full node
/// list, each edge stored in both directions.
pub open spec fn net_adj_upto(edges: Seq<(u64, u64)>, i: int) -> Seq<Seq<u32>>
    decreases i,
{
    if i <= 0 {
        Seq::new(nlist(edges).len() as nat, |j: int| Seq::<u32>::empty())
    } else {
        edge_added(
            net_adj_upto(edges, i - 1),
            idx_of(nlist(edges), edges[i - 1].0) as u32,
            idx_of(nlist(edges), edges[i - 1].1) as u32,
        )
    }
}

/// The dense adjacency of a network's selected edges.
pub open spec fn net_adj(edges: Seq<(u64, u64)>) -> Seq<Seq<u32>> {
    net_adj_upto(edges, edges.len() as int)
}

/// A terminal no selected edge touches.
pub open spec fn uncovered_key(nl: Seq<u64>) -> spec_fn(u64) -> bool {
    |t: u64| !nl.contains(t)
}

/// A terminal the selected edges do not connect to the first terminal.
pub open spec fn unconnected_key(adj: Seq<Seq<u32>>, nl: Seq<u64>, t0: u64) -> spec_fn(u64) -> bool {
    |t: u64| !reachable(adj, idx_of(nl, t0), idx_of(nl, t))
}

/// One network's own check: it must declare terminals, fit the machine,
/// touch every terminal, and connect every terminal to the first one. The
/// result is the first violation, in that order.
pub open spec fn net_check(terms: Seq<(u64, Seq<u64>)>, network: u64, edges: Seq<(u64, u64)>) -> Option<
    SteinerError,
> {
    let tp = net_pos(terms, network);
    if tp >= terms.len() || terms[tp].1.len() == 0 {
        Some(SteinerError::NetworkWithoutTerminals { network })
    } else if too_large(edges) {
        Some(SteinerError::NetworkTooLarge { network })
    } else {
        let tl = terms[tp].1;
        let nl = nlist(edges);
        let ci = find_first(tl, uncovered_key(nl));
        if ci < tl.len() {
            Some(SteinerError::TerminalNotCovered { network, terminal: tl[ci] })
        } else {
            let ui = find_first(tl, unconnected_key(net_adj(edges), nl, tl[0]));
            if ui < tl.len() {
                Some(SteinerError::TerminalNotConnected { network, terminal: tl[ui] })
            } else {
                None
            }
        }
    }
}

/// The first failing network, in solution order.
pub open spec fn nets_check(
    terms: Seq<(u64, Seq<u64>)>,
    sols: Seq<(u64, Seq<(u64, u64)>)>,
    i: int,
) -> Option<SteinerError>
    decreases sols.len() - i,
{
    if i < 0 || i >= sols.len() {
        None
    } else {
        match net_check(terms, sols[i].0, sols[i].1) {
            Some(e) => Some(e),
            None => nets_check(terms, sols, i + 1),
        }
    }
}

/// Two edge lists touch a common node.
pub open spec fn shares_node(e1: Seq<(u64, u64)>, e2: Seq<(u64, u64)>) -> bool {
    exists|v: u64| nlist(e1).contains(v) && nlist(e2).contains(v)
}

/// The first pair of networks (in solution order) that touch a common node.
pub open spec fn disj_from(sols: Seq<(u64, Seq<(u64, u64)>)>, i: int, j: int) -> Option<
    SteinerError,
>
    decreases sols.len() - i, sols.len() - j,
{
    if i < 0 || j <= i {
        None
    } else if i >= sols.len() {
        None
    } else if j >= sols.len() {
        disj_from(sols, i + 1, i + 2)
    } else if shares_node(sols[i].1, sols[j].1) {
        Some(SteinerError::SharedNode { network_a: sols[i].0, network_b: sols[j].0 })
    } else {
        disj_from(sols, i, j + 1)
    }
}

/// The weights of the edges from position `i` on, each looked up in the
/// arcs map.
pub open spec fn cost_edges(arcs: Seq<Arc>, edges: Seq<(u64, u64)>, i: int) -> Result<
    int,
    SteinerError,
>
    decreases edges.len() - i,
{
    if i < 0 || i >= edges.len() {
        Ok(0)
    } else {
        let h = edges[i].0;
        let t = edges[i].1;
        let a = if h < t {
            h
        } else {
            t
        };
        let b = if h < t {
            t
        } else {
            h
        };
        let p = arc_pos(arcs, a, b);
        if p >= arcs.len() {
            Err(SteinerError::SolutionEdgeMissing { head: h, tail: t })
        } else {
            match cost_edges(arcs, edges, i + 1) {
                Ok(c) => Ok(arcs[p].w + c),
                Err(e) => Err(e),
            }
        }
    }
}

/// The total cost: each network's selected edges' weights, summed; an edge
/// counts once per network that uses it.
pub open spec fn cost_all(arcs: Seq<Arc>, sols: Seq<(u64, Seq<(u64, u64)>)>, i: int) -> Result<
    int,
    SteinerError,
>
    decreases sols.len() - i,
{
    if i < 0 || i >= sols.len() {
        Ok(0)
    } else {
        match cost_edges(arcs, sols[i].1, 0) {
            Err(e) => Err(e),
            Ok(c) => match cost_all(arcs, sols, i + 1) {
                Ok(c2) => Ok(c + c2),
                Err(e) => Err(e),
            },
        }
    }
}

proof fn lemma_cost_edges_nonneg(arcs: Seq<Arc>, edges: Seq<(u64, u64)>, i: int)
    ensures
        cost_edges(arcs, edges, i) is Ok ==> cost_edges(arcs, edges, i)->Ok_0 >= 0,
    decreases edges.len() - i,
{
    if 0 <= i < edges.len() {
        lemma_cost_edges_nonneg(arcs, edges, i + 1);
    }
}

proof fn lemma_cost_all_nonneg(arcs: Seq<Arc>, sols: Seq<(u64, Seq<(u64, u64)>)>, i: int)
    ensures
        cost_all(arcs, sols, i) is Ok ==> cost_all(arcs, sols, i)->Ok_0 >= 0,
    decreases sols.len() - i,
{
    if 0 <= i < sols.len() {
        lemma_cost_edges_nonneg(arcs, sols[i].1, 0);
        lemma_cost_all_nonneg(arcs, sols, i + 1);
    }
}

/// What the whole feasibility check returns: the first per-network
/// violation, else the first shared-node pair, else the total cost.
pub open spec fn check_spec(
    arcs: Seq<Arc>,
    terms: Seq<(u64, Seq<u64>)>,
    sols: Seq<(u64, Seq<(u64, u64)>)>,
) -> Result<int, SteinerError> {
    match nets_check(terms, sols, 0) {
        Some(e) => Err(e),
        None => match disj_from(sols, 0, 1) {
            Some(e) => Err(e),
            None => cost_all(arcs, sols, 0),
        },
    }
}

/// Dense index of a node label among the collected touched nodes.
fn find_node(nl: &Vec<u64>, v: u64) -> (r: usize)
    ensures
        r == idx_of(nl@, v),
{
    let mut j: usize = 0;
    while j < nl.len()
        invariant
            j <= nl@.len(),
            forall|i: int| 0 <= i < j ==> (#[trigger] nl@[i]) != v,
        decreases nl@.len() - j,
    {
        if nl[j] == v {
            proof {
                lemma_find_first(nl@, node_key(v));
                assert(node_key(v)(nl@[j as int]));
                if idx_of(nl@, v) < j {
                    assert(node_key(v)(nl@[idx_of(nl@, v)]));
                }
            }
            return j;
        }
        j = j + 1;
    }
    proof {
        lemma_find_first(nl@, node_key(v));
        if idx_of(nl@, v) < nl@.len() {
            assert(node_key(v)(nl@[idx_of(nl@, v)]));
        }
    }
    nl.len()
}

/// Do two touched-node lists meet?
fn lists_share(a: &Vec<u64>, b: &Vec<u64>) -> (r: bool)
    ensures
        r == exists|v: u64| a@.contains(v) && b@.contains(v),
{
    let mut i: usize = 0;
    while i < a.len()
        invariant
            i <= a@.len(),
            forall|k: int| 0 <= k < i ==> !b@.contains(#[trigger] a@[k]),
        decreases a@.len() - i,
    {
        let x = a[i];
        let p = find_node(b, x);
        proof {
            lemma_idx_of_contains(b@, x);
        }
        if p < b.len() {
            proof {
                assert(a@.contains(x)) by {
                    assert(a@[i as int] == x);
                }
            }
            return true;
        }
        i = i + 1;
    }
    proof {
        if exists|v: u64| a@.contains(v) && b@.contains(v) {
            let v = choose|v: u64| a@.contains(v) && b@.contains(v);
            let k = choose|k: int| 0 <= k < a@.len() && a@[k] == v;
            assert(!b@.contains(a@[k]));
        }
    }
    false
}

proof fn lemma_net_pos_terms(ts: Seq<(u64, Vec<u64>)>, id: u64)
    ensures
        net_pos(terms_view(ts), id) == net_pos(ts, id),
{
    lemma_find_first(ts, net_key::<Vec<u64>>(id));
    lemma_find_first(terms_view(ts), net_key::<Seq<u64>>(id));
    let pa = net_pos(ts, id);
    let pb = net_pos(terms_view(ts), id);
    assert(forall|i: int| 0 <= i < ts.len() ==> (#[trigger] terms_view(ts)[i]).0 == ts[i].0);
    if pa < pb {
        assert(net_key::<Vec<u64>>(id)(ts[pa]));
        assert(net_key::<Seq<u64>>(id)(terms_view(ts)[pa]));
    }
    if pb < pa {
        assert(net_key::<Seq<u64>>(id)(terms_view(ts)[pb]));
        assert(net_key::<Vec<u64>>(id)(ts[pb]));
    }
}

/// `plus_res(a, r)` adds `a` to a cost outcome.
pub open spec fn plus_res(a: int, r: Result<int, SteinerError>) -> Result<int, SteinerError> {
    match r {
        Ok(c) => Ok(a + c),
        Err(e) => Err(e),
    }
}

/// What the checker's outcome must be: `check_spec`'s answer, except that a
/// total cost wider than the machine's widest integer is its own error.
pub open spec fn check_matches(
    arcs: Seq<Arc>,
    terms: Seq<(u64, Seq<u64>)>,
    sols: Seq<(u64, Seq<(u64, u64)>)>,
    r: Result<u128, SteinerError>,
) -> bool {
    match r {
        Ok(c) => check_spec(arcs, terms, sols) == Ok::<int, SteinerError>(c as int),
        Err(e) => if e == SteinerError::CostOverflow {
            &&& nets_check(terms, sols, 0) is None
            &&& disj_from(sols, 0, 1) is None
            &&& cost_all(arcs, sols, 0) is Ok
            &&& cost_all(arcs, sols, 0)->Ok_0 > u128::MAX
        } else {
            check_spec(arcs, terms, sols) == Err::<int, SteinerError>(e)
        },
    }
}

/// One outcome per input: any two results the contract allows for the same
/// arcs, terminals and solution are equal, so a second run cannot differ.
pub proof fn lemma_check_idempotent(
    arcs: Seq<Arc>,
    terms: Seq<(u64, Seq<u64>)>,
    sols: Seq<(u64, Seq<(u64, u64)>)>,
    r1: Result<u128, SteinerError>,
    r2: Result<u128, SteinerError>,
)
    requires
        check_matches(arcs, terms, sols, r1),
        check_matches(arcs, terms, sols, r2),
    ensures
        r1 == r2,
{
}

/// Check all networks of a solution against the arcs map and the declared
/// terminals: every network must cover and connect its terminals, the
/// networks' touched-node sets must be pairwise disjoint, and the result is
/// the total selected-edge cost.
pub fn check_networks(
    arcs: &Vec<Arc>,
    terminals: &Vec<(u64, Vec<u64>)>,
    solutions: &Vec<(u64, Vec<(u64, u64)>)>,
) -> (r: Result<u128, SteinerError>)
    ensures
        check_matches(arcs@, terms_view(terminals@), sols_view(solutions@), r),
{
    let ghost terms = terms_view(terminals@);
    let ghost sols = sols_view(solutions@);
    let n = solutions.len();
    let mut nls: Vec<Vec<u64>> = Vec::new();
    let mut i: usize = 0;
    while i < n
        invariant
            terms == terms_view(terminals@),
            sols == sols_view(solutions@),
            n == solutions@.len(),
            i <= n,
            nls@.len() == i,
            forall|x: int| 0 <= x < i ==> (#[trigger] nls@[x])@ == nlist(sols[x].1),
            nets_check(terms, sols, 0) == nets_check(terms, sols, i as int),
        decreases n - i,
    {
        let network = solutions[i].0;
        let edges = &solutions[i].1;
        proof {
            assert(sols[i as int] == (solutions@[i as int].0, solutions@[i as int].1@));
            assert(sols[i as int].0 == network);
            assert(sols[i as int].1 == edges@);
        }
        let tp = find_net(terminals, network);
        proof {
            lemma_net_pos_terms(terminals@, network);
        }
        if tp >= terminals.len() || terminals[tp].1.len() == 0 {
            proof {
                if tp < terminals.len() {
                    assert(terms[tp as int].1 == terminals@[tp as int].1@);
                }
                assert(net_check(terms, network, edges@) == Some(
                    SteinerError::NetworkWithoutTerminals { network },
                ));
            }
            return Err(SteinerError::NetworkWithoutTerminals { network });
        }
        proof {
            assert(terms[tp as int].1 == terminals@[tp as int].1@);
            assert(terms[tp as int].1.len() > 0);
        }
        // collect the touched nodes, in first-appearance order
        let mut nl: Vec<u64> = Vec::new();
        let mut j: usize = 0;
        proof {
            assert(edges@.take(0) =~= Seq::<(u64, u64)>::empty());
            assert(nl@ =~= nlist(edges@.take(0)));
        }
        while j < edges.len()
            invariant
                j <= edges@.len(),
                nl@ == nlist(edges@.take(j as int)),
            decreases edges@.len() - j,
        {
            let e = edges[j];
            proof {
                assert(edges@.take(j + 1).drop_last() =~= edges@.take(j as int));
                assert(edges@.take(j + 1).last() == edges@[j as int]);
            }
            let pu = find_node(&nl, e.0);
            proof {
                lemma_idx_of_contains(nl@, e.0);
            }
            if pu >= nl.len() {
                nl.push(e.0);
            }
            let pv = find_node(&nl, e.1);
            proof {
                lemma_idx_of_contains(nl@, e.1);
            }
            if pv >= nl.len() {
                nl.push(e.1);
            }
            proof {
                assert(nl@ =~= nlist(edges@.take(j + 1)));
            }
            j = j + 1;
        }
        proof {
            assert(edges@.take(edges@.len() as int) =~= edges@);
        }
        // the dense ids must fit the machine's graph representation
        if nl.len() as u128 + 1 >= u32::MAX as u128 || edges.len() >= usize::MAX / 2 {
            proof {
                assert(too_large(edges@));
                assert(net_check(terms, network, edges@) == Some(
                    SteinerError::NetworkTooLarge { network },
                ));
            }
            return Err(SteinerError::NetworkTooLarge { network });
        }
        proof {
            assert(!too_large(edges@));
        }
        // every declared terminal must be a touched node
        let tl = &terminals[tp].1;
        proof {
            assert(tl@ == terms[tp as int].1);
        }
        let mut u2: usize = 0;
        while u2 < tl.len()
            invariant
                terms == terms_view(terminals@),
                sols == sols_view(solutions@),
                n == solutions@.len(),
                i < n,
                nls@.len() == i,
                forall|x: int| 0 <= x < i ==> (#[trigger] nls@[x])@ == nlist(sols[x].1),
                nets_check(terms, sols, 0) == nets_check(terms, sols, i as int),
                sols[i as int].0 == network,
                sols[i as int].1 == edges@,
                tp == net_pos(terms, network),
                tp < terms.len(),
                tl@ == terms[tp as int].1,
                tl@.len() > 0,
                nl@ == nlist(edges@),
                !too_large(edges@),
                u2 <= tl@.len(),
                forall|x: int| 0 <= x < u2 ==> nl@.contains(#[trigger] tl@[x]),
            decreases tl@.len() - u2,
        {
            let t = tl[u2];
            let pt = find_node(&nl, t);
            proof {
                lemma_idx_of_contains(nl@, t);
            }
            if pt >= nl.len() {
                proof {
                    lemma_find_first(tl@, uncovered_key(nl@));
                    let ci = find_first(tl@, uncovered_key(nl@));
                    assert(uncovered_key(nl@)(tl@[u2 as int]));
                    if ci < u2 {
                        assert(nl@.contains(tl@[ci]));
                        assert(!uncovered_key(nl@)(tl@[ci]));
                    }
                    assert(ci == u2);
                    assert(net_check(terms, network, edges@) == Some(
                        SteinerError::TerminalNotCovered { network, terminal: t },
                    ));
                }
                return Err(SteinerError::TerminalNotCovered { network, terminal: t });
            }
            u2 = u2 + 1;
        }
        proof {
            lemma_find_first(tl@, uncovered_key(nl@));
            let ci = find_first(tl@, uncovered_key(nl@));
            if ci < tl@.len() {
                assert(uncovered_key(nl@)(tl@[ci]));
                assert(nl@.contains(tl@[ci]));
            }
            assert(ci == tl@.len());
        }
        // the dense graph of the selected edges
        let mut g = Graph::new("");
        let mut j2: usize = 0;
        proof {
            assert(g@ =~= Seq::new(0, |x: int| Seq::<u32>::empty()));
        }
        while j2 < nl.len()
            invariant
                j2 <= nl@.len(),
                nl@.len() + 1 < u32::MAX as int,
                g.wf(),
                g.edges == 0,
                g@ == Seq::new(j2 as nat, |x: int| Seq::<u32>::empty()),
            decreases nl@.len() - j2,
        {
            g.add_node();
            proof {
                assert(g@ =~= Seq::new((j2 + 1) as nat, |x: int| Seq::<u32>::empty()));
            }
            j2 = j2 + 1;
        }
        proof {
            assert(g@ =~= net_adj_upto(edges@, 0));
            lemma_nlist_covers(edges@);
        }
        let mut j3: usize = 0;
        while j3 < edges.len()
            invariant
                j3 <= edges@.len(),
                edges@.len() < usize::MAX / 2,
                nl@ == nlist(edges@),
                nl@.len() + 1 < u32::MAX as int,
                g.wf(),
                g.edges == j3,
                g@ == net_adj_upto(edges@, j3 as int),
                g@.len() == nl@.len(),
                forall|x: int|
                    0 <= x < edges@.len() ==> nl@.contains((#[trigger] edges@[x]).0)
                        && nl@.contains(edges@[x].1),
            decreases edges@.len() - j3,
        {
            let e = edges[j3];
            let ui = find_node(&nl, e.0);
            let vi = find_node(&nl, e.1);
            proof {
                lemma_idx_of_contains(nl@, e.0);
                lemma_idx_of_contains(nl@, e.1);
                assert(nl@.contains(edges@[j3 as int].0));
                assert(nl@.contains(edges@[j3 as int].1));
            }
            match g.add_edge(ui as u32, vi as u32) {
                Ok(_) => {},
                Err(_) => {
                    proof {
                        assert(false);
                    }
                },
            }
            proof {
                assert(g@ == net_adj_upto(edges@, j3 + 1));
            }
            j3 = j3 + 1;
        }
        proof {
            assert(g@ == net_adj(edges@));
        }
        // connectivity from the first terminal
        let t0 = tl[0];
        let t0i = find_node(&nl, t0);
        proof {
            lemma_idx_of_contains(nl@, t0);
            assert(nl@.contains(tl@[0]));
        }
        let mut depth: Vec<usize> = Vec::new();
        let mut z: usize = 0;
        while z < nl.len()
            invariant
                z <= nl@.len(),
                depth@.len() == z,
                forall|x: int| 0 <= x < z ==> depth@[x] == 0,
            decreases nl@.len() - z,
        {
            depth.push(0);
            z = z + 1;
        }
        proof {
            assert(depth@.len() == g@.len());
        }
        let res = g.bfs(t0i as u32, depth);
        let d = res.0;
        let mut u3: usize = 0;
        while u3 < tl.len()
            invariant
                terms == terms_view(terminals@),
                sols == sols_view(solutions@),
                n == solutions@.len(),
                i < n,
                nls@.len() == i,
                forall|x: int| 0 <= x < i ==> (#[trigger] nls@[x])@ == nlist(sols[x].1),
                nets_check(terms, sols, 0) == nets_check(terms, sols, i as int),
                sols[i as int].0 == network,
                sols[i as int].1 == edges@,
                tp == net_pos(terms, network),
                tp < terms.len(),
                tl@ == terms[tp as int].1,
                tl@.len() > 0,
                nl@ == nlist(edges@),
                !too_large(edges@),
                find_first(tl@, uncovered_key(nl@)) == tl@.len(),
                forall|x: int| 0 <= x < tl@.len() ==> nl@.contains(#[trigger] tl@[x]),
                g.wf(),
                g@ == net_adj(edges@),
                g@.len() == nl@.len(),
                t0 == tl@[0],
                t0i == idx_of(nl@, t0),
                t0i < nl@.len(),
                d@.len() == nl@.len(),
                forall|v: int|
                    0 <= v < g@.len() ==> ((#[trigger] d@[v] != 0) <==> reachable(
                        g@,
                        t0i as int,
                        v,
                    )),
                u3 <= tl@.len(),
                forall|x: int|
                    0 <= x < u3 ==> reachable(
                        net_adj(edges@),
                        idx_of(nl@, tl@[0]),
                        idx_of(nl@, #[trigger] tl@[x]),
                    ),
            decreases tl@.len() - u3,
        {
            let t = tl[u3];
            let ti = find_node(&nl, t);
            proof {
                lemma_idx_of_contains(nl@, t);
                assert(nl@.contains(tl@[u3 as int]));
                assert(ti < nl@.len());
            }
            if d[ti] == 0 {
                proof {
                    assert(!reachable(g@, t0i as int, ti as int));
                    lemma_find_first(tl@, unconnected_key(net_adj(edges@), nl@, tl@[0]));
                    let ui2 = find_first(tl@, unconnected_key(net_adj(edges@), nl@, tl@[0]));
                    assert(unconnected_key(net_adj(edges@), nl@, tl@[0])(tl@[u3 as int]));
                    if ui2 < u3 {
                        assert(!unconnected_key(net_adj(edges@), nl@, tl@[0])(tl@[ui2]));
                    }
                    assert(ui2 == u3);
                    assert(net_check(terms, network, edges@) == Some(
                        SteinerError::TerminalNotConnected { network, terminal: t },
                    ));
                }
                return Err(SteinerError::TerminalNotConnected { network, terminal: t });
            }
            proof {
                assert(reachable(g@, t0i as int, ti as int));
            }
            u3 = u3 + 1;
        }
        proof {
            lemma_find_first(tl@, unconnected_key(net_adj(edges@), nl@, tl@[0]));
            let ui2 = find_first(tl@, unconnected_key(net_adj(edges@), nl@, tl@[0]));
            if ui2 < tl@.len() {
                assert(unconnected_key(net_adj(edges@), nl@, tl@[0])(tl@[ui2]));
                assert(reachable(net_adj(edges@), idx_of(nl@, tl@[0]), idx_of(nl@, tl@[ui2])));
            }
            assert(ui2 == tl@.len());
            assert(net_check(terms, network, edges@) is None);
        }
        nls.push(nl);
        i = i + 1;
    }
    proof {
        assert(nets_check(terms, sols, 0) is None);
    }
    // no two networks may touch a common node
    let mut i2: usize = 0;
    while i2 < n
        invariant
            terms == terms_view(terminals@),
            sols == sols_view(solutions@),
            n == solutions@.len(),
            i2 <= n,
            nls@.len() == n,
            forall|x: int| 0 <= x < n ==> (#[trigger] nls@[x])@ == nlist(sols[x].1),
            nets_check(terms, sols, 0) is None,
            disj_from(sols, 0, 1) == disj_from(sols, i2 as int, i2 + 1),
        decreases n - i2,
    {
        let mut j4: usize = i2 + 1;
        while j4 < n
            invariant
                terms == terms_view(terminals@),
                sols == sols_view(solutions@),
                n == solutions@.len(),
                i2 < n,
                i2 + 1 <= j4,
                j4 <= n,
                nls@.len() == n,
                forall|x: int| 0 <= x < n ==> (#[trigger] nls@[x])@ == nlist(sols[x].1),
                nets_check(terms, sols, 0) is None,
                disj_from(sols, 0, 1) == disj_from(sols, i2 as int, j4 as int),
            decreases n - j4,
        {
            if lists_share(&nls[i2], &nls[j4]) {
                proof {
                    assert(nls@[i2 as int]@ == nlist(sols[i2 as int].1));
                    assert(nls@[j4 as int]@ == nlist(sols[j4 as int].1));
                    assert(shares_node(sols[i2 as int].1, sols[j4 as int].1));
                    assert(sols[i2 as int].0 == solutions@[i2 as int].0);
                    assert(sols[j4 as int].0 == solutions@[j4 as int].0);
                }
                return Err(
                    SteinerError::SharedNode {
                        network_a: solutions[i2].0,
                        network_b: solutions[j4].0,
                    },
                );
            }
            proof {
                assert(nls@[i2 as int]@ == nlist(sols[i2 as int].1));
                assert(nls@[j4 as int]@ == nlist(sols[j4 as int].1));
                assert(!shares_node(sols[i2 as int].1, sols[j4 as int].1));
            }
            j4 = j4 + 1;
        }
        i2 = i2 + 1;
    }
    proof {
        assert(disj_from(sols, 0, 1) is None);
    }
    // every selected edge must still be in the arcs map
    let mut i3: usize = 0;
    while i3 < n
        invariant
            terms == terms_view(terminals@),
            sols == sols_view(solutions@),
            n == solutions@.len(),
            nets_check(terms, sols, 0) is None,
            disj_from(sols, 0, 1) is None,
            i3 <= n,
            (cost_all(arcs@, sols, 0) is Err) <==> (cost_all(arcs@, sols, i3 as int) is Err),
            cost_all(arcs@, sols, 0) is Err ==> cost_all(arcs@, sols, 0) == cost_all(
                arcs@,
                sols,
                i3 as int,
            ),
        decreases n - i3,
    {
        let edges = &solutions[i3].1;
        proof {
            assert(sols[i3 as int].1 == edges@);
        }
        let mut j5: usize = 0;
        while j5 < edges.len()
            invariant
                terms == terms_view(terminals@),
                sols == sols_view(solutions@),
                n == solutions@.len(),
                nets_check(terms, sols, 0) is None,
                disj_from(sols, 0, 1) is None,
                i3 < n,
                sols[i3 as int].1 == edges@,
                j5 <= edges@.len(),
                (cost_all(arcs@, sols, 0) is Err) <==> (cost_all(arcs@, sols, i3 as int) is Err),
                cost_all(arcs@, sols, 0) is Err ==> cost_all(arcs@, sols, 0) == cost_all(
                    arcs@,
                    sols,
                    i3 as int,
                ),
                (cost_edges(arcs@, edges@, 0) is Err) <==> (cost_edges(arcs@, edges@, j5 as int)
                    is Err),
                cost_edges(arcs@, edges@, 0) is Err ==> cost_edges(arcs@, edges@, 0)
                    == cost_edges(arcs@, edges@, j5 as int),
            decreases edges@.len() - j5,
        {
            let e = edges[j5];
            let a = if e.0 < e.1 {
                e.0
            } else {
                e.1
            };
            let b = if e.0 < e.1 {
                e.1
            } else {
                e.0
            };
            let ap = find_arc(arcs, a, b);
            if ap >= arcs.len() {
                proof {
                    assert(cost_edges(arcs@, edges@, j5 as int) == Err::<int, SteinerError>(
                        SteinerError::SolutionEdgeMissing { head: e.0, tail: e.1 },
                    ));
                    assert(cost_all(arcs@, sols, i3 as int) == Err::<int, SteinerError>(
                        SteinerError::SolutionEdgeMissing { head: e.0, tail: e.1 },
                    ));
                }
                return Err(SteinerError::SolutionEdgeMissing { head: e.0, tail: e.1 });
            }
            j5 = j5 + 1;
        }
        proof {
            assert(cost_edges(arcs@, edges@, edges@.len() as int) is Ok);
        }
        i3 = i3 + 1;
    }
    proof {
        assert(cost_all(arcs@, sols, n as int) is Ok);
        assert(cost_all(arcs@, sols, 0) is Ok);
    }
    // total cost
    let mut cost: u128 = 0;
    let mut i4: usize = 0;
    while i4 < n
        invariant
            terms == terms_view(terminals@),
            sols == sols_view(solutions@),
            n == solutions@.len(),
            nets_check(terms, sols, 0) is None,
            disj_from(sols, 0, 1) is None,
            i4 <= n,
            cost_all(arcs@, sols, 0) is Ok,
            cost_all(arcs@, sols, i4 as int) is Ok,
            cost_all(arcs@, sols, 0)->Ok_0 == cost + cost_all(arcs@, sols, i4 as int)->Ok_0,
        decreases n - i4,
    {
        let edges = &solutions[i4].1;
        proof {
            assert(sols[i4 as int].1 == edges@);
        }
        let mut j6: usize = 0;
        proof {
            lemma_cost_all_nonneg(arcs@, sols, i4 + 1);
            lemma_cost_edges_nonneg(arcs@, edges@, 0);
        }
        while j6 < edges.len()
            invariant
                terms == terms_view(terminals@),
                sols == sols_view(solutions@),
                n == solutions@.len(),
                nets_check(terms, sols, 0) is None,
                disj_from(sols, 0, 1) is None,
                i4 < n,
                sols[i4 as int].1 == edges@,
                j6 <= edges@.len(),
                cost_all(arcs@, sols, 0) is Ok,
                cost_all(arcs@, sols, i4 + 1) is Ok,
                cost_edges(arcs@, edges@, j6 as int) is Ok,
                cost_all(arcs@, sols, 0)->Ok_0 == cost + cost_edges(arcs@, edges@, j6 as int)->Ok_0
                    + cost_all(arcs@, sols, i4 + 1)->Ok_0,
            decreases edges@.len() - j6,
        {
            let e = edges[j6];
            let a = if e.0 < e.1 {
                e.0
            } else {
                e.1
            };
            let b = if e.0 < e.1 {
                e.1
            } else {
                e.0
            };
            let ap = find_arc(arcs, a, b);
            proof {
                if ap >= arcs@.len() {
                    assert(cost_edges(arcs@, edges@, j6 as int) is Err);
                }
            }
            let w = arcs[ap].w;
            proof {
                lemma_cost_edges_nonneg(arcs@, edges@, j6 + 1);
                lemma_cost_all_nonneg(arcs@, sols, i4 + 1);
                assert(cost_edges(arcs@, edges@, j6 as int)->Ok_0 == w + cost_edges(
                    arcs@,
                    edges@,
                    j6 + 1,
                )->Ok_0);
            }
            if w as u128 > u128::MAX - cost {
                proof {
                    assert(cost_all(arcs@, sols, 0)->Ok_0 > u128::MAX);
                }
                return Err(SteinerError::CostOverflow);
            }
            cost = cost + w as u128;
            j6 = j6 + 1;
        }
        proof {
            assert(cost_edges(arcs@, edges@, edges@.len() as int)->Ok_0 == 0);
        }
        i4 = i4 + 1;
    }
    proof {
        assert(cost_all(arcs@, sols, n as int)->Ok_0 == 0);
    }
    Ok(cost)
}

proof fn lemma_nets_check_none(
    terms: Seq<(u64, Seq<u64>)>,
    sols: Seq<(u64, Seq<(u64, u64)>)>,
    k: int,
)
    requires
        forall|x: int|
            0 <= x < sols.len() ==> net_check(terms, (#[trigger] sols[x]).0, sols[x].1) is None,
    ensures
        nets_check(terms, sols, k) is None,
    decreases sols.len() - k,
{
    if 0 <= k < sols.len() {
        lemma_nets_check_none(terms, sols, k + 1);
    }
}

proof fn lemma_disj_finds(
    sols: Seq<(u64, Seq<(u64, u64)>)>,
    a: int,
    b: int,
    i: int,
    j: int,
)
    requires
        0 <= a < b,
        a < i || (a == i && b <= j),
        0 <= i < j < sols.len(),
        shares_node(sols[i].1, sols[j].1),
    ensures
        exists|na: u64, nb: u64|
            disj_from(sols, a, b) == Some(SteinerError::SharedNode { network_a: na, network_b: nb }),
    decreases sols.len() - a, sols.len() + 1 - b,
{
    if b >= sols.len() {
        lemma_disj_finds(sols, a + 1, a + 2, i, j);
    } else if shares_node(sols[a].1, sols[b].1) {
        assert(disj_from(sols, a, b) == Some(
            SteinerError::SharedNode { network_a: sols[a].0, network_b: sols[b].0 },
        ));
    } else {
        lemma_disj_finds(sols, a, b + 1, i, j);
    }
}

/// Steiner disjointness: two networks of the solution whose selected edges
/// touch a common node make the whole check fail with a shared-node error,
/// even where every network on its own covers and connects its terminals.
pub proof fn lemma_steiner_disjointness(
    arcs: Seq<Arc>,
    terms: Seq<(u64, Seq<u64>)>,
    sols: Seq<(u64, Seq<(u64, u64)>)>,
    i: int,
    j: int,
)
    requires
        0 <= i < j < sols.len(),
        shares_node(sols[i].1, sols[j].1),
        forall|x: int|
            0 <= x < sols.len() ==> net_check(terms, (#[trigger] sols[x]).0, sols[x].1) is None,
    ensures
        exists|na: u64, nb: u64|
            check_spec(arcs, terms, sols) == Err::<int, SteinerError>(
                SteinerError::SharedNode { network_a: na, network_b: nb },
            ),
{
    lemma_nets_check_none(terms, sols, 0);
    lemma_disj_finds(sols, 0, 1, i, j);
    let (na, nb) = choose|na: u64, nb: u64|
        disj_from(sols, 0, 1) == Some(SteinerError::SharedNode { network_a: na, network_b: nb });
    assert(check_spec(arcs, terms, sols) == Err::<int, SteinerError>(
        SteinerError::SharedNode { network_a: na, network_b: nb },
    ));
}

} // verus!
