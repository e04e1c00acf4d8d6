//! The market-split checker: a matrix of coefficient rows with right-hand
//! sides, a decoded 0/1 assignment, and one feasibility test per row.
//! The instance text is whitespace- and comma-separated; the first data
//! line gives the constraint and variable counts.

use vstd::prelude::*;

use crate::decoder::decode_spec;
use crate::decoder::extract_solution;
use crate::decoder::lemma_decode_len;
use crate::decoder::lemma_decode_range;
use crate::decoder::all_on_off;
use crate::errors::FormatError;
use crate::text::parse_u64;
use crate::text::parse_u64_spec;
use crate::text::split_lines;
use crate::text::split_lines_spec;
use crate::text::tokens;
use crate::text::tokens_spec;
use crate::text::lemma_tokens_nonempty;

verus! {

/// A market-split instance: a feasible assignment, the right-hand sides,
/// and the coefficient rows.
pub struct Instance {
    pub solution: Vec<bool>,
    pub rhs: Vec<i32>,
    pub rows: Vec<Vec<i32>>,
}

impl Instance {
    /// Shape well-formedness: one right-hand side per row, one solution
    /// entry per column.
    pub open spec fn wf(&self) -> bool {
        &&& self.rhs@.len() == self.rows@.len()
        &&& forall|i: int|
            0 <= i < self.rows@.len() ==> (#[trigger] self.rows@[i]@.len())
                == self.solution@.len()
    }
}

/// Sum of the first `upto` row entries whose solution flag is set.
pub open spec fn sel_sum(row: Seq<i32>, sol: Seq<bool>, upto: int) -> int
    decreases upto,
{
    if upto <= 0 {
        0
    } else {
        sel_sum(row, sol, upto - 1) + if sol[upto - 1] {
            row[upto - 1] as int
        } else {
            0
        }
    }
}

/// The row's slack against a candidate assignment: the right-hand side
/// minus the selected coefficients' sum, the row and the assignment read
/// up to the shorter of the two.
pub open spec fn slack_spec(row: Seq<i32>, sol: Seq<bool>, rhs: i32) -> int {
    rhs - sel_sum(
        row,
        sol,
        if row.len() <= sol.len() {
            row.len() as int
        } else {
            sol.len() as int
        },
    )
}

/// Compute the slack (right-hand side minus the sum of selected entries)
/// for a given row.
pub fn compute_slack(row: &[i32], solution: &[bool], rhs: i32) -> (r: i32)
    requires
        row@.len() < 0x1_0000_0000,
        i32::MIN <= slack_spec(row@, solution@, rhs) <= i32::MAX,
    ensures
        r == slack_spec(row@, solution@, rhs),
{
    let upto: usize = if row.len() <= solution.len() {
        row.len()
    } else {
        solution.len()
    };
    let mut acc: i64 = 0;
    let mut i: usize = 0;
    while i < upto
        invariant
            i <= upto <= row@.len() < 0x1_0000_0000,
            upto <= solution@.len(),
            acc == sel_sum(row@, solution@, i as int),
            -(i as int) * 0x8000_0000 <= acc <= (i as int) * 0x7fff_ffff,
        decreases upto - i,
    {
        if solution[i] {
            acc = acc + row[i] as i64;
        }
        i = i + 1;
    }
    let wide: i64 = rhs as i64 - acc;
    proof {
        assert(wide == slack_spec(row@, solution@, rhs));
    }
    wide as i32
}

/// Every entry of the row lies in `low..=high`.
pub fn check_range(row: &[i32], low: i32, high: i32) -> (r: bool)
    ensures
        r == forall|i: int| 0 <= i < row@.len() ==> low <= #[trigger] row@[i] <= high,
{
    let mut i: usize = 0;
    while i < row.len()
        invariant
            i <= row@.len(),
            forall|j: int| 0 <= j < i ==> low <= #[trigger] row@[j] <= high,
        decreases row@.len() - i,
    {
        if row[i] < low || row[i] > high {
            return false;
        }
        i = i + 1;
    }
    true
}

/// Failure while checking a market-split instance against a solution.
#[derive(Clone, Copy, Debug, PartialEq, Eq, Structural)]
pub enum MsError {
    /// The solution text could not be decoded.
    Format(FormatError),
    /// A line that is no comment, dimension or constraint line.
    SyntaxError { line: usize },
    /// A count, coefficient or right-hand side that is not a number its
    /// type holds.
    BadNumber { line: usize },
    /// A right-hand side that is not half the row's coefficient sum.
    RhsMismatch { constraint: usize, line: usize, expected: u128, found: u64 },
    /// Fewer or more constraint lines than declared.
    WrongConstraintCount { expected: usize, found: usize },
}

/// The checker's running state: the declared counts, the decoded
/// assignment, the constraints seen, and the verdict so far.
pub struct MsState {
    pub nc: int,
    pub nv: int,
    pub sol: Seq<i32>,
    pub cnt: int,
    pub ok: bool,
}

/// Commas count as blanks throughout the instance text.
pub open spec fn ms_replace(data: Seq<u8>) -> Seq<u8> {
    data.map_values(
        |c: u8|
            if c == 44 {
                32u8
            } else {
                c
            },
    )
}

/// Folding one constraint row's coefficient tokens: their total, and the
/// sum of those whose variable the assignment selects.
pub open spec fn ms_vals(
    toks: Seq<Seq<u8>>,
    i: int,
    nv: int,
    sol: Seq<i32>,
    tot: int,
    sum: int,
    lineno: int,
) -> Result<(int, int), MsError>
    decreases nv - i,
{
    if i >= nv {
        Ok((tot, sum))
    } else {
        match parse_u64_spec(toks[i]) {
            Option::None => Err(MsError::BadNumber { line: lineno as usize }),
            Option::Some(v) => if v > u32::MAX as u64 {
                Err(MsError::BadNumber { line: lineno as usize })
            } else {
                ms_vals(toks, i + 1, nv, sol, tot + v, sum + v * (sol[i] as int), lineno)
            },
        }
    }
}

/// What one line does to the checker's state: the first data line declares
/// the counts and decodes the solution; each later data line is one
/// constraint whose right-hand side must be half its coefficient total,
/// and whose selected sum settles the verdict.
pub open spec fn ms_line(st: MsState, line: Seq<u8>, lineno: int, soldata: Seq<u8>) -> Result<
    MsState,
    MsError,
> {
    let toks = tokens_spec(line);
    if toks.len() == 0 || toks[0][0] == 35 {
        Ok(st)
    } else if toks.len() >= 2 && st.nc == 0 && st.nv == 0 {
        match parse_u64_spec(toks[0]) {
            Option::None => Err(MsError::BadNumber { line: lineno as usize }),
            Option::Some(nc) => if nc > usize::MAX as u64 {
                Err(MsError::BadNumber { line: lineno as usize })
            } else {
                match parse_u64_spec(toks[1]) {
                    Option::None => Err(MsError::BadNumber { line: lineno as usize }),
                    Option::Some(nv) => if nv > usize::MAX as u64 {
                        Err(MsError::BadNumber { line: lineno as usize })
                    } else {
                        match decode_spec(soldata, nv as usize, 1i32, 0i32) {
                            Err(fe) => Err(MsError::Format(fe)),
                            Ok(sol) => Ok(
                                MsState {
                                    nc: nc as int,
                                    nv: nv as int,
                                    sol,
                                    cnt: st.cnt,
                                    ok: st.ok,
                                },
                            ),
                        }
                    },
                }
            },
        }
    } else if toks.len() > st.nv && st.nc > 0 {
        match ms_vals(toks, 0, st.nv, st.sol, 0, 0, lineno) {
            Err(e) => Err(e),
            Ok(ts) => match parse_u64_spec(toks[st.nv]) {
                Option::None => Err(MsError::BadNumber { line: lineno as usize }),
                Option::Some(rhs) => if rhs > u32::MAX as u64 {
                    Err(MsError::BadNumber { line: lineno as usize })
                } else if ts.0 / 2 != rhs {
                    Err(
                        MsError::RhsMismatch {
                            constraint: (st.cnt + 1) as usize,
                            line: lineno as usize,
                            expected: (ts.0 / 2) as u128,
                            found: rhs,
                        },
                    )
                } else {
                    Ok(
                        MsState {
                            nc: st.nc,
                            nv: st.nv,
                            sol: st.sol,
                            cnt: st.cnt + 1,
                            ok: st.ok && ts.1 == rhs,
                        },
                    )
                },
            },
        }
    } else {
        Err(MsError::SyntaxError { line: lineno as usize })
    }
}

pub open spec fn ms_lines(
    ls: Seq<Seq<u8>>,
    k: int,
    st: MsState,
    soldata: Seq<u8>,
) -> Result<MsState, MsError>
    decreases ls.len() - k,
{
    if k < 0 || k >= ls.len() {
        Ok(st)
    } else {
        match ms_line(st, ls[k], k + 1, soldata) {
            Ok(st2) => ms_lines(ls, k + 1, st2, soldata),
            Err(e) => Err(e),
        }
    }
}

/// What checking a whole instance text against a solution text returns.
pub open spec fn ms_spec(instance_data: Seq<u8>, soldata: Seq<u8>) -> Result<MsState, MsError> {
    let ls = split_lines_spec(ms_replace(instance_data));
    match ms_lines(
        ls,
        0,
        MsState { nc: 0, nv: 0, sol: Seq::<i32>::empty(), cnt: 0, ok: true },
        soldata,
    ) {
        Ok(st) => if st.cnt != st.nc {
            Err(
                MsError::WrongConstraintCount {
                    expected: st.nc as usize,
                    found: st.cnt as usize,
                },
            )
        } else {
            Ok(st)
        },
        Err(e) => Err(e),
    }
}

/// The checker's diagnostics and verdict.
#[derive(Clone, Copy, Debug, PartialEq, Eq, Structural)]
pub struct MsReport {
    pub num_vars: usize,
    pub constraints: usize,
    pub verified: bool,
}

/// What the checker's outcome must be for an instance text and a solution
/// text: the report's fields are the final fold state's.
pub open spec fn report_matches(
    instance_data: Seq<u8>,
    solution_data: Seq<u8>,
    r: Result<MsReport, MsError>,
) -> bool {
    match r {
        Ok(rep) => {
            &&& ms_spec(instance_data, solution_data) is Ok
            &&& rep.num_vars == ms_spec(instance_data, solution_data)->Ok_0.nv
            &&& rep.constraints == ms_spec(instance_data, solution_data)->Ok_0.cnt
            &&& rep.verified == ms_spec(instance_data, solution_data)->Ok_0.ok
        },
        Err(e) => ms_spec(instance_data, solution_data) == Err::<MsState, MsError>(e),
    }
}

/// One outcome per input: any two results the contract allows for the same
/// instance and solution texts are equal, so a second run cannot differ.
pub proof fn lemma_verify_idempotent(
    instance_data: Seq<u8>,
    solution_data: Seq<u8>,
    r1: Result<MsReport, MsError>,
    r2: Result<MsReport, MsError>,
)
    requires
        report_matches(instance_data, solution_data, r1),
        report_matches(instance_data, solution_data, r2),
    ensures
        r1 == r2,
{
}

/// Check a market-split instance text against a solution text: the verdict
/// is `true` exactly when every constraint's selected sum meets its
/// right-hand side; a malformed instance or solution is an error.
pub fn verify_solution(instance_data: &[u8], solution_data: &[u8]) -> (r: Result<
    MsReport,
    MsError,
>)
    ensures
        report_matches(instance_data@, solution_data@, r),
{
    let ghost sd = solution_data@;
    // commas count as blanks
    let mut text: Vec<u8> = Vec::new();
    let mut i: usize = 0;
    while i < instance_data.len()
        invariant
            i <= instance_data@.len(),
            text@ == ms_replace(instance_data@.take(i as int)),
        decreases instance_data@.len() - i,
    {
        let c = instance_data[i];
        text.push(if c == 44 {
            32
        } else {
            c
        });
        proof {
            assert(text@ =~= ms_replace(instance_data@.take(i + 1)));
        }
        i = i + 1;
    }
    proof {
        assert(instance_data@.take(instance_data@.len() as int) =~= instance_data@);
        assert(ms_replace(instance_data@).len() == instance_data@.len());
    }
    let ghost ls = split_lines_spec(ms_replace(instance_data@));
    let lines = split_lines(text.as_slice());
    let mut num_cons: usize = 0;
    let mut num_vars: usize = 0;
    let mut solution: Vec<i32> = Vec::new();
    let mut cnt_cons: usize = 0;
    let mut verified = true;
    let mut k: usize = 0;
    proof {
        assert(solution@ =~= Seq::<i32>::empty());
    }
    while k < lines.len()
        invariant
            k <= lines@.len(),
            ls == split_lines_spec(ms_replace(instance_data@)),
            lines@.map_values(|l: Vec<u8>| l@) == ls,
            sd == solution_data@,
            num_cons == 0 ==> cnt_cons == 0,
            cnt_cons <= k,
            num_vars > 0 || num_cons > 0 ==> solution@.len() == num_vars && all_on_off(
                solution@,
                1i32,
                0i32,
            ),
            ms_lines(
                ls,
                0,
                MsState { nc: 0, nv: 0, sol: Seq::<i32>::empty(), cnt: 0, ok: true },
                sd,
            ) == ms_lines(
                ls,
                k as int,
                MsState {
                    nc: num_cons as int,
                    nv: num_vars as int,
                    sol: solution@,
                    cnt: cnt_cons as int,
                    ok: verified,
                },
                sd,
            ),
        decreases lines@.len() - k,
    {
        let ghost st = MsState {
            nc: num_cons as int,
            nv: num_vars as int,
            sol: solution@,
            cnt: cnt_cons as int,
            ok: verified,
        };
        let line = &lines[k];
        proof {
            assert(line@ == ls[k as int]);
            lemma_tokens_nonempty(line@);
        }
        let toks = tokens(line.as_slice());
        let lineno: usize = k + 1;
        if toks.len() == 0 || toks[0][0] == 35 {
            proof {
                assert(ms_line(st, ls[k as int], k + 1, sd) == Ok::<MsState, MsError>(st));
            }
        } else if toks.len() >= 2 && num_cons == 0 && num_vars == 0 {
            let nc_parsed = match parse_u64(toks[0].as_slice()) {
                Option::Some(v) => v,
                Option::None => {
                    return Err(MsError::BadNumber { line: lineno });
                },
            };
            if nc_parsed > usize::MAX as u64 {
                return Err(MsError::BadNumber { line: lineno });
            }
            let nv_parsed = match parse_u64(toks[1].as_slice()) {
                Option::Some(v) => v,
                Option::None => {
                    return Err(MsError::BadNumber { line: lineno });
                },
            };
            if nv_parsed > usize::MAX as u64 {
                return Err(MsError::BadNumber { line: lineno });
            }
            solution = match extract_solution(solution_data, nv_parsed as usize, 1, 0) {
                Ok(v) => v,
                Err(fe) => {
                    return Err(MsError::Format(fe));
                },
            };
            num_cons = nc_parsed as usize;
            num_vars = nv_parsed as usize;
            proof {
                lemma_decode_len(sd, num_vars, 1i32, 0i32);
                lemma_decode_range(sd, num_vars, 1i32, 0i32);
                assert(ms_line(st, ls[k as int], k + 1, sd) == Ok::<MsState, MsError>(
                    MsState {
                        nc: num_cons as int,
                        nv: num_vars as int,
                        sol: solution@,
                        cnt: cnt_cons as int,
                        ok: verified,
                    },
                ));
            }
        } else if toks.len() > num_vars && num_cons > 0 {
            let mut tot: u128 = 0;
            let mut sum: u128 = 0;
            let mut vi: usize = 0;
            while vi < num_vars
                invariant
                    vi <= num_vars,
                    num_vars < toks@.len(),
                    toks@[0]@.len() > 0,
                    toks@[0]@[0] != 35,
                    num_cons > 0,
                    cnt_cons <= k < ls.len() == lines@.len(),
                    lines@.len() <= usize::MAX,
                    toks@.map_values(|t: Vec<u8>| t@) == tokens_spec(ls[k as int]),
                    ls == split_lines_spec(ms_replace(instance_data@)),
                    sd == solution_data@,
                    solution@.len() == num_vars,
                    all_on_off(solution@, 1i32, 0i32),
                    tot <= (vi as int) * (u32::MAX as int),
                    sum <= tot,
                    ms_lines(
                        ls,
                        0,
                        MsState { nc: 0, nv: 0, sol: Seq::<i32>::empty(), cnt: 0, ok: true },
                        sd,
                    ) == ms_lines(
                        ls,
                        k as int,
                        MsState {
                            nc: num_cons as int,
                            nv: num_vars as int,
                            sol: solution@,
                            cnt: cnt_cons as int,
                            ok: verified,
                        },
                        sd,
                    ),
                    ms_vals(
                        tokens_spec(ls[k as int]),
                        0,
                        num_vars as int,
                        solution@,
                        0,
                        0,
                        k + 1,
                    ) == ms_vals(
                        tokens_spec(ls[k as int]),
                        vi as int,
                        num_vars as int,
                        solution@,
                        tot as int,
                        sum as int,
                        k + 1,
                    ),
                decreases num_vars - vi,
            {
                let ghost toks_s = tokens_spec(ls[k as int]);
                proof {
                    assert(toks_s[vi as int] == toks@[vi as int]@);
                }
                let v = match parse_u64(toks[vi].as_slice()) {
                    Option::Some(v) => v,
                    Option::None => {
                        proof {
                            assert(ms_vals(
                                toks_s,
                                vi as int,
                                num_vars as int,
                                solution@,
                                tot as int,
                                sum as int,
                                k + 1,
                            ) == Err::<(int, int), MsError>(
                                MsError::BadNumber { line: (k + 1) as usize },
                            ));
                            let ghost stl = MsState {
                                nc: num_cons as int,
                                nv: num_vars as int,
                                sol: solution@,
                                cnt: cnt_cons as int,
                                ok: verified,
                            };
                            assert(tokens_spec(ls[k as int])[0] == toks@[0]@);
                            assert(ms_line(stl, ls[k as int], k + 1, sd) == Err::<
                                MsState,
                                MsError,
                            >(MsError::BadNumber { line: (k + 1) as usize }));
                            assert(ms_lines(ls, k as int, stl, sd) == Err::<MsState, MsError>(
                                MsError::BadNumber { line: (k + 1) as usize },
                            ));
                            assert(ms_spec(instance_data@, sd) == Err::<MsState, MsError>(
                                MsError::BadNumber { line: (k + 1) as usize },
                            ));
                        }
                        return Err(MsError::BadNumber { line: k + 1 });
                    },
                };
                if v > u32::MAX as u64 {
                    proof {
                        assert(ms_vals(
                            toks_s,
                            vi as int,
                            num_vars as int,
                            solution@,
                            tot as int,
                            sum as int,
                            k + 1,
                        ) == Err::<(int, int), MsError>(
                            MsError::BadNumber { line: (k + 1) as usize },
                        ));
                            let ghost stl = MsState {
                                nc: num_cons as int,
                                nv: num_vars as int,
                                sol: solution@,
                                cnt: cnt_cons as int,
                                ok: verified,
                            };
                            assert(tokens_spec(ls[k as int])[0] == toks@[0]@);
                            assert(ms_line(stl, ls[k as int], k + 1, sd) == Err::<
                                MsState,
                                MsError,
                            >(MsError::BadNumber { line: (k + 1) as usize }));
                            assert(ms_lines(ls, k as int, stl, sd) == Err::<MsState, MsError>(
                                MsError::BadNumber { line: (k + 1) as usize },
                            ));
                            assert(ms_spec(instance_data@, sd) == Err::<MsState, MsError>(
                                MsError::BadNumber { line: (k + 1) as usize },
                            ));
                    }
                    return Err(MsError::BadNumber { line: k + 1 });
                }
                let ghost tot0 = tot as int;
                let ghost sum0 = sum as int;
                proof {
                    assert(solution@[vi as int] == 1i32 || solution@[vi as int] == 0i32);
                }
                tot = tot + v as u128;
                if solution[vi] == 1 {
                    sum = sum + v as u128;
                }
                proof {
                    assert(sum as int == sum0 + v * (solution@[vi as int] as int));
                    assert(ms_vals(
                        toks_s,
                        vi as int,
                        num_vars as int,
                        solution@,
                        tot0,
                        sum0,
                        k + 1,
                    ) == ms_vals(
                        toks_s,
                        vi + 1,
                        num_vars as int,
                        solution@,
                        tot as int,
                        sum as int,
                        k + 1,
                    ));
                }
                vi = vi + 1;
            }
            proof {
                assert(tokens_spec(ls[k as int])[num_vars as int] == toks@[num_vars as int]@);
            }
            let rhs = match parse_u64(toks[num_vars].as_slice()) {
                Option::Some(v) => v,
                Option::None => {
                    proof {
                        assert(ms_line(st, ls[k as int], k + 1, sd) == Err::<MsState, MsError>(
                            MsError::BadNumber { line: (k + 1) as usize },
                        ));
                    }
                    return Err(MsError::BadNumber { line: lineno });
                },
            };
            if rhs > u32::MAX as u64 {
                proof {
                    assert(ms_line(st, ls[k as int], k + 1, sd) == Err::<MsState, MsError>(
                        MsError::BadNumber { line: (k + 1) as usize },
                    ));
                }
                return Err(MsError::BadNumber { line: lineno });
            }
            cnt_cons = cnt_cons + 1;
            if tot / 2 != rhs as u128 {
                return Err(
                    MsError::RhsMismatch {
                        constraint: cnt_cons,
                        line: lineno,
                        expected: tot / 2,
                        found: rhs,
                    },
                );
            }
            if sum != rhs as u128 {
                verified = false;
            }
            proof {
                assert(ms_line(st, ls[k as int], k + 1, sd) == Ok::<MsState, MsError>(
                    MsState {
                        nc: num_cons as int,
                        nv: num_vars as int,
                        sol: solution@,
                        cnt: cnt_cons as int,
                        ok: verified,
                    },
                ));
            }
        } else {
            return Err(MsError::SyntaxError { line: lineno });
        }
        k = k + 1;
    }
    if cnt_cons != num_cons {
        return Err(MsError::WrongConstraintCount { expected: num_cons, found: cnt_cons });
    }
    Ok(MsReport { num_vars, constraints: cnt_cons, verified })
}

} // verus!
