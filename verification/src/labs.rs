//! The low-autocorrelation binary sequence checker: decode the solution into
//! a bipolar sequence over `{-1, +1}`, compute its autocorrelation energy,
//! and compare it against the table of known optimal energies.

use vstd::prelude::*;

use crate::decoder::all_on_off;
use crate::decoder::decode_spec;
use crate::decoder::extract_solution;
use crate::decoder::lemma_decode_len;
use crate::decoder::lemma_decode_range;
use crate::errors::FormatError;

verus! {

/// Sum of the first `upto` products `s[i] * s[i + j]`.
pub open spec fn autocorr_sum(s: Seq<i32>, j: int, upto: int) -> int
    decreases upto,
{
    if upto <= 0 {
        0
    } else {
        autocorr_sum(s, j, upto - 1) + s[upto - 1] * s[upto - 1 + j]
    }
}

/// The autocorrelation of the sequence at shift `j`.
pub open spec fn autocorr(s: Seq<i32>, j: int) -> int {
    autocorr_sum(s, j, s.len() - j)
}

/// Sum of the squared autocorrelations over the shifts `1..upto`.
pub open spec fn energy_sum(s: Seq<i32>, upto: int) -> int
    decreases upto,
{
    if upto <= 1 {
        0
    } else {
        energy_sum(s, upto - 1) + autocorr(s, upto - 1) * autocorr(s, upto - 1)
    }
}

/// The sequence's autocorrelation energy: squared autocorrelations summed
/// over all shifts `1..=k-1`.
pub open spec fn sequence_energy(s: Seq<i32>) -> int {
    energy_sum(s, s.len() as int)
}

/// Known optimal energies by sequence length.
pub open spec fn optimal_seq() -> Seq<i32> {
    seq![
        0, 0, 0, 1, 2, 2, 7, 3, 8, 12, 13, 5, 10, 6, 19, 15, 24, 32, 25, 29, 26, 26, 39, 47, 36,
        36, 45, 37, 50, 62, 59, 67, 64, 64, 65, 73, 82, 86, 87, 99, 108,
    ]
}

/// The autocorrelation of `solution` at shift `j`: the sum over `i` of
/// `solution[i] * solution[i + j]`, which for bounded entries is no more
/// than the number of summands in magnitude.
pub fn autocorrelation(k: usize, j: usize, solution: &[i32]) -> (r: i32)
    requires
        k == solution@.len(),
        1 <= j <= k,
        k <= i32::MAX,
        forall|i: int| 0 <= i < solution@.len() ==> -1 <= #[trigger] solution@[i] <= 1,
    ensures
        r == autocorr(solution@, j as int),
        -(k - j) <= r <= (k - j),
{
    let mut sum: i32 = 0;
    let mut i: usize = 0;
    while i < k - j
        invariant
            k == solution@.len(),
            1 <= j <= k,
            k <= i32::MAX,
            forall|v: int| 0 <= v < solution@.len() ==> -1 <= #[trigger] solution@[v] <= 1,
            i <= k - j,
            sum == autocorr_sum(solution@, j as int, i as int),
            -i <= sum <= i,
        decreases k - j - i,
    {
        let a = solution[i];
        let b = solution[i + j];
        proof {
            assert(-1 <= a * b <= 1) by (nonlinear_arith)
                requires
                    -1 <= a <= 1,
                    -1 <= b <= 1,
            ;
        }
        sum = sum + a * b;
        i = i + 1;
    }
    sum
}

/// The sequence's energy: the squared autocorrelations summed over all
/// shifts.
pub fn sequenz_energy(k: usize, solution: &[i32]) -> (r: i32)
    requires
        k == solution@.len(),
        k >= 1,
        (k - 1) * (k - 1) * (k - 1) <= i32::MAX,
        forall|i: int| 0 <= i < solution@.len() ==> -1 <= #[trigger] solution@[i] <= 1,
    ensures
        r == sequence_energy(solution@),
        0 <= r <= (k - 1) * (k - 1) * (k - 1),
{
    let mut sum: i32 = 0;
    let mut j: usize = 1;
    proof {
        assert((k - 1) * (k - 1) * (k - 1) >= 0) by (nonlinear_arith)
            requires
                k >= 1,
        ;
    }
    while j < k
        invariant
            k == solution@.len(),
            k >= 1,
            (k - 1) * (k - 1) * (k - 1) <= i32::MAX,
            forall|v: int| 0 <= v < solution@.len() ==> -1 <= #[trigger] solution@[v] <= 1,
            1 <= j <= k,
            sum == energy_sum(solution@, j as int),
            0 <= sum,
            sum <= (j - 1) * ((k - 1) * (k - 1)),
            (k - 1) * (k - 1) * (k - 1) <= i32::MAX,
        decreases k - j,
    {
        proof {
            assert(k <= i32::MAX) by (nonlinear_arith)
                requires
                    2 <= k,
                    (k - 1) * (k - 1) * (k - 1) <= i32::MAX,
            ;
        }
        let ac = autocorrelation(k, j, solution);
        proof {
            assert(0 <= ac * ac <= (k - 1) * (k - 1)) by (nonlinear_arith)
                requires
                    -(k - 1) <= ac <= (k - 1),
                    k >= 1,
            ;
            assert((j - 1) * ((k - 1) * (k - 1)) + (k - 1) * (k - 1) == j * ((k - 1) * (k - 1)))
                by (nonlinear_arith);
            assert(j * ((k - 1) * (k - 1)) <= (k - 1) * ((k - 1) * (k - 1))) by (nonlinear_arith)
                requires
                    1 <= j <= k - 1,
            ;
            assert((k - 1) * ((k - 1) * (k - 1)) == (k - 1) * (k - 1) * (k - 1))
                by (nonlinear_arith);
        }
        sum = sum + ac * ac;
        j = j + 1;
    }
    proof {
        assert((j - 1) * ((k - 1) * (k - 1)) <= (k - 1) * (k - 1) * (k - 1)) by (nonlinear_arith)
            requires
                1 <= j == k,
        ;
    }
    sum
}

/// The run-length code of a sequence: the lengths of its maximal runs of
/// equal values, in order.
pub open spec fn runs(s: Seq<i32>) -> Seq<int>
    decreases s.len(),
{
    if s.len() == 0 {
        seq![]
    } else if s.len() == 1 {
        seq![1]
    } else {
        let r = runs(s.drop_last());
        if s.last() == s[s.len() - 2] {
            r.update(r.len() - 1, r.last() + 1)
        } else {
            r.push(1)
        }
    }
}

proof fn lemma_runs_nonempty(s: Seq<i32>)
    ensures
        s.len() > 0 ==> runs(s).len() > 0,
    decreases s.len(),
{
    if s.len() > 1 {
        lemma_runs_nonempty(s.drop_last());
    }
}

/// The lengths of the maximal runs of equal values, in order.
pub fn run_lengths(solution: &[i32]) -> (r: Vec<usize>)
    requires
        solution@.len() >= 1,
    ensures
        r@.map_values(|x: usize| x as int) == runs(solution@),
{
    let mut out: Vec<usize> = Vec::new();
    let mut count: usize = 1;
    let mut prev = solution[0];
    let mut i: usize = 1;
    proof {
        assert(solution@.take(1) =~= seq![solution@[0]]);
        assert(runs(solution@.take(1)) =~= out@.map_values(|x: usize| x as int).push(1));
    }
    while i < solution.len()
        invariant
            1 <= i <= solution@.len(),
            1 <= count <= i,
            prev == solution@[i - 1],
            runs(solution@.take(i as int)) == out@.map_values(|x: usize| x as int).push(
                count as int,
            ),
        decreases solution@.len() - i,
    {
        let ghost pre = solution@.take(i as int);
        let ghost outm = out@.map_values(|x: usize| x as int);
        let c = solution[i];
        proof {
            assert(solution@.take(i + 1).drop_last() =~= pre);
            assert(solution@.take(i + 1).last() == c);
            assert(solution@.take(i + 1)[i - 1] == solution@[i - 1]);
            lemma_runs_nonempty(pre);
        }
        let ghost oldc = count as int;
        if c == prev {
            count = count + 1;
            proof {
                assert(runs(solution@.take(i + 1)) =~= outm.push(oldc).update(
                    outm.len() as int,
                    oldc + 1,
                ));
                assert(outm.push(oldc).update(outm.len() as int, oldc + 1) =~= outm.push(
                    count as int,
                ));
            }
        } else {
            out.push(count);
            count = 1;
            prev = c;
            proof {
                assert(runs(solution@.take(i + 1)) =~= outm.push(oldc).push(1));
                assert(out@.map_values(|x: usize| x as int) =~= outm.push(oldc));
            }
        }
        i = i + 1;
    }
    proof {
        assert(solution@.take(solution@.len() as int) =~= solution@);
    }
    let ghost outm = out@.map_values(|x: usize| x as int);
    out.push(count);
    proof {
        assert(out@.map_values(|x: usize| x as int) =~= outm.push(count as int));
        assert(out@.map_values(|x: usize| x as int) =~= runs(solution@));
    }
    out
}

/// The one-character code the run-length rendering uses for a run count:
/// a digit, then a lowercase letter, then an uppercase letter; longer runs
/// have no single character.
pub open spec fn count_code_spec(count: int) -> Option<u8> {
    if count < 10 {
        Some((48 + count) as u8)
    } else if count < 36 {
        Some((97 + count - 10) as u8)
    } else if count < 62 {
        Some((65 + count - 36) as u8)
    } else {
        None
    }
}

pub fn count_code(count: usize) -> (r: Option<u8>)
    ensures
        r == count_code_spec(count as int),
{
    if count < 10 {
        Some(48 + count as u8)
    } else if count < 36 {
        Some(97 + (count - 10) as u8)
    } else if count < 62 {
        Some(65 + (count - 36) as u8)
    } else {
        None
    }
}

fn optimal_table() -> (t: Vec<i32>)
    ensures
        t@ == optimal_seq(),
{
    let t: Vec<i32> = vec![
        0, 0, 0, 1, 2, 2, 7, 3, 8, 12, 13, 5, 10, 6, 19, 15, 24, 32, 25, 29, 26, 26, 39, 47, 36,
        36, 45, 37, 50, 62, 59, 67, 64, 64, 65, 73, 82, 86, 87, 99, 108,
    ];
    proof {
        assert(t@ =~= optimal_seq());
    }
    t
}

/// The checker's diagnostics and verdict.
#[derive(Clone, Copy, Debug, PartialEq, Eq, Structural)]
pub struct LabsReport {
    pub energy: i32,
    pub checkable: bool,
    pub verified: bool,
}

/// What the checker's outcome must be for a length and a solution text:
/// the energy is the decoded sequence's, the verdict compares against the
/// table of known optima where one exists.
pub open spec fn report_matches(k: usize, data: Seq<u8>, r: Result<LabsReport, FormatError>) -> bool {
    match r {
        Ok(rep) => {
            &&& decode_spec(data, k, -1i32, 1i32) is Ok
            &&& rep.energy == sequence_energy(decode_spec(data, k, -1i32, 1i32)->Ok_0)
            &&& rep.checkable == (3 <= k < 41)
            &&& rep.verified == if 3 <= k < 41 {
                rep.energy == optimal_seq()[k as int]
            } else {
                true
            }
        },
        Err(e) => decode_spec(data, k, -1i32, 1i32) == Err::<Seq<i32>, FormatError>(e),
    }
}

/// One outcome per input: any two results the contract allows for the same
/// length and solution text are equal, so a second run cannot differ.
pub proof fn lemma_verify_idempotent(
    k: usize,
    data: Seq<u8>,
    r1: Result<LabsReport, FormatError>,
    r2: Result<LabsReport, FormatError>,
)
    requires
        report_matches(k, data, r1),
        report_matches(k, data, r2),
    ensures
        r1 == r2,
{
}

/// Decode a length-`k` solution into a bipolar sequence (`0` maps to `+1`,
/// `1` to `-1`) and compute its energy. Where the optimal energy for `k` is
/// known, the verdict compares against it; otherwise the sequence passes as
/// too big to check.
pub fn verify_solution(k: usize, solution_data: &[u8]) -> (r: Result<LabsReport, FormatError>)
    requires
        k >= 1,
        (k - 1) * (k - 1) * (k - 1) <= i32::MAX,
    ensures
        report_matches(k, solution_data@, r),
{
    let solution = match extract_solution(solution_data, k, -1, 1) {
        Ok(v) => v,
        Err(e) => {
            return Err(e);
        },
    };
    proof {
        lemma_decode_len(solution_data@, k, -1i32, 1i32);
        lemma_decode_range(solution_data@, k, -1i32, 1i32);
        assert(all_on_off(solution@, -1i32, 1i32));
        assert forall|i: int| 0 <= i < solution@.len() implies -1 <= #[trigger] solution@[i]
            <= 1 by {
            assert(solution@[i] == -1 || solution@[i] == 1);
        }
    }
    let energy = sequenz_energy(k, solution.as_slice());
    let checkable = 3 <= k && k < 41;
    let verified = if checkable {
        let table = optimal_table();
        energy == table[k]
    } else {
        true
    };
    Ok(LabsReport { energy, checkable, verified })
}

} // verus!
