//! Solution format auto-detection and decoding.
//!
//! A solution text arrives in one of three loosely specified encodings: a
//! dense 0/1 vector, a punctuation-delimited list of 1-based indices, or
//! annotated `x#<i> <0|1>` lines. A one-pass monotone state classifier picks
//! the encoding; the matching parser produces a canonical assignment vector
//! of exactly `dim` entries. The problem's polarity is a parameter: an entry
//! is `on` where the text selects it and `off` elsewhere.

use vstd::prelude::*;

use crate::errors::FormatError;
use crate::text::is_digit;
use crate::text::is_punct;
use crate::text::is_space;
use crate::text::byte_is_digit;
use crate::text::byte_is_punct;
use crate::text::byte_is_space;

verus! {

/// The classifier's states, in promotion order. `OnlySpace` at end of input
/// means the text was empty; `XVarList` is terminal.
#[derive(Clone, Copy, Debug, PartialEq, Eq, Structural)]
pub enum SolutionFormat {
    OnlySpace,
    ZeroOneVec,
    IndexList,
    XVarList,
}

/// Lifts a decode result to its mathematical view, so one `ensures` clause
/// can equate an executable result with a specification-level one.
pub open spec fn lift_res(r: Result<Vec<i32>, FormatError>) -> Result<Seq<i32>, FormatError> {
    match r {
        Ok(v) => Ok(v@),
        Err(e) => Err(e),
    }
}

// ---------------------------------------------------------------------------
// Sniffing
// ---------------------------------------------------------------------------

/// One byte's effect on the classifier. The three promotions are tested in
/// order, so a single byte may advance the state several steps at once.
pub open spec fn sniff_step(f: SolutionFormat, c: u8) -> SolutionFormat {
    let f1 = if f == SolutionFormat::OnlySpace && !is_space(c) {
        SolutionFormat::ZeroOneVec
    } else {
        f
    };
    let f2 = if f1 == SolutionFormat::ZeroOneVec && !is_space(c) && !is_punct(c) && c != 48 && c
        != 49 {
        SolutionFormat::IndexList
    } else {
        f1
    };
    if f2 == SolutionFormat::IndexList && !is_space(c) && !is_punct(c) && !is_digit(c) {
        SolutionFormat::XVarList
    } else {
        f2
    }
}

pub open spec fn sniff_from(data: Seq<u8>, f: SolutionFormat) -> SolutionFormat
    decreases data.len(),
{
    if data.len() == 0 {
        f
    } else {
        sniff_from(data.skip(1), sniff_step(f, data[0]))
    }
}

/// The format that one monotone pass over the bytes settles on.
pub open spec fn sniff(data: Seq<u8>) -> SolutionFormat {
    sniff_from(data, SolutionFormat::OnlySpace)
}

/// The terminal state absorbs the rest of the input.
proof fn lemma_sniff_absorbing(data: Seq<u8>)
    ensures
        sniff_from(data, SolutionFormat::XVarList) == SolutionFormat::XVarList,
    decreases data.len(),
{
    if data.len() > 0 {
        lemma_sniff_absorbing(data.skip(1));
    }
}

pub fn detect_solution_format(data: &[u8]) -> (r: SolutionFormat)
    ensures
        r == sniff(data@),
{
    let mut format = SolutionFormat::OnlySpace;
    let mut i: usize = 0;
    proof {
        assert(data@.skip(0) =~= data@);
    }
    while i < data.len()
        invariant
            i <= data.len(),
            sniff(data@) == sniff_from(data@.skip(i as int), format),
        decreases data.len() - i,
    {
        let c = data[i];
        proof {
            assert(data@.skip(i as int)[0] == c);
            assert(data@.skip(i as int).skip(1) =~= data@.skip(i + 1));
        }
        if format == SolutionFormat::OnlySpace && !byte_is_space(c) {
            format = SolutionFormat::ZeroOneVec;
        }
        if format == SolutionFormat::ZeroOneVec && !byte_is_space(c) && !byte_is_punct(c) && c
            != 48 && c != 49 {
            format = SolutionFormat::IndexList;
        }
        if format == SolutionFormat::IndexList && !byte_is_space(c) && !byte_is_punct(c)
            && !byte_is_digit(c) {
            format = SolutionFormat::XVarList;
            proof {
                lemma_sniff_absorbing(data@.skip(i + 1));
            }
            return format;
        }
        i = i + 1;
    }
    proof {
        assert(data@.skip(i as int) =~= Seq::<u8>::empty());
    }
    format
}

// ---------------------------------------------------------------------------
// Dense 0/1 vector
// ---------------------------------------------------------------------------

/// A byte the dense format accepts: a binary digit or an ignored separator.
pub open spec fn zov_allowed(c: u8) -> bool {
    c == 48 || c == 49 || is_space(c) || is_punct(c)
}

/// Index of the first byte the dense format rejects, or the length.
pub open spec fn first_zov_bad(s: Seq<u8>) -> nat
    decreases s.len(),
{
    if s.len() == 0 {
        0
    } else if !zov_allowed(s[0]) {
        0
    } else {
        1 + first_zov_bad(s.skip(1))
    }
}

pub proof fn lemma_first_zov_bad(s: Seq<u8>)
    ensures
        first_zov_bad(s) <= s.len(),
        first_zov_bad(s) < s.len() ==> !zov_allowed(s[first_zov_bad(s) as int]),
        forall|j: int| 0 <= j < first_zov_bad(s) ==> zov_allowed(s[j]),
    decreases s.len(),
{
    if s.len() != 0 && zov_allowed(s[0]) {
        lemma_first_zov_bad(s.skip(1));
        assert forall|j: int| 0 <= j < first_zov_bad(s) implies zov_allowed(s[j]) by {
            if j > 0 {
                assert(s.skip(1)[j - 1] == s[j]);
            }
        }
    }
}

/// The binary digit bytes of the text, in order.
pub open spec fn zov_digits(s: Seq<u8>) -> Seq<u8> {
    s.filter(|c: u8| c == 48 || c == 49)
}

/// The canonical vector the dense format denotes: one entry per digit byte.
pub open spec fn zov_values(s: Seq<u8>, on: i32, off: i32) -> Seq<i32> {
    zov_digits(s).map_values(|c: u8| if c == 49 { on } else { off })
}

/// What decoding a dense 0/1 vector returns: the first unacceptable byte is
/// an error; then the digit count must equal `dim` exactly.
pub open spec fn decode_01_spec(data: Seq<u8>, dim: usize, on: i32, off: i32) -> Result<
    Seq<i32>,
    FormatError,
> {
    if first_zov_bad(data) < data.len() {
        Err(FormatError::UnexpectedChar {
            pos: first_zov_bad(data) as usize,
            found: data[first_zov_bad(data) as int],
        })
    } else if zov_digits(data).len() != dim {
        Err(FormatError::WrongLength { expected: dim, found: zov_digits(data).len() as usize })
    } else {
        Ok(zov_values(data, on, off))
    }
}

pub fn extract_solution_01(data: &[u8], dim: usize, on: i32, off: i32) -> (r: Result<
    Vec<i32>,
    FormatError,
>)
    ensures
        lift_res(r) == decode_01_spec(data@, dim, on, off),
{
    let mut sol: Vec<i32> = Vec::new();
    let mut i: usize = 0;
    proof {
        reveal(Seq::filter);
        assert(data@.take(0) =~= Seq::<u8>::empty());
        assert(sol@ =~= zov_values(data@.take(0), on, off));
    }
    while i < data.len()
        invariant
            i <= data.len(),
            forall|k: int| 0 <= k < i ==> zov_allowed(data@[k]),
            sol@ == zov_values(data@.take(i as int), on, off),
        decreases data.len() - i,
    {
        let c = data[i];
        proof {
            reveal(Seq::filter);
            assert(data@.take(i + 1).drop_last() =~= data@.take(i as int));
            assert(data@.take(i + 1).last() == c);
        }
        let ghost prev_digits = zov_digits(data@.take(i as int));
        if c == 48 || c == 49 {
            sol.push(if c == 49 { on } else { off });
            proof {
                assert(zov_digits(data@.take(i + 1)) =~= prev_digits.push(c));
                assert(zov_values(data@.take(i + 1), on, off) =~= zov_values(
                    data@.take(i as int),
                    on,
                    off,
                ).push(if c == 49 { on } else { off }));
            }
        } else if !byte_is_space(c) && !byte_is_punct(c) {
            proof {
                lemma_first_zov_bad(data@);
                assert(first_zov_bad(data@) == i) by {
                    if first_zov_bad(data@) < i {
                        assert(zov_allowed(data@[first_zov_bad(data@) as int]));
                    }
                }
            }
            return Err(FormatError::UnexpectedChar { pos: i, found: c });
        } else {
            proof {
                assert(zov_digits(data@.take(i + 1)) =~= prev_digits);
                assert(zov_values(data@.take(i + 1), on, off) =~= zov_values(
                    data@.take(i as int),
                    on,
                    off,
                ));
            }
        }
        i = i + 1;
    }
    proof {
        assert(data@.take(i as int) =~= data@);
        lemma_first_zov_bad(data@);
        assert(first_zov_bad(data@) == data@.len()) by {
            if first_zov_bad(data@) < data@.len() {
                assert(zov_allowed(data@[first_zov_bad(data@) as int]));
            }
        }
        assert(zov_values(data@, on, off).len() == zov_digits(data@).len());
    }
    if sol.len() != dim {
        return Err(FormatError::WrongLength { expected: dim, found: sol.len() });
    }
    Ok(sol)
}

// ---------------------------------------------------------------------------
// Index list
// ---------------------------------------------------------------------------

/// A line counter's saturating increment: exact until the type's maximum.
pub open spec fn sat_inc(x: usize) -> usize {
    if x < usize::MAX {
        (x + 1) as usize
    } else {
        x
    }
}

/// Appending one decimal digit to an accumulated index, saturating at the
/// type's maximum (a saturated value stays out of every `1..=dim` range).
pub open spec fn sat_acc(index: u64, c: u8) -> u64 {
    if index * 10 + (c - 48) > u64::MAX {
        u64::MAX
    } else {
        (index * 10 + (c - 48)) as u64
    }
}

/// The scan state of the index-list parser: the vector so far, the index
/// being accumulated, and the 1-based line number.
pub struct NumbState {
    pub sol: Seq<i32>,
    pub index: u64,
    pub lineno: usize,
}

/// One byte's effect on the index-list scan: a separator finalizes a pending
/// index, a digit extends it and is checked against `dim` at once.
pub open spec fn numb_step(st: NumbState, c: u8, dim: usize, on: i32) -> Result<
    NumbState,
    FormatError,
> {
    let st1 = if is_space(c) || is_punct(c) {
        NumbState {
            sol: if st.index > 0 {
                st.sol.update(st.index - 1, on)
            } else {
                st.sol
            },
            index: 0,
            lineno: if c == 10 {
                sat_inc(st.lineno)
            } else {
                st.lineno
            },
        }
    } else {
        st
    };
    if is_digit(c) {
        let idx2 = sat_acc(st1.index, c);
        if idx2 > dim {
            Err(FormatError::IndexOutOfRange { line: st1.lineno, index: idx2, dim })
        } else {
            Ok(NumbState { sol: st1.sol, index: idx2, lineno: st1.lineno })
        }
    } else {
        Ok(st1)
    }
}

pub open spec fn numb_from(data: Seq<u8>, pos: int, st: NumbState, dim: usize, on: i32) -> Result<
    Seq<i32>,
    FormatError,
>
    decreases data.len() - pos,
{
    if pos < 0 || pos >= data.len() {
        Ok(st.sol)
    } else {
        match numb_step(st, data[pos], dim, on) {
            Ok(st2) => numb_from(data, pos + 1, st2, dim, on),
            Err(e) => Err(e),
        }
    }
}

/// What decoding an index list returns: the vector starts all `off`; each
/// finalized 1-based index turns its entry `on`. An index still being
/// accumulated at end of input is dropped, as the scan leaves it.
pub open spec fn decode_numb_spec(data: Seq<u8>, dim: usize, on: i32, off: i32) -> Result<
    Seq<i32>,
    FormatError,
> {
    numb_from(data, 0, NumbState { sol: Seq::new(dim as nat, |i| off), index: 0, lineno: 1 }, dim, on)
}

pub fn extract_solution_numb(data: &[u8], dim: usize, on: i32, off: i32) -> (r: Result<
    Vec<i32>,
    FormatError,
>)
    ensures
        lift_res(r) == decode_numb_spec(data@, dim, on, off),
{
    let mut sol: Vec<i32> = vec![off; dim];
    let mut index: u64 = 0;
    let mut lineno: usize = 1;
    let mut i: usize = 0;
    proof {
        assert(sol@ =~= Seq::new(dim as nat, |k| off));
    }
    while i < data.len()
        invariant
            i <= data.len(),
            sol@.len() == dim,
            index <= dim,
            decode_numb_spec(data@, dim, on, off) == numb_from(
                data@,
                i as int,
                NumbState { sol: sol@, index, lineno },
                dim,
                on,
            ),
        decreases data.len() - i,
    {
        let ghost st = NumbState { sol: sol@, index, lineno };
        let c = data[i];
        if byte_is_space(c) || byte_is_punct(c) {
            if index > 0 {
                sol.set((index - 1) as usize, on);
            }
            index = 0;
            if c == 10 {
                if lineno < usize::MAX {
                    lineno = lineno + 1;
                }
            }
        }
        if byte_is_digit(c) {
            let wide: u128 = (index as u128) * 10 + ((c - 48) as u128);
            let idx2: u64 = if wide > u64::MAX as u128 {
                u64::MAX
            } else {
                wide as u64
            };
            proof {
                assert(idx2 == sat_acc(index, c));
            }
            if idx2 > dim as u64 {
                proof {
                    assert(numb_step(st, c, dim, on) == Err::<NumbState, FormatError>(
                        FormatError::IndexOutOfRange { line: lineno, index: idx2, dim },
                    ));
                }
                return Err(FormatError::IndexOutOfRange { line: lineno, index: idx2, dim });
            }
            index = idx2;
        }
        proof {
            assert(numb_step(st, c, dim, on) == Ok::<NumbState, FormatError>(
                NumbState { sol: sol@, index, lineno },
            ));
        }
        i = i + 1;
    }
    Ok(sol)
}

// ---------------------------------------------------------------------------
// Annotated variable lines
// ---------------------------------------------------------------------------

/// The scan state of the annotated-line parser. `field` walks one line:
/// 0 before the marker, 1 after it, 2 inside the index digits, 3 after them,
/// 4 expecting the value digit, 5 ignoring the rest of the line.
pub struct TextState {
    pub sol: Seq<i32>,
    pub field: int,
    pub index: u64,
    pub lineno: usize,
}

/// One byte's effect on the annotated-line scan. A line feed resets the
/// per-line state before the byte is interpreted, so an index the line end
/// cuts off is discarded without a range check, as the scan has it.
pub open spec fn text_step(st: TextState, c: u8, dim: usize, on: i32, off: i32) -> Result<
    TextState,
    FormatError,
> {
    let st0 = if c == 10 {
        TextState { sol: st.sol, field: 0, index: 0, lineno: sat_inc(st.lineno) }
    } else {
        st
    };
    if st0.field == 0 {
        if c == 120 {
            Ok(TextState { field: 1, ..st0 })
        } else if !is_space(c) {
            Ok(TextState { field: 5, ..st0 })
        } else {
            Ok(st0)
        }
    } else if st0.field == 1 {
        if is_digit(c) {
            Ok(TextState { field: 2, index: (c - 48) as u64, ..st0 })
        } else {
            Ok(st0)
        }
    } else if st0.field == 2 {
        if is_digit(c) {
            Ok(TextState { index: sat_acc(st0.index, c), ..st0 })
        } else if st0.index < 1 || st0.index > dim {
            Err(FormatError::IndexOutOfRange { line: st0.lineno, index: st0.index, dim })
        } else {
            Ok(TextState {
                field: if is_space(c) {
                    4
                } else {
                    3
                },
                index: (st0.index - 1) as u64,
                ..st0
            })
        }
    } else if st0.field == 3 {
        if is_space(c) {
            Ok(TextState { field: 4, ..st0 })
        } else {
            Ok(st0)
        }
    } else if st0.field == 4 {
        if c == 48 || c == 49 {
            Ok(TextState {
                sol: st0.sol.update(st0.index as int, if c == 49 { on } else { off }),
                field: 5,
                ..st0
            })
        } else {
            Err(FormatError::BadValueChar { line: st0.lineno, found: c })
        }
    } else {
        Ok(st0)
    }
}

pub open spec fn text_from(
    data: Seq<u8>,
    pos: int,
    st: TextState,
    dim: usize,
    on: i32,
    off: i32,
) -> Result<Seq<i32>, FormatError>
    decreases data.len() - pos,
{
    if pos < 0 || pos >= data.len() {
        Ok(st.sol)
    } else {
        match text_step(st, data[pos], dim, on, off) {
            Ok(st2) => text_from(data, pos + 1, st2, dim, on, off),
            Err(e) => Err(e),
        }
    }
}

/// What decoding annotated `x#<i> <0|1>` lines returns: lines not starting
/// with the marker are skipped whole; a matching line sets one entry to the
/// written value; untouched entries keep the `off` default.
pub open spec fn decode_text_spec(data: Seq<u8>, dim: usize, on: i32, off: i32) -> Result<
    Seq<i32>,
    FormatError,
> {
    text_from(
        data,
        0,
        TextState { sol: Seq::new(dim as nat, |i| off), field: 0, index: 0, lineno: 1 },
        dim,
        on,
        off,
    )
}

pub fn extract_solution_text(data: &[u8], dim: usize, on: i32, off: i32) -> (r: Result<
    Vec<i32>,
    FormatError,
>)
    ensures
        lift_res(r) == decode_text_spec(data@, dim, on, off),
{
    let mut sol: Vec<i32> = vec![off; dim];
    let mut field: u8 = 0;
    let mut index: u64 = 0;
    let mut lineno: usize = 1;
    let mut i: usize = 0;
    proof {
        assert(sol@ =~= Seq::new(dim as nat, |k| off));
    }
    while i < data.len()
        invariant
            i <= data.len(),
            sol@.len() == dim,
            field <= 5,
            (field == 3 || field == 4) ==> index < dim as u64,
            decode_text_spec(data@, dim, on, off) == text_from(
                data@,
                i as int,
                TextState { sol: sol@, field: field as int, index, lineno },
                dim,
                on,
                off,
            ),
        decreases data.len() - i,
    {
        let ghost st = TextState { sol: sol@, field: field as int, index, lineno };
        let c = data[i];
        if c == 10 {
            if lineno < usize::MAX {
                lineno = lineno + 1;
            }
            field = 0;
            index = 0;
        }
        if field == 0 {
            if c == 120 {
                field = 1;
            } else if !byte_is_space(c) {
                field = 5;
            }
        } else if field == 1 {
            if byte_is_digit(c) {
                field = 2;
                index = (c - 48) as u64;
            }
        } else if field == 2 {
            if byte_is_digit(c) {
                let wide: u128 = (index as u128) * 10 + ((c - 48) as u128);
                index = if wide > u64::MAX as u128 {
                    u64::MAX
                } else {
                    wide as u64
                };
            } else {
                if index < 1 || index > dim as u64 {
                    return Err(FormatError::IndexOutOfRange { line: lineno, index, dim });
                }
                index = index - 1;
                field = if byte_is_space(c) {
                    4
                } else {
                    3
                };
            }
        } else if field == 3 {
            if byte_is_space(c) {
                field = 4;
            }
        } else if field == 4 {
            if c == 48 || c == 49 {
                sol.set(index as usize, if c == 49 { on } else { off });
                field = 5;
            } else {
                return Err(FormatError::BadValueChar { line: lineno, found: c });
            }
        }
        proof {
            assert(text_step(st, c, dim, on, off) == Ok::<TextState, FormatError>(
                TextState { sol: sol@, field: field as int, index, lineno },
            ));
        }
        i = i + 1;
    }
    Ok(sol)
}

// ---------------------------------------------------------------------------
// Dispatch
// ---------------------------------------------------------------------------

/// What decoding returns: the sniffed format's parser on the whole text;
/// a text of nothing but whitespace is an error.
pub open spec fn decode_spec(data: Seq<u8>, dim: usize, on: i32, off: i32) -> Result<
    Seq<i32>,
    FormatError,
> {
    match sniff(data) {
        SolutionFormat::OnlySpace => Err(FormatError::Empty),
        SolutionFormat::ZeroOneVec => decode_01_spec(data, dim, on, off),
        SolutionFormat::IndexList => decode_numb_spec(data, dim, on, off),
        SolutionFormat::XVarList => decode_text_spec(data, dim, on, off),
    }
}

/// Decode a solution in whichever of the three encodings the text uses,
/// to a canonical vector of exactly `dim` entries over `{on, off}`.
pub fn extract_solution(data: &[u8], dim: usize, on: i32, off: i32) -> (r: Result<
    Vec<i32>,
    FormatError,
>)
    ensures
        lift_res(r) == decode_spec(data@, dim, on, off),
{
    match detect_solution_format(data) {
        SolutionFormat::OnlySpace => Err(FormatError::Empty),
        SolutionFormat::ZeroOneVec => extract_solution_01(data, dim, on, off),
        SolutionFormat::IndexList => extract_solution_numb(data, dim, on, off),
        SolutionFormat::XVarList => extract_solution_text(data, dim, on, off),
    }
}

/// Decode to a boolean selection vector: `true` exactly where the canonical
/// entry is the `on` value `1`.
pub fn extract_selection(data: &[u8], dim: usize) -> (r: Result<Vec<bool>, FormatError>)
    ensures
        r is Ok <==> decode_spec(data@, dim, 1, 0) is Ok,
        r is Ok ==> r->Ok_0@ == decode_spec(data@, dim, 1, 0)->Ok_0.map_values(|x: i32| x == 1),
        r is Err ==> r->Err_0 == decode_spec(data@, dim, 1, 0)->Err_0,
{
    let ints = match extract_solution(data, dim, 1, 0) {
        Ok(v) => v,
        Err(e) => {
            return Err(e);
        },
    };
    let mut sel: Vec<bool> = Vec::new();
    let mut i: usize = 0;
    while i < ints.len()
        invariant
            i <= ints.len(),
            ints@ == decode_spec(data@, dim, 1, 0)->Ok_0,
            sel@ == ints@.take(i as int).map_values(|x: i32| x == 1),
        decreases ints.len() - i,
    {
        sel.push(ints[i] == 1);
        proof {
            assert(ints@.take(i + 1).drop_last() =~= ints@.take(i as int));
            assert(sel@ =~= ints@.take(i + 1).map_values(|x: i32| x == 1));
        }
        i = i + 1;
    }
    proof {
        assert(ints@.take(i as int) =~= ints@);
    }
    Ok(sel)
}

// ---------------------------------------------------------------------------
// Facts the checkers rely on
// ---------------------------------------------------------------------------

proof fn lemma_numb_from_len(data: Seq<u8>, pos: int, st: NumbState, dim: usize, on: i32)
    requires
        st.sol.len() == dim,
        st.index <= dim,
    ensures
        numb_from(data, pos, st, dim, on) is Ok ==> numb_from(data, pos, st, dim, on)->Ok_0.len()
            == dim,
    decreases data.len() - pos,
{
    if 0 <= pos < data.len() {
        match numb_step(st, data[pos], dim, on) {
            Ok(st2) => {
                lemma_numb_from_len(data, pos + 1, st2, dim, on);
            },
            Err(_) => {},
        }
    }
}

proof fn lemma_text_from_len(data: Seq<u8>, pos: int, st: TextState, dim: usize, on: i32, off: i32)
    requires
        st.sol.len() == dim,
        (st.field == 3 || st.field == 4) ==> st.index < dim,
    ensures
        text_from(data, pos, st, dim, on, off) is Ok ==> text_from(
            data,
            pos,
            st,
            dim,
            on,
            off,
        )->Ok_0.len() == dim,
    decreases data.len() - pos,
{
    if 0 <= pos < data.len() {
        match text_step(st, data[pos], dim, on, off) {
            Ok(st2) => {
                lemma_text_from_len(data, pos + 1, st2, dim, on, off);
            },
            Err(_) => {},
        }
    }
}

/// A successful decode returns one entry per decision variable.
pub proof fn lemma_decode_len(data: Seq<u8>, dim: usize, on: i32, off: i32)
    ensures
        decode_spec(data, dim, on, off) is Ok ==> decode_spec(data, dim, on, off)->Ok_0.len()
            == dim,
{
    match sniff(data) {
        SolutionFormat::OnlySpace => {},
        SolutionFormat::ZeroOneVec => {},
        SolutionFormat::IndexList => {
            lemma_numb_from_len(
                data,
                0,
                NumbState { sol: Seq::new(dim as nat, |i| off), index: 0, lineno: 1 },
                dim,
                on,
            );
        },
        SolutionFormat::XVarList => {
            lemma_text_from_len(
                data,
                0,
                TextState { sol: Seq::new(dim as nat, |i| off), field: 0, index: 0, lineno: 1 },
                dim,
                on,
                off,
            );
        },
    }
}

pub open spec fn all_on_off(s: Seq<i32>, on: i32, off: i32) -> bool {
    forall|i: int| 0 <= i < s.len() ==> (#[trigger] s[i]) == on || s[i] == off
}

proof fn lemma_numb_from_range(data: Seq<u8>, pos: int, st: NumbState, dim: usize, on: i32, off: i32)
    requires
        all_on_off(st.sol, on, off),
        st.sol.len() == dim,
        st.index <= dim,
    ensures
        numb_from(data, pos, st, dim, on) is Ok ==> all_on_off(
            numb_from(data, pos, st, dim, on)->Ok_0,
            on,
            off,
        ),
    decreases data.len() - pos,
{
    if 0 <= pos < data.len() {
        match numb_step(st, data[pos], dim, on) {
            Ok(st2) => {
                assert(all_on_off(st2.sol, on, off)) by {
                    assert forall|i: int|
                        0 <= i < st2.sol.len() implies (#[trigger] st2.sol[i]) == on || st2.sol[i]
                        == off by {
                        if st2.sol[i] != st.sol[i] {
                        }
                    }
                }
                lemma_numb_from_range(data, pos + 1, st2, dim, on, off);
            },
            Err(_) => {},
        }
    }
}

proof fn lemma_text_from_range(
    data: Seq<u8>,
    pos: int,
    st: TextState,
    dim: usize,
    on: i32,
    off: i32,
)
    requires
        all_on_off(st.sol, on, off),
        st.sol.len() == dim,
        (st.field == 3 || st.field == 4) ==> st.index < dim,
    ensures
        text_from(data, pos, st, dim, on, off) is Ok ==> all_on_off(
            text_from(data, pos, st, dim, on, off)->Ok_0,
            on,
            off,
        ),
    decreases data.len() - pos,
{
    if 0 <= pos < data.len() {
        match text_step(st, data[pos], dim, on, off) {
            Ok(st2) => {
                assert(all_on_off(st2.sol, on, off)) by {
                    assert forall|i: int|
                        0 <= i < st2.sol.len() implies (#[trigger] st2.sol[i]) == on || st2.sol[i]
                        == off by {
                        if st2.sol[i] != st.sol[i] {
                        }
                    }
                }
                lemma_text_from_range(data, pos + 1, st2, dim, on, off);
            },
            Err(_) => {},
        }
    }
}

/// Every entry of a decoded vector is the `on` or the `off` value.
pub proof fn lemma_decode_range(data: Seq<u8>, dim: usize, on: i32, off: i32)
    ensures
        decode_spec(data, dim, on, off) is Ok ==> all_on_off(
            decode_spec(data, dim, on, off)->Ok_0,
            on,
            off,
        ),
{
    match sniff(data) {
        SolutionFormat::OnlySpace => {},
        SolutionFormat::ZeroOneVec => {
            if decode_01_spec(data, dim, on, off) is Ok {
                let v = zov_values(data, on, off);
                assert forall|i: int| 0 <= i < v.len() implies (#[trigger] v[i]) == on || v[i]
                    == off by {
                    assert(v[i] == if zov_digits(data)[i] == 49 {
                        on
                    } else {
                        off
                    });
                }
            }
        },
        SolutionFormat::IndexList => {
            lemma_numb_from_range(
                data,
                0,
                NumbState { sol: Seq::new(dim as nat, |i| off), index: 0, lineno: 1 },
                dim,
                on,
                off,
            );
        },
        SolutionFormat::XVarList => {
            lemma_text_from_range(
                data,
                0,
                TextState { sol: Seq::new(dim as nat, |i| off), field: 0, index: 0, lineno: 1 },
                dim,
                on,
                off,
            );
        },
    }
}

// ---------------------------------------------------------------------------
// The dense rendering and its round trip
// ---------------------------------------------------------------------------

/// The dense 0/1 rendering of a canonical vector: one digit byte per entry,
/// `1` exactly where the entry is the `on` value.
pub open spec fn render_01_spec(v: Seq<i32>, on: i32) -> Seq<u8> {
    v.map_values(
        |x: i32|
            if x == on {
                49u8
            } else {
                48u8
            },
    )
}

/// Render a canonical vector in the dense 0/1 format.
pub fn render_01(v: &Vec<i32>, on: i32) -> (r: Vec<u8>)
    ensures
        r@ == render_01_spec(v@, on),
{
    let mut out: Vec<u8> = Vec::new();
    let mut i: usize = 0;
    proof {
        assert(out@ =~= render_01_spec(v@.take(0), on));
    }
    while i < v.len()
        invariant
            i <= v@.len(),
            out@ == render_01_spec(v@.take(i as int), on),
        decreases v@.len() - i,
    {
        out.push(if v[i] == on {
            49
        } else {
            48
        });
        proof {
            assert(out@ =~= render_01_spec(v@.take(i + 1), on));
        }
        i = i + 1;
    }
    proof {
        assert(v@.take(v@.len() as int) =~= v@);
    }
    out
}

proof fn lemma_sniff_zov_digits(data: Seq<u8>)
    requires
        forall|i: int| 0 <= i < data.len() ==> (#[trigger] data[i]) == 48 || data[i] == 49,
    ensures
        sniff_from(data, SolutionFormat::ZeroOneVec) == SolutionFormat::ZeroOneVec,
    decreases data.len(),
{
    if data.len() > 0 {
        assert forall|i: int|
            0 <= i < data.skip(1).len() implies (#[trigger] data.skip(1)[i]) == 48 || data.skip(
            1,
        )[i] == 49 by {
            assert(data.skip(1)[i] == data[i + 1]);
        }
        lemma_sniff_zov_digits(data.skip(1));
    }
}

proof fn lemma_zov_digits_all(data: Seq<u8>)
    requires
        forall|i: int| 0 <= i < data.len() ==> (#[trigger] data[i]) == 48 || data[i] == 49,
    ensures
        zov_digits(data) == data,
    decreases data.len(),
{
    reveal(Seq::filter);
    if data.len() > 0 {
        assert forall|i: int|
            0 <= i < data.drop_last().len() implies (#[trigger] data.drop_last()[i]) == 48
            || data.drop_last()[i] == 49 by {
            assert(data.drop_last()[i] == data[i]);
        }
        lemma_zov_digits_all(data.drop_last());
        assert(data[data.len() - 1] == 48 || data[data.len() - 1] == 49);
        assert(zov_digits(data) =~= data);
    } else {
        assert(zov_digits(data) =~= data);
    }
}

/// Decoder round trip: rendering any nonempty canonical vector in the dense
/// 0/1 format and decoding it back at its own length yields the vector
/// exactly.
pub proof fn lemma_decoder_round_trip(v: Seq<i32>, on: i32, off: i32)
    requires
        v.len() > 0,
        v.len() <= usize::MAX,
        all_on_off(v, on, off),
    ensures
        decode_spec(render_01_spec(v, on), v.len() as usize, on, off) == Ok::<Seq<i32>, FormatError>(
            v,
        ),
{
    let data = render_01_spec(v, on);
    assert(data.len() == v.len());
    assert forall|i: int| 0 <= i < data.len() implies (#[trigger] data[i]) == 48 || data[i]
        == 49 by {
        assert(data[i] == if v[i] == on {
            49u8
        } else {
            48u8
        });
    }
    // the classifier settles on the dense format
    assert(sniff_step(SolutionFormat::OnlySpace, data[0]) == SolutionFormat::ZeroOneVec);
    assert forall|i: int|
        0 <= i < data.skip(1).len() implies (#[trigger] data.skip(1)[i]) == 48 || data.skip(1)[i]
        == 49 by {
        assert(data.skip(1)[i] == data[i + 1]);
    }
    lemma_sniff_zov_digits(data.skip(1));
    assert(sniff(data) == SolutionFormat::ZeroOneVec);
    // the dense parser accepts every byte and returns the entries
    lemma_first_zov_bad(data);
    if first_zov_bad(data) < data.len() {
        assert(zov_allowed(data[first_zov_bad(data) as int]));
    }
    lemma_zov_digits_all(data);
    assert(zov_values(data, on, off) =~= v) by {
        assert forall|i: int| 0 <= i < v.len() implies zov_values(data, on, off)[i] == v[i] by {
            assert(data[i] == if v[i] == on {
                49u8
            } else {
                48u8
            });
            assert(v[i] == on || v[i] == off);
        }
    }
}

// ---------------------------------------------------------------------------
// The index-list rendering and its equivalence with the dense one
// ---------------------------------------------------------------------------

/// The index-list scan with its full state kept, for reasoning about texts
/// assembled from pieces.
pub open spec fn numb_run(data: Seq<u8>, pos: int, st: NumbState, dim: usize, on: i32) -> Result<
    NumbState,
    FormatError,
>
    decreases data.len() - pos,
{
    if pos < 0 || pos >= data.len() {
        Ok(st)
    } else {
        match numb_step(st, data[pos], dim, on) {
            Ok(st2) => numb_run(data, pos + 1, st2, dim, on),
            Err(e) => Err(e),
        }
    }
}

proof fn lemma_numb_from_is_run(data: Seq<u8>, pos: int, st: NumbState, dim: usize, on: i32)
    ensures
        numb_from(data, pos, st, dim, on) == (match numb_run(data, pos, st, dim, on) {
            Ok(st2) => Ok::<Seq<i32>, FormatError>(st2.sol),
            Err(e) => Err(e),
        }),
    decreases data.len() - pos,
{
    if 0 <= pos < data.len() {
        match numb_step(st, data[pos], dim, on) {
            Ok(st2) => {
                lemma_numb_from_is_run(data, pos + 1, st2, dim, on);
            },
            Err(_) => {},
        }
    }
}

proof fn lemma_numb_run_concat(x: Seq<u8>, y: Seq<u8>, st: NumbState, dim: usize, on: i32)
    ensures
        numb_run(x + y, 0, st, dim, on) == (match numb_run(x, 0, st, dim, on) {
            Ok(st2) => numb_run(y, 0, st2, dim, on),
            Err(e) => Err(e),
        }),
    decreases x.len(),
{
    if x.len() == 0 {
        assert(x + y =~= y);
    } else {
        assert((x + y)[0] == x[0]);
        match numb_step(st, x[0], dim, on) {
            Ok(st2) => {
                lemma_numb_run_concat(x.skip(1), y, st2, dim, on);
                assert(x.skip(1) + y =~= (x + y).skip(1));
                lemma_numb_run_shift(x + y, st, dim, on);
                lemma_numb_run_shift(x, st, dim, on);
            },
            Err(_) => {},
        }
    }
}

/// Scanning from position 1 equals scanning the tail from position 0.
proof fn lemma_numb_run_shift(data: Seq<u8>, st: NumbState, dim: usize, on: i32)
    requires
        data.len() >= 1,
    ensures
        numb_run(data, 0, st, dim, on) == (match numb_step(st, data[0], dim, on) {
            Ok(st2) => numb_run(data.skip(1), 0, st2, dim, on),
            Err(e) => Err(e),
        }),
{
    match numb_step(st, data[0], dim, on) {
        Ok(st2) => {
            lemma_numb_run_offset(data, 1, st2, dim, on);
        },
        Err(_) => {},
    }
}

proof fn lemma_numb_run_offset(data: Seq<u8>, pos: int, st: NumbState, dim: usize, on: i32)
    requires
        1 <= pos <= data.len(),
    ensures
        numb_run(data, pos, st, dim, on) == numb_run(data.skip(1), pos - 1, st, dim, on),
    decreases data.len() - pos,
{
    if pos < data.len() {
        assert(data.skip(1)[pos - 1] == data[pos]);
        match numb_step(st, data[pos], dim, on) {
            Ok(st2) => {
                lemma_numb_run_offset(data, pos + 1, st2, dim, on);
            },
            Err(_) => {},
        }
    }
}

/// The decimal digits of a number, most significant first (none for zero).
pub open spec fn dec_digits(m: int) -> Seq<u8>
    decreases m,
{
    if m <= 0 {
        seq![]
    } else {
        dec_digits(m / 10).push((48 + m % 10) as u8)
    }
}

proof fn lemma_dec_digits_are_digits(m: int)
    ensures
        forall|i: int| 0 <= i < dec_digits(m).len() ==> is_digit(#[trigger] dec_digits(m)[i]),
        m >= 1 ==> dec_digits(m).len() >= 1,
    decreases m,
{
    if m > 0 {
        lemma_dec_digits_are_digits(m / 10);
        assert forall|i: int|
            0 <= i < dec_digits(m).len() implies is_digit(#[trigger] dec_digits(m)[i]) by {
            if i < dec_digits(m / 10).len() {
                assert(dec_digits(m)[i] == dec_digits(m / 10)[i]);
            }
        }
    }
}

/// Scanning the decimal digits of `m` accumulates exactly `m`.
proof fn lemma_numb_run_digits(m: int, sol: Seq<i32>, lineno: usize, dim: usize, on: i32)
    requires
        0 <= m <= dim,
    ensures
        numb_run(
            dec_digits(m),
            0,
            NumbState { sol, index: 0, lineno },
            dim,
            on,
        ) == Ok::<NumbState, FormatError>(NumbState { sol, index: m as u64, lineno }),
    decreases m,
{
    if m <= 0 {
    } else {
        lemma_numb_run_digits(m / 10, sol, lineno, dim, on);
        let d = (48 + m % 10) as u8;
        lemma_numb_run_concat(
            dec_digits(m / 10),
            seq![d],
            NumbState { sol, index: 0, lineno },
            dim,
            on,
        );
        assert(dec_digits(m / 10) + seq![d] =~= dec_digits(m));
        let st2 = NumbState { sol, index: (m / 10) as u64, lineno };
        assert(is_digit(d));
        assert(!is_space(d) && !is_punct(d));
        assert(sat_acc(st2.index, d) == m) by {
            assert((m / 10) * 10 + m % 10 == m);
        }
        assert(numb_step(st2, d, dim, on) == Ok::<NumbState, FormatError>(
            NumbState { sol, index: m as u64, lineno },
        ));
        assert(numb_run(seq![d], 1, NumbState { sol, index: m as u64, lineno }, dim, on)
            == Ok::<NumbState, FormatError>(NumbState { sol, index: m as u64, lineno }));
        assert(numb_run(seq![d], 0, st2, dim, on) == Ok::<NumbState, FormatError>(
            NumbState { sol, index: m as u64, lineno },
        ));
    }
}

/// The index-list rendering of a canonical vector: each selected 1-based
/// index in decimal, each followed by one blank.
pub open spec fn render_numb_spec(v: Seq<i32>, on: i32, upto: int) -> Seq<u8>
    decreases upto,
{
    if upto <= 0 {
        seq![]
    } else {
        render_numb_spec(v, on, upto - 1) + (if v[upto - 1] == on {
            dec_digits(upto) + seq![32u8]
        } else {
            seq![]
        })
    }
}

/// Render a canonical vector in the index-list format.
pub fn render_numb(v: &Vec<i32>, on: i32) -> (r: Vec<u8>)
    ensures
        r@ == render_numb_spec(v@, on, v@.len() as int),
{
    let mut out: Vec<u8> = Vec::new();
    let mut i: usize = 0;
    proof {
        assert(out@ =~= render_numb_spec(v@, on, 0));
    }
    while i < v.len()
        invariant
            i <= v@.len(),
            out@ == render_numb_spec(v@, on, i as int),
        decreases v@.len() - i,
    {
        if v[i] == on {
            // the 1-based index in decimal, least significant digit first,
            // then reversed into place
            let mut m: usize = i + 1;
            let mut digits: Vec<u8> = Vec::new();
            while m > 0
                invariant
                    dec_digits((i + 1) as int) =~= dec_digits(m as int) + digits@.reverse(),
                decreases m,
            {
                let ghost m0 = m as int;
                let ghost ds0 = digits@;
                digits.push(48 + (m % 10) as u8);
                m = m / 10;
                proof {
                    assert(digits@.reverse() =~= seq![(48 + m0 % 10) as u8] + ds0.reverse());
                    assert(dec_digits(m0) =~= dec_digits(m0 / 10) + seq![(48 + m0 % 10) as u8]);
                    assert(dec_digits(m as int) + digits@.reverse() =~= (dec_digits(m0 / 10)
                        + seq![(48 + m0 % 10) as u8]) + ds0.reverse());
                    assert(dec_digits((i + 1) as int) =~= dec_digits(m as int) + digits@.reverse());
                }
            }
            let mut k: usize = digits.len();
            proof {
                assert(dec_digits((i + 1) as int) =~= digits@.reverse());
                assert(digits@.reverse().len() == digits@.len());
            }
            let ghost out0 = out@;
            while k > 0
                invariant
                    k <= digits@.len(),
                    out@ =~= out0 + digits@.reverse().take(digits@.len() - k),
                decreases k,
            {
                k = k - 1;
                out.push(digits[k]);
                proof {
                    assert(digits@.reverse()[digits@.len() - k - 1] == digits@[k as int]);
                    assert(out@ =~= out0 + digits@.reverse().take(digits@.len() - k));
                }
            }
            out.push(32);
            proof {
                assert(digits@.reverse().take(digits@.len() as int) =~= digits@.reverse());
                assert(out@ =~= render_numb_spec(v@, on, i as int) + (dec_digits((i + 1) as int)
                    + seq![32u8]));
                assert(out@ =~= render_numb_spec(v@, on, i + 1));
            }
        } else {
            proof {
                assert(render_numb_spec(v@, on, i + 1) =~= render_numb_spec(v@, on, i as int)
                    + Seq::<u8>::empty());
                assert(out@ =~= render_numb_spec(v@, on, i + 1));
            }
        }
        i = i + 1;
    }
    out
}

/// Scanning one selected index and its separator sets one entry.
proof fn lemma_numb_run_select(
    m: int,
    sol: Seq<i32>,
    lineno: usize,
    dim: usize,
    on: i32,
)
    requires
        1 <= m <= dim,
        sol.len() == dim,
    ensures
        numb_run(
            dec_digits(m) + seq![32u8],
            0,
            NumbState { sol, index: 0, lineno },
            dim,
            on,
        ) == Ok::<NumbState, FormatError>(
            NumbState { sol: sol.update(m - 1, on), index: 0, lineno },
        ),
{
    lemma_numb_run_digits(m, sol, lineno, dim, on);
    lemma_numb_run_concat(
        dec_digits(m),
        seq![32u8],
        NumbState { sol, index: 0, lineno },
        dim,
        on,
    );
    let st2 = NumbState { sol, index: m as u64, lineno };
    assert(is_space(32) && !is_digit(32) && 32u8 != 10u8);
    assert(numb_step(st2, 32, dim, on) == Ok::<NumbState, FormatError>(
        NumbState { sol: sol.update(m - 1, on), index: 0, lineno },
    ));
    assert(numb_run(
        seq![32u8],
        1,
        NumbState { sol: sol.update(m - 1, on), index: 0, lineno },
        dim,
        on,
    ) == Ok::<NumbState, FormatError>(
        NumbState { sol: sol.update(m - 1, on), index: 0, lineno },
    ));
    assert(numb_run(seq![32u8], 0, st2, dim, on) == Ok::<NumbState, FormatError>(
        NumbState { sol: sol.update(m - 1, on), index: 0, lineno },
    ));
}

/// The selected entries set to `on`, one index at a time.
pub open spec fn apply_sel(sol: Seq<i32>, v: Seq<i32>, on: i32, upto: int) -> Seq<i32>
    decreases upto,
{
    if upto <= 0 {
        sol
    } else {
        let p = apply_sel(sol, v, on, upto - 1);
        if v[upto - 1] == on {
            p.update(upto - 1, on)
        } else {
            p
        }
    }
}

proof fn lemma_apply_sel_len(sol: Seq<i32>, v: Seq<i32>, on: i32, upto: int)
    requires
        upto <= sol.len(),
    ensures
        apply_sel(sol, v, on, upto).len() == sol.len(),
    decreases upto,
{
    if upto > 0 {
        lemma_apply_sel_len(sol, v, on, upto - 1);
    }
}

/// Scanning the whole index-list rendering applies every selected index.
proof fn lemma_numb_run_render(
    v: Seq<i32>,
    sol: Seq<i32>,
    on: i32,
    dim: usize,
    upto: int,
)
    requires
        v.len() == dim,
        sol.len() == dim,
        0 <= upto <= dim,
    ensures
        numb_run(
            render_numb_spec(v, on, upto),
            0,
            NumbState { sol, index: 0, lineno: 1 },
            dim,
            on,
        ) == Ok::<NumbState, FormatError>(
            NumbState { sol: apply_sel(sol, v, on, upto), index: 0, lineno: 1 },
        ),
    decreases upto,
{
    if upto <= 0 {
    } else {
        lemma_numb_run_render(v, sol, on, dim, upto - 1);
        lemma_apply_sel_len(sol, v, on, upto - 1);
        let pre = render_numb_spec(v, on, upto - 1);
        let p = apply_sel(sol, v, on, upto - 1);
        if v[upto - 1] == on {
            let piece = dec_digits(upto) + seq![32u8];
            lemma_numb_run_concat(pre, piece, NumbState { sol, index: 0, lineno: 1 }, dim, on);
            lemma_numb_run_select(upto, p, 1, dim, on);
        } else {
            assert(render_numb_spec(v, on, upto) =~= pre);
        }
    }
}

proof fn lemma_apply_sel_index(sol: Seq<i32>, v: Seq<i32>, on: i32, upto: int, i: int)
    requires
        0 <= i < sol.len(),
        v.len() == sol.len(),
        upto <= sol.len(),
    ensures
        apply_sel(sol, v, on, upto)[i] == if 0 <= i < upto && v[i] == on {
            on
        } else {
            sol[i]
        },
    decreases upto,
{
    if upto > 0 {
        lemma_apply_sel_index(sol, v, on, upto - 1, i);
        lemma_apply_sel_len(sol, v, on, upto - 1);
    }
}

proof fn lemma_render_numb_bytes(v: Seq<i32>, on: i32, upto: int)
    ensures
        forall|j: int|
            0 <= j < render_numb_spec(v, on, upto).len() ==> (is_digit(
                #[trigger] render_numb_spec(v, on, upto)[j],
            ) || render_numb_spec(v, on, upto)[j] == 32),
    decreases upto,
{
    if upto > 0 {
        lemma_render_numb_bytes(v, on, upto - 1);
        lemma_dec_digits_are_digits(upto);
        let pre = render_numb_spec(v, on, upto - 1);
        assert forall|j: int|
            0 <= j < render_numb_spec(v, on, upto).len() implies (is_digit(
            #[trigger] render_numb_spec(v, on, upto)[j],
        ) || render_numb_spec(v, on, upto)[j] == 32) by {
            if j < pre.len() {
                assert(render_numb_spec(v, on, upto)[j] == pre[j]);
            } else if v[upto - 1] == on {
                let piece = dec_digits(upto) + seq![32u8];
                assert(render_numb_spec(v, on, upto)[j] == piece[j - pre.len()]);
                if j - pre.len() < dec_digits(upto).len() {
                    assert(piece[j - pre.len()] == dec_digits(upto)[j - pre.len()]);
                }
            }
        }
    }
}

proof fn lemma_sniff_stays_indexlist(data: Seq<u8>)
    requires
        forall|j: int| 0 <= j < data.len() ==> (is_digit(#[trigger] data[j]) || data[j] == 32),
    ensures
        sniff_from(data, SolutionFormat::IndexList) == SolutionFormat::IndexList,
    decreases data.len(),
{
    if data.len() > 0 {
        assert forall|j: int|
            0 <= j < data.skip(1).len() implies (is_digit(#[trigger] data.skip(1)[j]) || data.skip(
            1,
        )[j] == 32) by {
            assert(data.skip(1)[j] == data[j + 1]);
        }
        lemma_sniff_stays_indexlist(data.skip(1));
    }
}

/// A text of digits and blanks with some digit above `1` settles on the
/// index-list format, whatever of the first three states the classifier is
/// in when it reaches the text.
proof fn lemma_sniff_digits_reach_indexlist(data: Seq<u8>, st: SolutionFormat)
    requires
        forall|j: int| 0 <= j < data.len() ==> (is_digit(#[trigger] data[j]) || data[j] == 32),
        exists|j: int| 0 <= j < data.len() && 50 <= #[trigger] data[j] <= 57,
        st == SolutionFormat::OnlySpace || st == SolutionFormat::ZeroOneVec || st
            == SolutionFormat::IndexList,
    ensures
        sniff_from(data, st) == SolutionFormat::IndexList,
    decreases data.len(),
{
    let j0 = choose|j: int| 0 <= j < data.len() && 50 <= #[trigger] data[j] <= 57;
    assert forall|j: int|
        0 <= j < data.skip(1).len() implies (is_digit(#[trigger] data.skip(1)[j]) || data.skip(
        1,
    )[j] == 32) by {
        assert(data.skip(1)[j] == data[j + 1]);
    }
    if 50 <= data[0] <= 57 {
        assert(sniff_step(st, data[0]) == SolutionFormat::IndexList);
        lemma_sniff_stays_indexlist(data.skip(1));
    } else {
        assert(j0 >= 1);
        assert(data.skip(1)[j0 - 1] == data[j0]);
        lemma_sniff_digits_reach_indexlist(data.skip(1), sniff_step(st, data[0]));
    }
}

/// Format equivalence for the index-list rendering: where some selected
/// index carries a decimal digit other than `0` and `1` (so one pass can
/// tell the text from a dense vector), the rendered index list decodes to
/// the vector itself — the same canonical vector the dense rendering
/// decodes to.
pub proof fn lemma_index_list_equivalence(v: Seq<i32>, on: i32, off: i32)
    requires
        1 <= v.len() <= usize::MAX,
        all_on_off(v, on, off),
        exists|j: int|
            0 <= j < render_numb_spec(v, on, v.len() as int).len() && 50 <= #[trigger] render_numb_spec(
                v,
                on,
                v.len() as int,
            )[j] <= 57,
    ensures
        decode_spec(render_numb_spec(v, on, v.len() as int), v.len() as usize, on, off) == Ok::<
            Seq<i32>,
            FormatError,
        >(v),
        decode_spec(render_numb_spec(v, on, v.len() as int), v.len() as usize, on, off)
            == decode_spec(render_01_spec(v, on), v.len() as usize, on, off),
{
    let dim = v.len() as usize;
    let data = render_numb_spec(v, on, v.len() as int);
    lemma_render_numb_bytes(v, on, v.len() as int);
    lemma_sniff_digits_reach_indexlist(data, SolutionFormat::OnlySpace);
    assert(sniff(data) == SolutionFormat::IndexList);
    let sol0 = Seq::new(dim as nat, |i: int| off);
    lemma_numb_from_is_run(data, 0, NumbState { sol: sol0, index: 0, lineno: 1 }, dim, on);
    lemma_numb_run_render(v, sol0, on, dim, v.len() as int);
    assert(apply_sel(sol0, v, on, v.len() as int) =~= v) by {
        lemma_apply_sel_len(sol0, v, on, v.len() as int);
        assert forall|i: int|
            0 <= i < v.len() implies apply_sel(sol0, v, on, v.len() as int)[i] == v[i] by {
            lemma_apply_sel_index(sol0, v, on, v.len() as int, i);
            assert(v[i] == on || v[i] == off);
        }
    }
    lemma_decoder_round_trip(v, on, off);
}

// ---------------------------------------------------------------------------
// The annotated-lines rendering and its equivalence
// ---------------------------------------------------------------------------

/// The annotated-lines scan with its full state kept.
pub open spec fn text_run(
    data: Seq<u8>,
    pos: int,
    st: TextState,
    dim: usize,
    on: i32,
    off: i32,
) -> Result<TextState, FormatError>
    decreases data.len() - pos,
{
    if pos < 0 || pos >= data.len() {
        Ok(st)
    } else {
        match text_step(st, data[pos], dim, on, off) {
            Ok(st2) => text_run(data, pos + 1, st2, dim, on, off),
            Err(e) => Err(e),
        }
    }
}

proof fn lemma_text_from_is_run(
    data: Seq<u8>,
    pos: int,
    st: TextState,
    dim: usize,
    on: i32,
    off: i32,
)
    ensures
        text_from(data, pos, st, dim, on, off) == (match text_run(data, pos, st, dim, on, off) {
            Ok(st2) => Ok::<Seq<i32>, FormatError>(st2.sol),
            Err(e) => Err(e),
        }),
    decreases data.len() - pos,
{
    if 0 <= pos < data.len() {
        match text_step(st, data[pos], dim, on, off) {
            Ok(st2) => {
                lemma_text_from_is_run(data, pos + 1, st2, dim, on, off);
            },
            Err(_) => {},
        }
    }
}

proof fn lemma_text_run_offset(
    data: Seq<u8>,
    pos: int,
    st: TextState,
    dim: usize,
    on: i32,
    off: i32,
)
    requires
        1 <= pos <= data.len(),
    ensures
        text_run(data, pos, st, dim, on, off) == text_run(data.skip(1), pos - 1, st, dim, on, off),
    decreases data.len() - pos,
{
    if pos < data.len() {
        assert(data.skip(1)[pos - 1] == data[pos]);
        match text_step(st, data[pos], dim, on, off) {
            Ok(st2) => {
                lemma_text_run_offset(data, pos + 1, st2, dim, on, off);
            },
            Err(_) => {},
        }
    }
}

proof fn lemma_text_run_concat(
    x: Seq<u8>,
    y: Seq<u8>,
    st: TextState,
    dim: usize,
    on: i32,
    off: i32,
)
    ensures
        text_run(x + y, 0, st, dim, on, off) == (match text_run(x, 0, st, dim, on, off) {
            Ok(st2) => text_run(y, 0, st2, dim, on, off),
            Err(e) => Err(e),
        }),
    decreases x.len(),
{
    if x.len() == 0 {
        assert(x + y =~= y);
    } else {
        assert((x + y)[0] == x[0]);
        match text_step(st, x[0], dim, on, off) {
            Ok(st2) => {
                lemma_text_run_concat(x.skip(1), y, st2, dim, on, off);
                assert(x.skip(1) + y =~= (x + y).skip(1));
                if (x + y).len() >= 1 {
                    lemma_text_run_offset(x + y, 1, st2, dim, on, off);
                }
                lemma_text_run_offset(x, 1, st2, dim, on, off);
            },
            Err(_) => {},
        }
    }
}

/// Scanning the decimal digits of `m` from the after-marker state ends in
/// the index state holding exactly `m`.
proof fn lemma_text_run_digits(
    m: int,
    sol: Seq<i32>,
    idx0: u64,
    lineno: usize,
    dim: usize,
    on: i32,
    off: i32,
)
    requires
        1 <= m <= dim,
    ensures
        text_run(
            dec_digits(m),
            0,
            TextState { sol, field: 1, index: idx0, lineno },
            dim,
            on,
            off,
        ) == Ok::<TextState, FormatError>(TextState { sol, field: 2, index: m as u64, lineno }),
    decreases m,
{
    let d = (48 + m % 10) as u8;
    assert(is_digit(d) && d != 10);
    if m < 10 {
        assert(dec_digits(m / 10) =~= Seq::<u8>::empty());
        assert(dec_digits(m) =~= seq![d]);
        assert(m % 10 == m);
        let st2 = TextState { sol, field: 2, index: m as u64, lineno };
        assert(text_step(TextState { sol, field: 1, index: idx0, lineno }, d, dim, on, off)
            == Ok::<TextState, FormatError>(st2));
        assert(text_run(seq![d], 1, st2, dim, on, off) == Ok::<TextState, FormatError>(st2));
    } else {
        lemma_text_run_digits(m / 10, sol, idx0, lineno, dim, on, off);
        lemma_text_run_concat(
            dec_digits(m / 10),
            seq![d],
            TextState { sol, field: 1, index: idx0, lineno },
            dim,
            on,
            off,
        );
        assert(dec_digits(m / 10) + seq![d] =~= dec_digits(m));
        let st2 = TextState { sol, field: 2, index: (m / 10) as u64, lineno };
        assert(sat_acc(st2.index, d) == m) by {
            assert((m / 10) * 10 + m % 10 == m);
        }
        let st3 = TextState { sol, field: 2, index: m as u64, lineno };
        assert(text_step(st2, d, dim, on, off) == Ok::<TextState, FormatError>(st3));
        assert(text_run(seq![d], 1, st3, dim, on, off) == Ok::<TextState, FormatError>(st3));
        assert(text_run(seq![d], 0, st2, dim, on, off) == Ok::<TextState, FormatError>(st3));
    }
}

/// The annotated rendering of a canonical vector: one `x#<i> <0|1>` line
/// per entry, in index order.
pub open spec fn render_text_spec(v: Seq<i32>, on: i32, upto: int) -> Seq<u8>
    decreases upto,
{
    if upto <= 0 {
        seq![]
    } else {
        render_text_spec(v, on, upto - 1) + seq![120u8, 35u8] + dec_digits(upto) + seq![
            32u8,
            (if v[upto - 1] == on {
                49u8
            } else {
                48u8
            }),
            10u8,
        ]
    }
}

/// Scanning one rendered line writes the line's value into its entry and
/// returns to the start-of-line state.
proof fn lemma_text_run_line(
    m: int,
    val: u8,
    sol: Seq<i32>,
    lineno: usize,
    dim: usize,
    on: i32,
    off: i32,
)
    requires
        1 <= m <= dim,
        sol.len() == dim,
        val == 48 || val == 49,
    ensures
        text_run(
            seq![120u8, 35u8] + dec_digits(m) + seq![32u8, val, 10u8],
            0,
            TextState { sol, field: 0, index: 0, lineno },
            dim,
            on,
            off,
        ) == Ok::<TextState, FormatError>(
            TextState {
                sol: sol.update(
                    m - 1,
                    if val == 49 {
                        on
                    } else {
                        off
                    },
                ),
                field: 0,
                index: 0,
                lineno: sat_inc(lineno),
            },
        ),
{
    let st0 = TextState { sol, field: 0, index: 0, lineno };
    let st1 = TextState { sol, field: 1, index: 0, lineno };
    assert(text_step(st0, 120, dim, on, off) == Ok::<TextState, FormatError>(st1));
    assert(!is_digit(35) && 35u8 != 10u8);
    assert(text_step(st1, 35, dim, on, off) == Ok::<TextState, FormatError>(st1));
    assert(text_run(seq![120u8, 35u8], 0, st0, dim, on, off) == Ok::<TextState, FormatError>(
        st1,
    )) by {
        assert(seq![120u8, 35u8][0] == 120u8);
        assert(seq![120u8, 35u8][1] == 35u8);
        assert(text_run(seq![120u8, 35u8], 2, st1, dim, on, off) == Ok::<
            TextState,
            FormatError,
        >(st1));
        assert(text_run(seq![120u8, 35u8], 1, st1, dim, on, off) == Ok::<
            TextState,
            FormatError,
        >(st1));
    }
    lemma_text_run_digits(m, sol, 0, lineno, dim, on, off);
    let st2 = TextState { sol, field: 2, index: m as u64, lineno };
    lemma_text_run_concat(seq![120u8, 35u8], dec_digits(m), st0, dim, on, off);
    let st4 = TextState { sol, field: 4, index: (m - 1) as u64, lineno };
    assert(is_space(32) && !is_digit(32) && 32u8 != 10u8);
    assert(text_step(st2, 32, dim, on, off) == Ok::<TextState, FormatError>(st4));
    let written = sol.update(
        m - 1,
        if val == 49 {
            on
        } else {
            off
        },
    );
    let st5 = TextState { sol: written, field: 5, index: (m - 1) as u64, lineno };
    assert(text_step(st4, val, dim, on, off) == Ok::<TextState, FormatError>(st5));
    let st6 = TextState { sol: written, field: 0, index: 0, lineno: sat_inc(lineno) };
    assert(is_space(10));
    assert(text_step(st5, 10, dim, on, off) == Ok::<TextState, FormatError>(st6));
    let tail = seq![32u8, val, 10u8];
    assert(text_run(tail, 0, st2, dim, on, off) == Ok::<TextState, FormatError>(st6)) by {
        assert(tail[0] == 32u8 && tail[1] == val && tail[2] == 10u8);
        assert(text_run(tail, 3, st6, dim, on, off) == Ok::<TextState, FormatError>(st6));
        assert(text_run(tail, 2, st5, dim, on, off) == Ok::<TextState, FormatError>(st6));
        assert(text_run(tail, 1, st4, dim, on, off) == Ok::<TextState, FormatError>(st6));
    }
    lemma_text_run_concat(seq![120u8, 35u8] + dec_digits(m), tail, st0, dim, on, off);
    assert((seq![120u8, 35u8] + dec_digits(m)) + tail =~= seq![120u8, 35u8] + dec_digits(m)
        + seq![32u8, val, 10u8]);
}

/// Applying every line of the rendering writes every entry.
pub open spec fn apply_text(sol: Seq<i32>, v: Seq<i32>, on: i32, off: i32, upto: int) -> Seq<i32>
    decreases upto,
{
    if upto <= 0 {
        sol
    } else {
        apply_text(sol, v, on, off, upto - 1).update(
            upto - 1,
            if v[upto - 1] == on {
                on
            } else {
                off
            },
        )
    }
}

proof fn lemma_apply_text_len(sol: Seq<i32>, v: Seq<i32>, on: i32, off: i32, upto: int)
    requires
        upto <= sol.len(),
    ensures
        apply_text(sol, v, on, off, upto).len() == sol.len(),
    decreases upto,
{
    if upto > 0 {
        lemma_apply_text_len(sol, v, on, off, upto - 1);
    }
}

proof fn lemma_text_run_render(
    v: Seq<i32>,
    sol: Seq<i32>,
    lineno: usize,
    on: i32,
    off: i32,
    dim: usize,
    upto: int,
)
    requires
        v.len() == dim,
        sol.len() == dim,
        0 <= upto <= dim,
    ensures
        exists|l2: usize|
            text_run(
                render_text_spec(v, on, upto),
                0,
                TextState { sol, field: 0, index: 0, lineno },
                dim,
                on,
                off,
            ) == Ok::<TextState, FormatError>(
                TextState {
                    sol: apply_text(sol, v, on, off, upto),
                    field: 0,
                    index: 0,
                    lineno: l2,
                },
            ),
    decreases upto,
{
    let st0 = TextState { sol, field: 0, index: 0, lineno };
    if upto <= 0 {
        assert(text_run(render_text_spec(v, on, upto), 0, st0, dim, on, off) == Ok::<
            TextState,
            FormatError,
        >(TextState { sol: apply_text(sol, v, on, off, upto), field: 0, index: 0, lineno }));
    } else {
        lemma_text_run_render(v, sol, lineno, on, off, dim, upto - 1);
        lemma_apply_text_len(sol, v, on, off, upto - 1);
        let pre = render_text_spec(v, on, upto - 1);
        let p = apply_text(sol, v, on, off, upto - 1);
        let l1 = choose|l2: usize|
            text_run(pre, 0, st0, dim, on, off) == Ok::<TextState, FormatError>(
                TextState { sol: p, field: 0, index: 0, lineno: l2 },
            );
        let val = if v[upto - 1] == on {
            49u8
        } else {
            48u8
        };
        let piece = seq![120u8, 35u8] + dec_digits(upto) + seq![32u8, val, 10u8];
        lemma_text_run_concat(pre, piece, st0, dim, on, off);
        assert(pre + piece =~= render_text_spec(v, on, upto));
        lemma_text_run_line(upto, val, p, l1, dim, on, off);
        assert(p.update(
            upto - 1,
            if val == 49 {
                on
            } else {
                off
            },
        ) == apply_text(sol, v, on, off, upto));
    }
}

proof fn lemma_render_text_starts_x(v: Seq<i32>, on: i32, upto: int)
    ensures
        upto >= 1 ==> render_text_spec(v, on, upto).len() >= 1 && render_text_spec(v, on, upto)[0]
            == 120u8,
    decreases upto,
{
    if upto == 1 {
        assert(render_text_spec(v, on, 1)[0] == (seq![120u8, 35u8] + dec_digits(1) + seq![
            32u8,
            (if v[0] == on {
                49u8
            } else {
                48u8
            }),
            10u8,
        ])[0]);
    } else if upto > 1 {
        lemma_render_text_starts_x(v, on, upto - 1);
        assert(render_text_spec(v, on, upto)[0] == render_text_spec(v, on, upto - 1)[0]);
    }
}

/// Format equivalence for the annotated rendering: the `x#<i> <0|1>` lines
/// of any nonempty canonical vector decode to the vector itself — the same
/// canonical vector the dense rendering decodes to.
pub proof fn lemma_annotated_equivalence(v: Seq<i32>, on: i32, off: i32)
    requires
        1 <= v.len() <= usize::MAX,
        all_on_off(v, on, off),
    ensures
        decode_spec(render_text_spec(v, on, v.len() as int), v.len() as usize, on, off) == Ok::<
            Seq<i32>,
            FormatError,
        >(v),
        decode_spec(render_text_spec(v, on, v.len() as int), v.len() as usize, on, off)
            == decode_spec(render_01_spec(v, on), v.len() as usize, on, off),
{
    let dim = v.len() as usize;
    let data = render_text_spec(v, on, v.len() as int);
    lemma_render_text_starts_x(v, on, v.len() as int);
    // the marker byte promotes the classifier to the terminal state at once
    assert(sniff_step(SolutionFormat::OnlySpace, 120) == SolutionFormat::XVarList);
    lemma_sniff_absorbing(data.skip(1));
    assert(sniff(data) == SolutionFormat::XVarList);
    let sol0 = Seq::new(dim as nat, |i: int| off);
    lemma_text_from_is_run(
        data,
        0,
        TextState { sol: sol0, field: 0, index: 0, lineno: 1 },
        dim,
        on,
        off,
    );
    lemma_text_run_render(v, sol0, 1, on, off, dim, v.len() as int);
    assert(apply_text(sol0, v, on, off, v.len() as int) =~= v) by {
        lemma_apply_text_len(sol0, v, on, off, v.len() as int);
        assert forall|i: int|
            0 <= i < v.len() implies apply_text(sol0, v, on, off, v.len() as int)[i] == v[i] by {
            lemma_apply_text_index(sol0, v, on, off, v.len() as int, i);
            assert(v[i] == on || v[i] == off);
        }
    }
    lemma_decoder_round_trip(v, on, off);
}

proof fn lemma_apply_text_index(
    sol: Seq<i32>,
    v: Seq<i32>,
    on: i32,
    off: i32,
    upto: int,
    i: int,
)
    requires
        0 <= i < sol.len(),
        v.len() == sol.len(),
        upto <= sol.len(),
    ensures
        apply_text(sol, v, on, off, upto)[i] == (if 0 <= i < upto {
            if v[i] == on {
                on
            } else {
                off
            }
        } else {
            sol[i]
        }),
    decreases upto,
{
    if upto > 0 {
        lemma_apply_text_index(sol, v, on, off, upto - 1, i);
        lemma_apply_text_len(sol, v, on, off, upto - 1);
    }
}

} // verus!
