//! Byte-level text utilities shared by the decoder and the loaders:
//! ASCII byte classes, decimal number parsing, and splitting into lines
//! and whitespace-separated tokens.

use vstd::prelude::*;

verus! {

// ---------------------------------------------------------------------------
// Byte classes
// ---------------------------------------------------------------------------

/// ASCII whitespace: space, tab, line feed, form feed, carriage return.
pub open spec fn is_space(c: u8) -> bool {
    c == 32 || c == 9 || c == 10 || c == 12 || c == 13
}

/// ASCII punctuation: the four printable ranges between letters and digits.
pub open spec fn is_punct(c: u8) -> bool {
    (33 <= c && c <= 47) || (58 <= c && c <= 64) || (91 <= c && c <= 96) || (123 <= c && c
        <= 126)
}

/// ASCII decimal digit.
pub open spec fn is_digit(c: u8) -> bool {
    48 <= c && c <= 57
}

pub fn byte_is_space(c: u8) -> (r: bool)
    ensures
        r == is_space(c),
{
    c == 32 || c == 9 || c == 10 || c == 12 || c == 13
}

pub fn byte_is_punct(c: u8) -> (r: bool)
    ensures
        r == is_punct(c),
{
    (33 <= c && c <= 47) || (58 <= c && c <= 64) || (91 <= c && c <= 96) || (123 <= c && c
        <= 126)
}

pub fn byte_is_digit(c: u8) -> (r: bool)
    ensures
        r == is_digit(c),
{
    48 <= c && c <= 57
}

// ---------------------------------------------------------------------------
// Decimal number parsing
// ---------------------------------------------------------------------------

pub open spec fn all_digits(s: Seq<u8>) -> bool {
    forall|i: int| 0 <= i < s.len() ==> is_digit(#[trigger] s[i])
}

/// Value of a digit string read in base 10 (leftmost digit most significant).
pub open spec fn uval(s: Seq<u8>) -> int
    decreases s.len(),
{
    if s.len() == 0 {
        0
    } else {
        uval(s.drop_last()) * 10 + (s.last() - 48)
    }
}

/// An optional leading `+` sign, as `str::parse` for unsigned types takes it.
pub open spec fn strip_plus(s: Seq<u8>) -> Seq<u8> {
    if s.len() > 0 && s[0] == 43 {
        s.skip(1)
    } else {
        s
    }
}

/// What parsing a whole token as an unsigned 64-bit decimal number returns.
pub open spec fn parse_u64_spec(s: Seq<u8>) -> Option<u64> {
    let d = strip_plus(s);
    if d.len() > 0 && all_digits(d) && uval(d) <= u64::MAX {
        Some(uval(d) as u64)
    } else {
        None
    }
}

pub proof fn lemma_uval_take_step(s: Seq<u8>, i: int)
    requires
        0 <= i < s.len(),
    ensures
        uval(s.take(i + 1)) == uval(s.take(i)) * 10 + (s[i] - 48),
{
    assert(s.take(i + 1).drop_last() =~= s.take(i));
    assert(s.take(i + 1).last() == s[i]);
}

pub proof fn lemma_uval_nonneg(s: Seq<u8>)
    requires
        all_digits(s),
    ensures
        uval(s) >= 0,
    decreases s.len(),
{
    if s.len() > 0 {
        assert(all_digits(s.drop_last())) by {
            assert(forall|i: int|
                0 <= i < s.drop_last().len() ==> s.drop_last()[i] == s[i]);
        }
        lemma_uval_nonneg(s.drop_last());
    }
}

/// A digit string's value only grows as more digits are read.
pub proof fn lemma_uval_take_monotone(s: Seq<u8>, i: int)
    requires
        all_digits(s),
        0 <= i <= s.len(),
    ensures
        uval(s.take(i)) <= uval(s),
    decreases s.len() - i,
{
    if i < s.len() {
        lemma_uval_take_step(s, i);
        assert(all_digits(s.take(i))) by {
            assert(forall|j: int| 0 <= j < i ==> s.take(i)[j] == s[j]);
        }
        lemma_uval_nonneg(s.take(i));
        lemma_uval_take_monotone(s, i + 1);
    } else {
        assert(s.take(i) =~= s);
    }
}

/// Parse a whole token as an unsigned decimal number, as `str::parse::<u64>`
/// does for the grammars used here: optional `+`, then one or more digits;
/// `None` on anything else or on overflow.
pub fn parse_u64(s: &[u8]) -> (r: Option<u64>)
    ensures
        r == parse_u64_spec(s@),
{
    let start: usize = if s.len() > 0 && s[0] == 43 {
        1
    } else {
        0
    };
    let ghost d = strip_plus(s@);
    proof {
        assert(d =~= s@.skip(start as int));
    }
    if s.len() == start {
        return None;
    }
    let mut acc: u64 = 0;
    let mut i: usize = start;
    while i < s.len()
        invariant
            start <= i <= s.len(),
            d == strip_plus(s@),
            d == s@.skip(start as int),
            d.len() == s@.len() - start,
            all_digits(d.take(i - start)),
            acc == uval(d.take(i - start)),
        decreases s.len() - i,
    {
        let c = s[i];
        proof {
            assert(d[i - start] == s@[i as int]);
        }
        if !(48 <= c && c <= 57) {
            proof {
                assert(!is_digit(d[i - start]));
                assert(!all_digits(d));
            }
            return None;
        }
        let wide: u128 = (acc as u128) * 10 + ((c - 48) as u128);
        proof {
            lemma_uval_take_step(d, i - start);
            assert(d.take(i - start + 1).len() > 0);
            assert(all_digits(d.take(i - start + 1))) by {
                assert(forall|j: int|
                    0 <= j < i - start + 1 ==> d.take(i - start + 1)[j] == d[j]);
            }
        }
        if wide > u64::MAX as u128 {
            proof {
                assert(uval(d.take(i - start + 1)) > u64::MAX);
                if all_digits(d) {
                    lemma_uval_take_monotone(d, i - start + 1);
                }
            }
            return None;
        }
        acc = wide as u64;
        i = i + 1;
    }
    proof {
        assert(d.take(i - start) =~= d);
    }
    Some(acc)
}

// ---------------------------------------------------------------------------
// Splitting into lines
// ---------------------------------------------------------------------------

/// Index of the first line feed, or the length if there is none.
pub open spec fn first_nl(s: Seq<u8>) -> nat
    decreases s.len(),
{
    if s.len() == 0 {
        0
    } else if s[0] == 10 {
        0
    } else {
        1 + first_nl(s.skip(1))
    }
}

pub proof fn lemma_first_nl(s: Seq<u8>)
    ensures
        first_nl(s) <= s.len(),
        first_nl(s) < s.len() ==> s[first_nl(s) as int] == 10,
        forall|j: int| 0 <= j < first_nl(s) ==> s[j] != 10,
    decreases s.len(),
{
    if s.len() != 0 && s[0] != 10 {
        lemma_first_nl(s.skip(1));
        assert forall|j: int| 0 <= j < first_nl(s) implies s[j] != 10 by {
            if j > 0 {
                assert(s.skip(1)[j - 1] == s[j]);
            }
        }
    }
}

/// A line is handed on without its trailing carriage return, as
/// `BufRead::lines` strips it.
pub open spec fn strip_cr(s: Seq<u8>) -> Seq<u8> {
    if s.len() > 0 && s.last() == 13 {
        s.drop_last()
    } else {
        s
    }
}

/// The lines of a text: split at each line feed; a last line without a
/// trailing line feed still counts, a trailing line feed adds no empty line.
pub open spec fn split_lines_spec(s: Seq<u8>) -> Seq<Seq<u8>>
    decreases s.len(),
{
    if s.len() == 0 {
        seq![]
    } else {
        let i = first_nl(s);
        if i >= s.len() {
            seq![strip_cr(s)]
        } else {
            seq![strip_cr(s.take(i as int))] + split_lines_spec(s.skip(i as int + 1))
        }
    }
}

pub fn split_lines(data: &[u8]) -> (lines: Vec<Vec<u8>>)
    ensures
        lines@.map_values(|l: Vec<u8>| l@) == split_lines_spec(data@),
{
    let mut lines: Vec<Vec<u8>> = Vec::new();
    let mut pos: usize = 0;
    proof {
        assert(data@.skip(0) =~= data@);
        assert(lines@.map_values(|l: Vec<u8>| l@) =~= Seq::<Seq<u8>>::empty());
        assert(Seq::<Seq<u8>>::empty() + split_lines_spec(data@) =~= split_lines_spec(data@));
    }
    while pos < data.len()
        invariant
            pos <= data.len(),
            split_lines_spec(data@) == lines@.map_values(|l: Vec<u8>| l@) + split_lines_spec(
                data@.skip(pos as int),
            ),
        decreases data.len() - pos,
    {
        let ghost rest = data@.skip(pos as int);
        let mut j: usize = pos;
        while j < data.len() && data[j] != 10
            invariant
                pos <= j <= data.len(),
                forall|k: int| pos <= k < j ==> data@[k] != 10,
            decreases data.len() - j,
        {
            j = j + 1;
        }
        proof {
            lemma_first_nl(rest);
            assert forall|k: int| 0 <= k < j - pos implies rest[k] != 10 by {
                assert(rest[k] == data@[pos + k]);
            }
            if j < data.len() {
                assert(rest[j - pos] == data@[j as int]);
            }
            // the scan found exactly the first line feed of the rest
            assert(first_nl(rest) == j - pos) by {
                if first_nl(rest) < j - pos {
                    assert(rest[first_nl(rest) as int] == 10);
                }
                if first_nl(rest) > j - pos {
                    assert(j < data.len());
                }
            }
        }
        // copy the line, stripping a trailing carriage return
        let end: usize = if j > pos && data[j - 1] == 13 {
            j - 1
        } else {
            j
        };
        let mut line: Vec<u8> = Vec::new();
        let mut k: usize = pos;
        while k < end
            invariant
                pos <= k <= end <= data.len(),
                line@ == data@.subrange(pos as int, k as int),
            decreases end - k,
        {
            let b = data[k];
            line.push(b);
            proof {
                assert(line@ =~= data@.subrange(pos as int, k + 1));
            }
            k = k + 1;
        }
        proof {
            assert(line@ =~= strip_cr(rest.take(j - pos))) by {
                assert(rest.take(j - pos) =~= data@.subrange(pos as int, j as int));
                if j > pos && data@[j - 1] == 13 {
                    assert(rest.take(j - pos).last() == 13);
                    assert(strip_cr(rest.take(j - pos)) =~= data@.subrange(
                        pos as int,
                        j - 1,
                    ));
                } else {
                    if rest.take(j - pos).len() > 0 {
                        assert(rest.take(j - pos).last() == data@[j - 1]);
                    }
                }
            }
            if j < data.len() {
                assert(rest.skip(j - pos + 1) =~= data@.skip(j + 1));
                assert(strip_cr(rest.take(first_nl(rest) as int)) == line@);
                assert(split_lines_spec(rest) == seq![line@] + split_lines_spec(
                    data@.skip(j + 1),
                ));
            } else {
                assert(rest.take(j - pos) =~= rest);
                assert(split_lines_spec(rest) == seq![line@]);
                assert(split_lines_spec(data@.skip(data@.len() as int)) =~= Seq::<
                    Seq<u8>,
                >::empty());
            }
        }
        let ghost old_lines = lines@;
        lines.push(line);
        proof {
            assert(lines@.map_values(|l: Vec<u8>| l@) =~= old_lines.map_values(
                |l: Vec<u8>| l@,
            ) + seq![line@]);
        }
        if j < data.len() {
            pos = j + 1;
        } else {
            pos = data.len();
        }
    }
    proof {
        assert(data@.skip(pos as int) =~= Seq::<u8>::empty());
        assert(split_lines_spec(data@) =~= lines@.map_values(|l: Vec<u8>| l@));
    }
    lines
}

// ---------------------------------------------------------------------------
// Splitting a line into whitespace-separated tokens
// ---------------------------------------------------------------------------

/// Index of the first whitespace byte, or the length if there is none.
pub open spec fn first_space(s: Seq<u8>) -> nat
    decreases s.len(),
{
    if s.len() == 0 {
        0
    } else if is_space(s[0]) {
        0
    } else {
        1 + first_space(s.skip(1))
    }
}

pub proof fn lemma_first_space(s: Seq<u8>)
    ensures
        first_space(s) <= s.len(),
        first_space(s) < s.len() ==> is_space(s[first_space(s) as int]),
        forall|j: int| 0 <= j < first_space(s) ==> !is_space(s[j]),
    decreases s.len(),
{
    if s.len() != 0 && !is_space(s[0]) {
        lemma_first_space(s.skip(1));
        assert forall|j: int| 0 <= j < first_space(s) implies !is_space(s[j]) by {
            if j > 0 {
                assert(s.skip(1)[j - 1] == s[j]);
            }
        }
    }
}

/// The maximal runs of non-whitespace bytes, in order.
pub open spec fn tokens_spec(s: Seq<u8>) -> Seq<Seq<u8>>
    decreases s.len(),
{
    if s.len() == 0 {
        seq![]
    } else if is_space(s[0]) {
        tokens_spec(s.skip(1))
    } else {
        let i = first_space(s);
        if i >= s.len() {
            seq![s]
        } else {
            seq![s.take(i as int)] + tokens_spec(s.skip(i as int))
        }
    }
}

/// Every token is a nonempty run of non-whitespace bytes.
pub proof fn lemma_tokens_nonempty(s: Seq<u8>)
    ensures
        forall|t: int|
            0 <= t < tokens_spec(s).len() ==> (#[trigger] tokens_spec(s)[t]).len() > 0
                && !is_space(tokens_spec(s)[t][0]),
    decreases s.len(),
{
    if s.len() == 0 {
    } else if is_space(s[0]) {
        lemma_tokens_nonempty(s.skip(1));
        assert(tokens_spec(s) == tokens_spec(s.skip(1)));
        assert forall|t: int|
            0 <= t < tokens_spec(s).len() implies (#[trigger] tokens_spec(s)[t]).len() > 0
            && !is_space(tokens_spec(s)[t][0]) by {
            assert(tokens_spec(s)[t] == tokens_spec(s.skip(1))[t]);
        }
    } else {
        let i = first_space(s);
        lemma_first_space(s);
        if i < s.len() {
            lemma_tokens_nonempty(s.skip(i as int));
            let head = seq![s.take(i as int)];
            let rest = tokens_spec(s.skip(i as int));
            assert(tokens_spec(s) == head + rest);
            assert forall|t: int|
                0 <= t < tokens_spec(s).len() implies (#[trigger] tokens_spec(s)[t]).len() > 0
                && !is_space(tokens_spec(s)[t][0]) by {
                if t == 0 {
                    assert(tokens_spec(s)[0] == s.take(i as int));
                    assert(s.take(i as int)[0] == s[0]);
                } else {
                    assert(tokens_spec(s)[t] == rest[t - 1]);
                }
            }
        } else {
            assert(tokens_spec(s) == seq![s]);
            assert(tokens_spec(s)[0] == s);
        }
    }
}

pub fn tokens(line: &[u8]) -> (toks: Vec<Vec<u8>>)
    ensures
        toks@.map_values(|t: Vec<u8>| t@) == tokens_spec(line@),
{
    let mut toks: Vec<Vec<u8>> = Vec::new();
    let mut pos: usize = 0;
    proof {
        assert(line@.skip(0) =~= line@);
        assert(toks@.map_values(|t: Vec<u8>| t@) =~= Seq::<Seq<u8>>::empty());
        assert(Seq::<Seq<u8>>::empty() + tokens_spec(line@) =~= tokens_spec(line@));
    }
    while pos < line.len()
        invariant
            pos <= line.len(),
            tokens_spec(line@) == toks@.map_values(|t: Vec<u8>| t@) + tokens_spec(
                line@.skip(pos as int),
            ),
        decreases line.len() - pos,
    {
        let ghost rest = line@.skip(pos as int);
        if byte_is_space(line[pos]) {
            proof {
                assert(rest[0] == line@[pos as int]);
                assert(rest.skip(1) =~= line@.skip(pos + 1));
            }
            pos = pos + 1;
        } else {
            let mut j: usize = pos;
            while j < line.len() && !byte_is_space(line[j])
                invariant
                    pos <= j <= line.len(),
                    forall|k: int| pos <= k < j ==> !is_space(line@[k]),
                decreases line.len() - j,
            {
                j = j + 1;
            }
            proof {
                lemma_first_space(rest);
                assert(rest[0] == line@[pos as int]);
                assert forall|k: int| 0 <= k < j - pos implies !is_space(rest[k]) by {
                    assert(rest[k] == line@[pos + k]);
                }
                if j < line.len() {
                    assert(rest[j - pos] == line@[j as int]);
                }
                assert(first_space(rest) == j - pos) by {
                    if first_space(rest) < j - pos {
                        assert(is_space(rest[first_space(rest) as int]));
                    }
                    if first_space(rest) > j - pos {
                        assert(j < line.len());
                    }
                }
            }
            let mut tok: Vec<u8> = Vec::new();
            let mut k: usize = pos;
            while k < j
                invariant
                    pos <= k <= j <= line.len(),
                    tok@ == line@.subrange(pos as int, k as int),
                decreases j - k,
            {
                let b = line[k];
                tok.push(b);
                proof {
                    assert(tok@ =~= line@.subrange(pos as int, k + 1));
                }
                k = k + 1;
            }
            proof {
                if j < line.len() {
                    assert(tok@ =~= rest.take(j - pos));
                    assert(rest.skip(j - pos) =~= line@.skip(j as int));
                    assert(tokens_spec(rest) == seq![tok@] + tokens_spec(
                        line@.skip(j as int),
                    ));
                } else {
                    assert(tok@ =~= rest);
                    assert(tokens_spec(rest) == seq![tok@]);
                    assert(tokens_spec(line@.skip(line@.len() as int)) =~= Seq::<
                        Seq<u8>,
                    >::empty());
                }
            }
            let ghost old_toks = toks@;
            toks.push(tok);
            proof {
                assert(toks@.map_values(|t: Vec<u8>| t@) =~= old_toks.map_values(
                    |t: Vec<u8>| t@,
                ) + seq![tok@]);
            }
            pos = j;
        }
    }
    proof {
        assert(line@.skip(pos as int) =~= Seq::<u8>::empty());
        assert(tokens_spec(line@) =~= toks@.map_values(|t: Vec<u8>| t@));
    }
    toks
}

} // verus!
