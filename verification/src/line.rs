//! Per-line classification: header recognition, ASCII whitespace trimming,
//! and residue validation with first-offender reporting.

use vstd::prelude::*;

use crate::nucleic_acid::{is_nucleic_acid_lut, is_valid_symbol};

verus! {

/// The record-start marker: a line beginning with this byte is a header.
pub open spec fn is_header(l: Seq<u8>) -> bool {
    l.len() > 0 && l[0] == 62u8
}

pub open spec fn is_ascii_whitespace(b: u8) -> bool {
    b == 32u8 || b == 9u8 || b == 10u8 || b == 0x0c || b == 13u8
}

/// The suffix of `l` left after removing leading ASCII whitespace.
pub open spec fn trim_start(l: Seq<u8>) -> Seq<u8>
    decreases l.len(),
{
    if l.len() == 0 {
        l
    } else if is_ascii_whitespace(l[0]) {
        trim_start(l.drop_first())
    } else {
        l
    }
}

/// The prefix of `l` left after removing trailing ASCII whitespace.
pub open spec fn trim_end(l: Seq<u8>) -> Seq<u8>
    decreases l.len(),
{
    if l.len() == 0 {
        l
    } else if is_ascii_whitespace(l[l.len() - 1]) {
        trim_end(l.drop_last())
    } else {
        l
    }
}

/// `l` with leading and trailing ASCII whitespace removed.
pub open spec fn trim(l: Seq<u8>) -> Seq<u8> {
    trim_end(trim_start(l))
}

pub open spec fn all_valid(l: Seq<u8>) -> bool {
    forall|i: int| 0 <= i < l.len() ==> is_valid_symbol(l[i])
}

/// The index of the first byte of `l` that is not a valid residue symbol.
pub open spec fn first_invalid(l: Seq<u8>) -> int
    decreases l.len(),
{
    if l.len() == 0 {
        0
    } else if !is_valid_symbol(l[0]) {
        0
    } else {
        1 + first_invalid(l.drop_first())
    }
}

proof fn lemma_trim_start_at(l: Seq<u8>, lo: int)
    requires
        0 <= lo <= l.len(),
        forall|j: int| 0 <= j < lo ==> is_ascii_whitespace(l[j]),
        lo < l.len() ==> !is_ascii_whitespace(l[lo]),
    ensures
        trim_start(l) == l.subrange(lo, l.len() as int),
    decreases l.len(),
{
    if l.len() == 0 {
        assert(trim_start(l) =~= l.subrange(0, 0));
    } else if lo == 0 {
        assert(trim_start(l) =~= l.subrange(0, l.len() as int));
    } else {
        lemma_trim_start_at(l.drop_first(), lo - 1);
        assert(l.drop_first().subrange(lo - 1, l.drop_first().len() as int) =~= l.subrange(
            lo,
            l.len() as int,
        ));
    }
}

proof fn lemma_trim_end_at(l: Seq<u8>, hi: int)
    requires
        0 <= hi <= l.len(),
        forall|j: int| hi <= j < l.len() ==> is_ascii_whitespace(l[j]),
        hi > 0 ==> !is_ascii_whitespace(l[hi - 1]),
    ensures
        trim_end(l) == l.subrange(0, hi),
    decreases l.len(),
{
    if l.len() == 0 {
        assert(trim_end(l) =~= l.subrange(0, 0));
    } else if hi == l.len() {
        assert(trim_end(l) =~= l.subrange(0, hi));
    } else {
        lemma_trim_end_at(l.drop_last(), hi);
        assert(l.drop_last().subrange(0, hi) =~= l.subrange(0, hi));
    }
}

proof fn lemma_trim_start_len(l: Seq<u8>)
    ensures
        trim_start(l).len() <= l.len(),
    decreases l.len(),
{
    if l.len() > 0 && is_ascii_whitespace(l[0]) {
        lemma_trim_start_len(l.drop_first());
    }
}

proof fn lemma_trim_end_len(l: Seq<u8>)
    ensures
        trim_end(l).len() <= l.len(),
    decreases l.len(),
{
    if l.len() > 0 && is_ascii_whitespace(l[l.len() - 1]) {
        lemma_trim_end_len(l.drop_last());
    }
}

/// Trimming never lengthens a line.
pub proof fn lemma_trim_len(l: Seq<u8>)
    ensures
        trim(l).len() <= l.len(),
{
    lemma_trim_start_len(l);
    lemma_trim_end_len(trim_start(l));
}

fn is_whitespace_byte(b: u8) -> (r: bool)
    ensures
        r == is_ascii_whitespace(b),
{
    b == 32u8 || b == 9u8 || b == 10u8 || b == 0x0c || b == 13u8
}

/// Removes leading and trailing ASCII whitespace, returning the trimmed
/// subslice without copying.
pub fn trim_slice(l: &[u8]) -> (r: &[u8])
    ensures
        r@ == trim(l@),
        r@.len() <= l@.len(),
{
    let len = l.len();
    let mut lo: usize = 0;
    while lo < len && is_whitespace_byte(l[lo])
        invariant
            0 <= lo <= len,
            len == l@.len(),
            forall|j: int| 0 <= j < lo ==> is_ascii_whitespace(l@[j]),
        decreases len - lo,
    {
        lo += 1;
    }
    proof {
        lemma_trim_start_at(l@, lo as int);
    }
    let mut hi: usize = len;
    while hi > lo && is_whitespace_byte(l[hi - 1])
        invariant
            lo <= hi <= len,
            len == l@.len(),
            forall|j: int| hi <= j < len ==> is_ascii_whitespace(l@[j]),
        decreases hi,
    {
        hi -= 1;
    }
    proof {
        let t = trim_start(l@);
        assert(t =~= l@.subrange(lo as int, len as int));
        lemma_trim_end_at(t, hi - lo);
        assert(t.subrange(0, hi - lo) =~= l@.subrange(lo as int, hi as int));
    }
    &l[lo..hi]
}

proof fn lemma_first_invalid_at(l: Seq<u8>, i: int)
    requires
        0 <= i < l.len(),
        !is_valid_symbol(l[i]),
        forall|j: int| 0 <= j < i ==> is_valid_symbol(l[j]),
    ensures
        first_invalid(l) == i,
    decreases l.len(),
{
    if i > 0 {
        lemma_first_invalid_at(l.drop_first(), i - 1);
    }
}

/// Finds the first byte of `l` that is not a valid residue symbol.
pub fn find_invalid(l: &[u8]) -> (r: Option<usize>)
    ensures
        match r {
            Some(i) => !all_valid(l@) && i == first_invalid(l@) && i < l@.len() && !is_valid_symbol(
                l@[i as int],
            ),
            None => all_valid(l@),
        },
{
    let len = l.len();
    let mut i: usize = 0;
    while i < len
        invariant
            0 <= i <= len,
            len == l@.len(),
            forall|j: int| 0 <= j < i ==> is_valid_symbol(l@[j]),
        decreases len - i,
    {
        if !is_nucleic_acid_lut(l[i]) {
            proof {
                lemma_first_invalid_at(l@, i as int);
            }
            return Some(i);
        }
        i += 1;
    }
    None
}

/// How one line contributes to the residue count: a header or a
/// blank/whitespace-only line contributes nothing; a residue line whose
/// trimmed bytes are all valid contributes its trimmed length; otherwise
/// counting fails with the first invalid byte.
pub open spec fn line_contribution(line: Seq<u8>) -> Result<int, u8> {
    if is_header(line) {
        Ok(0)
    } else {
        let t = trim(line);
        if !all_valid(t) {
            Err(t[first_invalid(t)])
        } else {
            Ok(t.len() as int)
        }
    }
}

/// An error reporting a residue byte outside the accepted alphabet.
#[derive(Clone, Copy, Debug, PartialEq, Eq, Structural)]
pub struct InvalidSymbolError {
    pub byte: u8,
}

impl InvalidSymbolError {
    /// The offending byte as a character, for diagnostics.
    pub fn printable(&self) -> (r: char)
        ensures
            r == self.byte as char,
    {
        self.byte as char
    }
}

/// Computes one line's contribution to the residue count.
pub fn line_count(line: &[u8]) -> (r: Result<usize, InvalidSymbolError>)
    ensures
        match r {
            Ok(n) => line_contribution(line@) == Ok::<int, u8>(n as int) && n <= line@.len(),
            Err(e) => line_contribution(line@) == Err::<int, u8>(e.byte),
        },
{
    if line.len() > 0 && line[0] == 62u8 {
        return Ok(0);
    }
    let t = trim_slice(line);
    match find_invalid(t) {
        Some(i) => Err(InvalidSymbolError { byte: t[i] }),
        None => Ok(t.len()),
    }
}

} // verus!
