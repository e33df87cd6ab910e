//! The range-specification surface: a textual spec of the form
//! `START..END`, `START..=END`, `..END`, `START..` or `..`, parsed into a
//! pair of optional byte offsets before any I/O begins.

use vstd::prelude::*;

verus! {

/// A half-open or closed span of residue byte offsets. An unset start
/// means "from position 0"; an unset end means "to the end of the
/// sequence".
#[derive(Clone, Copy, Debug, PartialEq, Eq, Structural)]
pub struct RangeSpec {
    pub start: Option<u64>,
    pub end_inclusive: Option<u64>,
}

impl RangeSpec {
    pub open spec fn wf(self) -> bool {
        match (self.start, self.end_inclusive) {
            (Some(s), Some(e)) => s <= e,
            _ => true,
        }
    }
}

/// Why a range text was rejected: not of the `START..END` shape (or a
/// bound that is not a number that fits), or a range that selects nothing
/// because its end lies before its start. An exclusive end of 0 selects
/// nothing and cannot be represented by an inclusive bound, so it is
/// rejected the same way.
#[derive(Clone, Copy, Debug, PartialEq, Eq, Structural)]
pub enum InvalidRangeError {
    Malformed,
    EndBeforeStart,
}

pub open spec fn is_digit(b: u8) -> bool {
    48u8 <= b <= 57u8
}

pub open spec fn is_digits(t: Seq<u8>) -> bool {
    t.len() >= 1 && forall|i: int| 0 <= i < t.len() ==> is_digit(t[i])
}

/// The value of a decimal digit string.
pub open spec fn dec_value(t: Seq<u8>) -> int
    decreases t.len(),
{
    if t.len() == 0 {
        0
    } else {
        dec_value(t.drop_last()) * 10 + (t[t.len() - 1] - 48u8)
    }
}

/// Whether the two-byte range separator stands at position `i`.
pub open spec fn dotdot_at(t: Seq<u8>, i: int) -> bool {
    0 <= i && i + 2 <= t.len() && t[i] == 46u8 && t[i + 1] == 46u8
}

pub open spec fn has_dotdot(t: Seq<u8>) -> bool {
    exists|i: int| dotdot_at(t, i)
}

/// The position of the first range separator.
pub open spec fn first_dotdot(t: Seq<u8>) -> int
    decreases t.len(),
{
    if t.len() < 2 {
        0
    } else if t[0] == 46u8 && t[1] == 46u8 {
        0
    } else {
        1 + first_dotdot(t.drop_first())
    }
}

/// How the text before the separator is read: empty means an unset start,
/// else it must be a decimal number that fits.
pub open spec fn parse_start_spec(a: Seq<u8>) -> Result<Option<u64>, InvalidRangeError> {
    if a.len() == 0 {
        Ok(None)
    } else if is_digits(a) && dec_value(a) <= u64::MAX {
        Ok(Some(dec_value(a) as u64))
    } else {
        Err(InvalidRangeError::Malformed)
    }
}

/// How the text after the separator is read: empty means an unset end; a
/// leading `=` makes the following number the inclusive end; otherwise the
/// number is an exclusive end, one past the inclusive one, and 0 (which
/// selects nothing) is rejected.
pub open spec fn parse_end_spec(b: Seq<u8>) -> Result<Option<u64>, InvalidRangeError> {
    if b.len() == 0 {
        Ok(None)
    } else if b[0] == 61u8 {
        let c = b.drop_first();
        if is_digits(c) && dec_value(c) <= u64::MAX {
            Ok(Some(dec_value(c) as u64))
        } else {
            Err(InvalidRangeError::Malformed)
        }
    } else if is_digits(b) && dec_value(b) <= u64::MAX {
        if dec_value(b) == 0 {
            Err(InvalidRangeError::EndBeforeStart)
        } else {
            Ok(Some((dec_value(b) - 1) as u64))
        }
    } else {
        Err(InvalidRangeError::Malformed)
    }
}

/// What parsing a range text yields: the text split at its first `..`,
/// both sides read as bounds, and a range whose end lies before its start
/// rejected.
pub open spec fn parse_range_spec(t: Seq<u8>) -> Result<RangeSpec, InvalidRangeError> {
    if !has_dotdot(t) {
        Err(InvalidRangeError::Malformed)
    } else {
        let i = first_dotdot(t);
        match (parse_start_spec(t.subrange(0, i)), parse_end_spec(
            t.subrange(i + 2, t.len() as int),
        )) {
            (Ok(start), Ok(end_inclusive)) => if start matches Some(s) && end_inclusive matches Some(
                e,
            ) && e < s {
                Err(InvalidRangeError::EndBeforeStart)
            } else {
                Ok(RangeSpec { start, end_inclusive })
            },
            (Err(e), _) => Err(e),
            (_, Err(e)) => Err(e),
        }
    }
}

proof fn lemma_first_dotdot_at(t: Seq<u8>, i: int)
    requires
        dotdot_at(t, i),
        forall|j: int| #![trigger t[j]] 0 <= j < i ==> !(t[j] == 46u8 && t[j + 1] == 46u8),
    ensures
        has_dotdot(t),
        first_dotdot(t) == i,
    decreases t.len(),
{
    if i > 0 {
        assert(!(t[0] == 46u8 && t[1] == 46u8));
        let d = t.drop_first();
        assert(dotdot_at(d, i - 1));
        assert forall|j: int| #![trigger d[j]] 0 <= j < i - 1 implies !(d[j] == 46u8 && d[j + 1]
            == 46u8) by {
            assert(d[j] == t[j + 1] && d[j + 1] == t[j + 2]);
        }
        lemma_first_dotdot_at(d, i - 1);
    }
}

proof fn lemma_no_dotdot(t: Seq<u8>)
    requires
        forall|j: int| #![trigger t[j]] 0 <= j && j + 2 <= t.len() ==> !(t[j] == 46u8 && t[j + 1] == 46u8),
    ensures
        !has_dotdot(t),
{
    if has_dotdot(t) {
        let i = choose|i: int| dotdot_at(t, i);
        assert(t[i] == 46u8 && t[i + 1] == 46u8);
        assert(false);
    }
}

proof fn lemma_dec_value_nonneg(t: Seq<u8>)
    requires
        forall|i: int| 0 <= i < t.len() ==> is_digit(t[i]),
    ensures
        dec_value(t) >= 0,
    decreases t.len(),
{
    if t.len() > 0 {
        lemma_dec_value_nonneg(t.drop_last());
    }
}

proof fn lemma_dec_value_step(t: Seq<u8>, i: int)
    requires
        0 <= i < t.len(),
    ensures
        dec_value(t.subrange(0, i + 1)) == dec_value(t.subrange(0, i)) * 10 + (t[i] - 48u8),
{
    let p = t.subrange(0, i + 1);
    assert(p.drop_last() =~= t.subrange(0, i));
    assert(p[p.len() - 1] == t[i]);
}

/// Reads a whole slice as a decimal number, if it is one that fits.
fn parse_u64(t: &[u8]) -> (r: Option<u64>)
    ensures
        match r {
            Some(v) => is_digits(t@) && dec_value(t@) == v as int,
            None => !(is_digits(t@) && dec_value(t@) <= u64::MAX),
        },
{
    let len = t.len();
    if len == 0 {
        return None;
    }
    let mut v: u64 = 0;
    let mut i: usize = 0;
    while i < len
        invariant
            0 <= i <= len,
            len == t@.len(),
            forall|j: int| 0 <= j < i ==> is_digit(t@[j]),
            v as int == dec_value(t@.subrange(0, i as int)),
        decreases len - i,
    {
        let b = t[i];
        if !(48u8 <= b && b <= 57u8) {
            assert(!is_digits(t@));
            return None;
        }
        let d = b - 48u8;
        proof {
            lemma_dec_value_step(t@, i as int);
        }
        if v > (u64::MAX - d as u64) / 10 {
            proof {
                if is_digits(t@) {
                    lemma_dec_value_grows(t@, i + 1);
                }
            }
            return None;
        }
        v = v * 10 + d as u64;
        i += 1;
    }
    proof {
        assert(t@.subrange(0, len as int) =~= t@);
    }
    Some(v)
}

/// A decimal string's value is at least the value of any of its prefixes.
proof fn lemma_dec_value_grows(t: Seq<u8>, i: int)
    requires
        0 <= i <= t.len(),
        forall|j: int| 0 <= j < t.len() ==> is_digit(t[j]),
    ensures
        dec_value(t) >= dec_value(t.subrange(0, i)),
    decreases t.len() - i,
{
    if i == t.len() {
        assert(t.subrange(0, i) =~= t);
    } else {
        lemma_dec_value_step(t, i);
        assert forall|j: int| 0 <= j < t.subrange(0, i).len() implies is_digit(t.subrange(0, i)[j])
            by {}
        lemma_dec_value_nonneg(t.subrange(0, i));
        lemma_dec_value_grows(t, i + 1);
    }
}

/// Finds the first range separator.
fn find_dotdot(t: &[u8]) -> (r: Option<usize>)
    ensures
        match r {
            Some(i) => has_dotdot(t@) && i == first_dotdot(t@) && dotdot_at(t@, i as int),
            None => !has_dotdot(t@),
        },
{
    let len = t.len();
    if len < 2 {
        proof {
            lemma_no_dotdot(t@);
        }
        return None;
    }
    let mut i: usize = 0;
    while i < len - 1
        invariant
            0 <= i <= len - 1,
            2 <= len == t@.len(),
            forall|j: int| #![trigger t@[j]] 0 <= j < i ==> !(t@[j] == 46u8 && t@[j + 1] == 46u8),
        decreases len - i,
    {
        if t[i] == 46u8 && t[i + 1] == 46u8 {
            proof {
                lemma_first_dotdot_at(t@, i as int);
            }
            return Some(i);
        }
        i += 1;
    }
    proof {
        assert forall|j: int| #![trigger t@[j]] 0 <= j && j + 2 <= t@.len() implies !(t@[j] == 46u8
            && t@[j + 1] == 46u8) by {
            assert(j < i);
        }
        lemma_no_dotdot(t@);
    }
    None
}

/// Parses a range text of the form `START..END`, `START..=END`, `..END`,
/// `START..` or `..` into a validated range; fails, before any I/O, on a
/// malformed text or a range whose end lies before its start.
pub fn parse_range(t: &[u8]) -> (r: Result<RangeSpec, InvalidRangeError>)
    ensures
        r == parse_range_spec(t@),
        r matches Ok(range) ==> range.wf(),
{
    let i = match find_dotdot(t) {
        Some(i) => i,
        None => {
            return Err(InvalidRangeError::Malformed);
        },
    };
    let len = t.len();
    let ghost a = t@.subrange(0, i as int);
    let ghost b = t@.subrange(i + 2, len as int);
    let start: Option<u64> = if i == 0 {
        proof {
            assert(a.len() == 0);
        }
        None
    } else {
        match parse_u64_range(t, 0, i) {
            Some(v) => Some(v),
            None => {
                return Err(InvalidRangeError::Malformed);
            },
        }
    };
    let end_inclusive: Option<u64> = if i + 2 == len {
        proof {
            assert(b.len() == 0);
        }
        None
    } else if t[i + 2] == 61u8 {
        proof {
            assert(b[0] == 61u8);
            assert(b.drop_first() =~= t@.subrange(i + 3, len as int));
        }
        match parse_u64_range(t, i + 3, len) {
            Some(v) => Some(v),
            None => {
                return Err(InvalidRangeError::Malformed);
            },
        }
    } else {
        proof {
            assert(b[0] != 61u8);
        }
        match parse_u64_range(t, i + 2, len) {
            Some(v) => {
                if v == 0 {
                    return Err(InvalidRangeError::EndBeforeStart);
                }
                Some(v - 1)
            },
            None => {
                return Err(InvalidRangeError::Malformed);
            },
        }
    };
    if let (Some(s), Some(e)) = (start, end_inclusive) {
        if e < s {
            return Err(InvalidRangeError::EndBeforeStart);
        }
    }
    Ok(RangeSpec { start, end_inclusive })
}

/// Reads `t[from..to]` as a decimal number, if it is one that fits.
fn parse_u64_range(t: &[u8], from: usize, to: usize) -> (r: Option<u64>)
    requires
        from <= to <= t@.len(),
    ensures
        match r {
            Some(v) => is_digits(t@.subrange(from as int, to as int)) && dec_value(
                t@.subrange(from as int, to as int),
            ) == v as int,
            None => !(is_digits(t@.subrange(from as int, to as int)) && dec_value(
                t@.subrange(from as int, to as int),
            ) <= u64::MAX),
        },
{
    let s = &t[from..to];
    parse_u64(s)
}

} // verus!
