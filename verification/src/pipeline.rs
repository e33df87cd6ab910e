//! The extraction pipeline's consumer logic, one line at a time: validate,
//! clip against the range, re-wrap — plus whole-stream drivers over owned
//! lines, and the residue counter.

use vstd::prelude::*;

use crate::filter::{clip_done, clip_hi, clip_lo, clip_next, clip_skips, FilterState};
use crate::line::{
    all_valid, find_invalid, first_invalid, is_header, lemma_trim_len, line_contribution,
    line_count, trim, trim_slice, InvalidSymbolError,
};
use crate::range_spec::RangeSpec;
use crate::wrap::{final_terminator, nl, push_range, wrap_spec, WrapState};

verus! {

/// What one consumer step yields: the bytes emitted, the two state
/// machines advanced, and whether the range is now exhausted.
pub struct StepOutcome {
    pub out: Seq<u8>,
    pub filter: FilterState,
    pub wrap: WrapState,
    pub done: bool,
}

/// What the consumer does with one line: a header is copied verbatim; a
/// blank line is skipped; a residue line is trimmed, validated (failing
/// with the first invalid byte), clipped against the range and re-wrapped;
/// on exhaustion the output is terminated.
pub open spec fn step_spec(f: FilterState, w: WrapState, line: Seq<u8>) -> Result<
    StepOutcome,
    u8,
> {
    if is_header(line) {
        Ok(StepOutcome { out: line, filter: f, wrap: w, done: false })
    } else {
        let t = trim(line);
        if t.len() == 0 {
            Ok(StepOutcome { out: Seq::<u8>::empty(), filter: f, wrap: w, done: false })
        } else if !all_valid(t) {
            Err(t[first_invalid(t)])
        } else if clip_skips(f, t.len() as int) {
            Ok(
                StepOutcome {
                    out: Seq::<u8>::empty(),
                    filter: clip_next(f, t.len() as int),
                    wrap: w,
                    done: false,
                },
            )
        } else {
            let lo = clip_lo(f, t.len() as int);
            let hi = clip_hi(f, t.len() as int);
            let done = clip_done(f, t.len() as int);
            let wrapped = wrap_spec(w.chars_per_line as int, w.written as int, t.subrange(lo, hi));
            let w2 = WrapState {
                chars_per_line: w.chars_per_line,
                written: (w.written + (hi - lo)) as u64,
            };
            let out = if done {
                wrapped + final_terminator(w2.chars_per_line as int, w2.written as int)
            } else {
                wrapped
            };
            Ok(StepOutcome { out, filter: clip_next(f, t.len() as int), wrap: w2, done })
        }
    }
}

/// Processes one line, appending whatever it emits to `out`; returns
/// whether the range is now exhausted, or the first invalid residue byte.
pub fn process_line(
    filter: &mut FilterState,
    wrap: &mut WrapState,
    line: &[u8],
    out: &mut Vec<u8>,
) -> (r: Result<bool, InvalidSymbolError>)
    requires
        old(filter).wf(),
        old(filter).active(),
        old(wrap).wf(),
        old(filter).consumed + line@.len() <= u64::MAX,
        old(wrap).written + line@.len() <= u64::MAX,
    ensures
        final(filter).wf(),
        final(wrap).wf(),
        final(wrap).chars_per_line == old(wrap).chars_per_line,
        match r {
            Ok(done) => step_spec(*old(filter), *old(wrap), line@) matches Ok(st)
                && final(out)@ == old(out)@ + st.out && *final(filter) == st.filter && *final(wrap) == st.wrap
                && done == st.done && (!done ==> final(filter).active()),
            Err(e) => step_spec(*old(filter), *old(wrap), line@) == Err::<StepOutcome, u8>(e.byte)
                && *final(filter) == *old(filter) && *final(wrap) == *old(wrap) && final(out)@
                == old(out)@,
        },
{
    if line.len() > 0 && line[0] == 62u8 {
        push_range(out, line, 0, line.len());
        proof {
            assert(line@.subrange(0, line@.len() as int) =~= line@);
        }
        return Ok(false);
    }
    let t = trim_slice(line);
    if t.len() == 0 {
        proof {
            assert(out@ =~= old(out)@ + Seq::<u8>::empty());
        }
        return Ok(false);
    }
    if let Some(i) = find_invalid(t) {
        return Err(InvalidSymbolError { byte: t[i] });
    }
    match filter.clip(t.len()) {
        None => {
            proof {
                assert(out@ =~= old(out)@ + Seq::<u8>::empty());
            }
            Ok(false)
        },
        Some((lo, hi, done)) => {
            wrap.wrap(t, lo, hi, out);
            if done {
                wrap.finish(out);
                proof {
                    let st = step_spec(*old(filter), *old(wrap), line@)->Ok_0;
                    assert(out@ =~= old(out)@ + st.out);
                }
            }
            Ok(done)
        },
    }
}

/// What a whole stream of lines yields, from given filter and wrap states:
/// the concatenation of what each step emits, cut short on exhaustion, and
/// otherwise closed by the final terminator.
pub open spec fn run_spec(f: FilterState, w: WrapState, lines: Seq<Seq<u8>>) -> Result<
    Seq<u8>,
    u8,
>
    decreases lines.len(),
{
    if lines.len() == 0 {
        Ok(final_terminator(w.chars_per_line as int, w.written as int))
    } else {
        match step_spec(f, w, lines[0]) {
            Ok(st) => if st.done {
                Ok(st.out)
            } else {
                match run_spec(st.filter, st.wrap, lines.drop_first()) {
                    Ok(rest) => Ok(st.out + rest),
                    Err(b) => Err(b),
                }
            },
            Err(b) => Err(b),
        }
    }
}

/// The sum of the lines' lengths.
pub open spec fn total_len(lines: Seq<Seq<u8>>) -> int
    decreases lines.len(),
{
    if lines.len() == 0 {
        0
    } else {
        lines[0].len() + total_len(lines.drop_first())
    }
}

/// A sum of lengths is never negative.
pub proof fn lemma_total_len_nonneg(lines: Seq<Seq<u8>>)
    ensures
        total_len(lines) >= 0,
    decreases lines.len(),
{
    if lines.len() > 0 {
        lemma_total_len_nonneg(lines.drop_first());
    }
}

/// Extracts and re-wraps a range from a stream of owned lines.
pub fn slice_lines(lines: &Vec<Vec<u8>>, range: RangeSpec, chars_per_line: u64) -> (r: Result<
    Vec<u8>,
    InvalidSymbolError,
>)
    requires
        range.wf(),
        total_len(lines@.map_values(|l: Vec<u8>| l@)) <= u64::MAX,
    ensures
        match r {
            Ok(out) => run_spec(
                FilterState { consumed: 0, start: range.start, end_inclusive: range.end_inclusive },
                WrapState { chars_per_line: if chars_per_line == 0 { 1 } else { chars_per_line }, written: 0 },
                lines@.map_values(|l: Vec<u8>| l@),
            ) == Ok::<Seq<u8>, u8>(out@),
            Err(e) => run_spec(
                FilterState { consumed: 0, start: range.start, end_inclusive: range.end_inclusive },
                WrapState { chars_per_line: if chars_per_line == 0 { 1 } else { chars_per_line }, written: 0 },
                lines@.map_values(|l: Vec<u8>| l@),
            ) == Err::<Seq<u8>, u8>(e.byte),
        },
{
    let ghost all = lines@.map_values(|l: Vec<u8>| l@);
    let mut filter = FilterState::new(range);
    let mut wrap = WrapState::new(chars_per_line);
    let ghost f0 = filter;
    let ghost w0 = wrap;
    let mut out: Vec<u8> = Vec::new();
    let mut i: usize = 0;
    proof {
        lemma_total_len_nonneg(all);
        assert(all.skip(0) =~= all);
        let r0 = run_spec(f0, w0, all);
        if r0 is Ok {
            assert(Seq::<u8>::empty() + r0->Ok_0 =~= r0->Ok_0);
        }
    }
    while i < lines.len()
        invariant
            0 <= i <= lines.len(),
            all == lines@.map_values(|l: Vec<u8>| l@),
            all.len() == lines@.len(),
            f0 == (FilterState {
                consumed: 0,
                start: range.start,
                end_inclusive: range.end_inclusive,
            }),
            w0 == (WrapState {
                chars_per_line: if chars_per_line == 0 {
                    1
                } else {
                    chars_per_line
                },
                written: 0,
            }),
            filter.wf(),
            filter.active(),
            wrap.wf(),
            filter.consumed + total_len(all.skip(i as int)) <= u64::MAX,
            wrap.written + total_len(all.skip(i as int)) <= u64::MAX,
            run_spec(f0, w0, all) == match run_spec(filter, wrap, all.skip(i as int)) {
                Ok(rest) => Ok::<Seq<u8>, u8>(out@ + rest),
                Err(b) => Err::<Seq<u8>, u8>(b),
            },
        decreases lines.len() - i,
    {
        let ghost suffix = all.skip(i as int);
        proof {
            assert(suffix[0] == all[i as int]);
            assert(suffix.drop_first() =~= all.skip(i as int + 1));
            lemma_total_len_nonneg(all.skip(i as int + 1));
        }
        let ghost f_before = filter;
        let ghost w_before = wrap;
        let ghost out_before = out@;
        let line = &lines[i];
        match process_line(&mut filter, &mut wrap, line.as_slice(), &mut out) {
            Ok(done) => {
                if done {
                    proof {
                        let st = step_spec(f_before, w_before, line@)->Ok_0;
                        assert(run_spec(f_before, w_before, suffix) == Ok::<Seq<u8>, u8>(st.out));
                        assert(out@ =~= out_before + st.out);
                    }
                    return Ok(out);
                }
                proof {
                    let st = step_spec(f_before, w_before, line@)->Ok_0;
                    assert(out@ =~= out_before + st.out);
                    lemma_trim_len(line@);
                    let nxt = run_spec(filter, wrap, all.skip(i as int + 1));
                    if nxt is Ok {
                        let rest = nxt->Ok_0;
                        assert(out_before + (st.out + rest) =~= out@ + rest);
                    }
                }
            },
            Err(e) => {
                proof {
                    assert(run_spec(f_before, w_before, suffix) == Err::<Seq<u8>, u8>(e.byte));
                }
                return Err(e);
            },
        }
        i += 1;
    }
    proof {
        assert(all.skip(i as int) =~= Seq::<Seq<u8>>::empty());
    }
    wrap.finish(&mut out);
    Ok(out)
}

/// What counting a whole stream of lines yields: the sum of the lines'
/// contributions, or the first invalid byte.
pub open spec fn count_lines_spec(lines: Seq<Seq<u8>>) -> Result<int, u8>
    decreases lines.len(),
{
    if lines.len() == 0 {
        Ok(0)
    } else {
        match line_contribution(lines[0]) {
            Ok(n) => match count_lines_spec(lines.drop_first()) {
                Ok(m) => Ok(n + m),
                Err(b) => Err(b),
            },
            Err(b) => Err(b),
        }
    }
}

/// The running residue counter: feeds on lines, accumulating the total
/// length of the trimmed non-header lines.
#[derive(Clone, Copy, Debug, PartialEq, Eq, Structural)]
pub struct LengthCounter {
    pub total: u64,
}

impl LengthCounter {
    pub fn new() -> (r: LengthCounter)
        ensures
            r.total == 0,
    {
        LengthCounter { total: 0 }
    }

    /// Accounts for one line; fails on the first invalid residue byte,
    /// leaving the total untouched.
    pub fn push_line(&mut self, line: &[u8]) -> (r: Result<(), InvalidSymbolError>)
        requires
            old(self).total + line@.len() <= u64::MAX,
        ensures
            match r {
                Ok(()) => line_contribution(line@) matches Ok(n) && final(self).total == old(
                    self,
                ).total + n,
                Err(e) => line_contribution(line@) == Err::<int, u8>(e.byte) && *final(self)
                    == *old(self),
            },
    {
        match line_count(line) {
            Ok(n) => {
                self.total = self.total + n as u64;
                Ok(())
            },
            Err(e) => Err(e),
        }
    }
}

/// Counts the residues in a stream of owned lines: the total length of all
/// non-header lines after trimming, skipping blank lines; fails on the
/// first invalid residue byte.
pub fn count_lines(lines: &Vec<Vec<u8>>) -> (r: Result<u64, InvalidSymbolError>)
    requires
        total_len(lines@.map_values(|l: Vec<u8>| l@)) <= u64::MAX,
    ensures
        match r {
            Ok(n) => count_lines_spec(lines@.map_values(|l: Vec<u8>| l@)) == Ok::<int, u8>(
                n as int,
            ),
            Err(e) => count_lines_spec(lines@.map_values(|l: Vec<u8>| l@)) == Err::<int, u8>(
                e.byte,
            ),
        },
{
    let ghost all = lines@.map_values(|l: Vec<u8>| l@);
    let mut counter = LengthCounter::new();
    let mut i: usize = 0;
    proof {
        lemma_total_len_nonneg(all);
        assert(all.skip(0) =~= all);
    }
    while i < lines.len()
        invariant
            0 <= i <= lines.len(),
            all == lines@.map_values(|l: Vec<u8>| l@),
            all.len() == lines@.len(),
            counter.total + total_len(all.skip(i as int)) <= u64::MAX,
            count_lines_spec(all) == match count_lines_spec(all.skip(i as int)) {
                Ok(m) => Ok::<int, u8>(counter.total + m),
                Err(b) => Err::<int, u8>(b),
            },
        decreases lines.len() - i,
    {
        let ghost suffix = all.skip(i as int);
        proof {
            assert(suffix[0] == all[i as int]);
            assert(suffix.drop_first() =~= all.skip(i as int + 1));
            lemma_total_len_nonneg(all.skip(i as int + 1));
            lemma_count_lines_nonneg(all.skip(i as int + 1));
            lemma_trim_len(all[i as int]);
        }
        let line = &lines[i];
        match counter.push_line(line.as_slice()) {
            Ok(()) => {},
            Err(e) => {
                return Err(e);
            },
        }
        i += 1;
    }
    proof {
        assert(all.skip(i as int) =~= Seq::<Seq<u8>>::empty());
    }
    Ok(counter.total)
}

/// A count that succeeds is never negative.
pub proof fn lemma_count_lines_nonneg(lines: Seq<Seq<u8>>)
    ensures
        count_lines_spec(lines) matches Ok(n) ==> n >= 0,
    decreases lines.len(),
{
    if lines.len() > 0 {
        lemma_count_lines_nonneg(lines.drop_first());
    }
}

/// Counting a stream made only of header lines and blank lines yields 0.
pub proof fn lemma_count_headers_only(lines: Seq<Seq<u8>>)
    requires
        forall|i: int|
            0 <= i < lines.len() ==> is_header(#[trigger] lines[i]) || trim(lines[i]).len() == 0,
    ensures
        count_lines_spec(lines) == Ok::<int, u8>(0),
    decreases lines.len(),
{
    if lines.len() > 0 {
        assert(is_header(lines[0]) || trim(lines[0]).len() == 0);
        lemma_count_headers_only(lines.drop_first());
    }
}

/// Counting ignores a header or blank line: prepending one to a stream
/// leaves the count unchanged.
pub proof fn lemma_count_ignores_line(l: Seq<u8>, lines: Seq<Seq<u8>>)
    requires
        is_header(l) || trim(l).len() == 0,
    ensures
        count_lines_spec(seq![l] + lines) == count_lines_spec(lines),
{
    let whole = seq![l] + lines;
    assert(whole[0] == l);
    assert(whole.drop_first() =~= lines);
}


/// The residue stream of a stream of lines: the trimmed bytes of every
/// non-header line, concatenated.
pub open spec fn residues(lines: Seq<Seq<u8>>) -> Seq<u8>
    decreases lines.len(),
{
    if lines.len() == 0 {
        Seq::<u8>::empty()
    } else if is_header(lines[0]) {
        residues(lines.drop_first())
    } else {
        trim(lines[0]) + residues(lines.drop_first())
    }
}

proof fn lemma_round_trip_from(lines: Seq<Seq<u8>>, c: int, n: int)
    requires
        forall|i: int|
            0 <= i < lines.len() ==> !is_header(#[trigger] lines[i]) && all_valid(trim(lines[i])),
        0 <= c < n <= u64::MAX,
        c + residues(lines).len() == n,
    ensures
        run_spec(
            FilterState {
                consumed: c as u64,
                start: if c == 0 {
                    Some(0u64)
                } else {
                    None
                },
                end_inclusive: Some((n - 1) as u64),
            },
            WrapState { chars_per_line: n as u64, written: c as u64 },
            lines,
        ) == Ok::<Seq<u8>, u8>(residues(lines) + nl()),
    decreases lines.len(),
{
    vstd::arithmetic::div_mod::lemma_small_mod(c as nat, n as nat);
    vstd::arithmetic::div_mod::lemma_mod_self_0(n);
    let f = FilterState {
        consumed: c as u64,
        start: if c == 0 {
            Some(0u64)
        } else {
            None
        },
        end_inclusive: Some((n - 1) as u64),
    };
    let w = WrapState { chars_per_line: n as u64, written: c as u64 };
    assert(lines.len() > 0);
    let l = lines[0];
    let t = trim(l);
    let rest = lines.drop_first();
    if t.len() == 0 {
        assert(residues(lines) == t + residues(rest));
        assert(residues(lines) =~= residues(rest));
        lemma_round_trip_from(rest, c, n);
        let st = step_spec(f, w, l)->Ok_0;
        assert(st.out =~= Seq::<u8>::empty());
        assert(st.filter == f && st.wrap == w && !st.done);
        assert(Seq::<u8>::empty() + (residues(rest) + nl()) =~= residues(lines) + nl());
    } else {
        let len = t.len() as int;
        assert(residues(lines) == t + residues(rest));
        assert(c + len <= n) by {
            assert(residues(lines).len() == len + residues(rest).len());
        }
        assert(!clip_skips(f, len));
        assert(clip_lo(f, len) == 0);
        assert(clip_hi(f, len) == len);
        assert(t.subrange(0, len) =~= t);
        let st = step_spec(f, w, l)->Ok_0;
        assert(st.done == (c + len == n));
        if c + len == n {
            assert(residues(rest).len() == 0);
            assert(residues(rest) =~= Seq::<u8>::empty());
            assert(t.take(n - c) =~= t);
            assert(t.skip(n - c) =~= Seq::<u8>::empty());
            vstd::arithmetic::div_mod::lemma_add_mod_noop(c, len, n);
            vstd::arithmetic::div_mod::lemma_small_mod(0, n as nat);
            assert((c + len) % n == 0);
            assert(wrap_spec(n, c + len, Seq::<u8>::empty()) =~= Seq::<u8>::empty());
            assert(wrap_spec(n, c, t) =~= t + nl());
            assert(st.out =~= t + nl());
            assert(residues(lines) + nl() =~= t + nl());
        } else {
            assert(wrap_spec(n, c, t) == t) by {
                assert(c % n == c);
            }
            assert(st.out =~= t);
            lemma_round_trip_from(rest, c + len, n);
            assert(st.filter == (FilterState {
                consumed: (c + len) as u64,
                start: None,
                end_inclusive: Some((n - 1) as u64),
            }));
            assert(st.wrap == (WrapState { chars_per_line: n as u64, written: (c + len) as u64 }));
            assert(t + (residues(rest) + nl()) =~= residues(lines) + nl());
        }
    }
}

/// Range round-trip: over a stream of valid residue lines with no headers,
/// extracting the range from 0 to the total residue count `n`, wrapped at
/// width `n`, reproduces exactly the residue stream as one terminated
/// line.
pub proof fn lemma_range_round_trip(lines: Seq<Seq<u8>>, n: int)
    requires
        forall|i: int|
            0 <= i < lines.len() ==> !is_header(#[trigger] lines[i]) && all_valid(trim(lines[i])),
        n == residues(lines).len(),
        1 <= n <= u64::MAX,
    ensures
        run_spec(
            FilterState { consumed: 0, start: Some(0u64), end_inclusive: Some((n - 1) as u64) },
            WrapState { chars_per_line: n as u64, written: 0 },
            lines,
        ) == Ok::<Seq<u8>, u8>(residues(lines) + nl()),
{
    lemma_round_trip_from(lines, 0, n);
}


/// On a stream whose residue lines are all valid, the counter returns
/// exactly the length of the residue stream.
pub proof fn lemma_count_is_residue_len(lines: Seq<Seq<u8>>)
    requires
        forall|i: int| 0 <= i < lines.len() ==> all_valid(trim(#[trigger] lines[i])),
    ensures
        count_lines_spec(lines) == Ok::<int, u8>(residues(lines).len() as int),
    decreases lines.len(),
{
    if lines.len() > 0 {
        assert(all_valid(trim(lines[0])));
        lemma_count_is_residue_len(lines.drop_first());
    }
}

} // verus!
