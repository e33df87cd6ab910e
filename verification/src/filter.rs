//! The range filter: a stateful clipper that, given a running count of
//! residue bytes already seen, selects from each chunk the part falling
//! inside a requested byte range, consuming the start bound exactly once
//! and detecting when the inclusive end has been passed.

use vstd::prelude::*;

use crate::range_spec::RangeSpec;

verus! {

/// The clipper's state: residue bytes seen so far, the start bound while
/// it has not yet been reached (cleared exactly once), and the inclusive
/// end bound, if any.
#[derive(Clone, Copy, Debug, PartialEq, Eq, Structural)]
pub struct FilterState {
    pub consumed: u64,
    pub start: Option<u64>,
    pub end_inclusive: Option<u64>,
}

impl FilterState {
    pub open spec fn wf(self) -> bool {
        &&& (self.start matches Some(s) ==> self.consumed <= s)
        &&& (match (self.start, self.end_inclusive) {
            (Some(s), Some(e)) => s <= e,
            _ => true,
        })
    }

    /// The range has not been exhausted: the inclusive end, if any, still
    /// lies at or beyond the running offset.
    pub open spec fn active(self) -> bool {
        self.end_inclusive matches Some(e) ==> self.consumed <= e
    }

    /// Builds the initial state for a validated range.
    pub fn new(range: RangeSpec) -> (r: FilterState)
        requires
            range.wf(),
        ensures
            r.wf(),
            r.active(),
            r.consumed == 0,
            r.start == range.start,
            r.end_inclusive == range.end_inclusive,
    {
        FilterState { consumed: 0, start: range.start, end_inclusive: range.end_inclusive }
    }
}

/// Whether a chunk of length `len` ends before the start bound: it is
/// skipped whole, only advancing the running offset.
pub open spec fn clip_skips(f: FilterState, len: int) -> bool {
    f.start matches Some(s) && f.consumed + len < s
}

/// The chunk-local lower bound of the emitted part.
pub open spec fn clip_lo(f: FilterState, len: int) -> int {
    match f.start {
        Some(s) => s - f.consumed,
        None => 0,
    }
}

/// The chunk-local upper bound (exclusive) of the emitted part: cut at the
/// inclusive end bound if it falls inside the chunk, else the whole chunk.
pub open spec fn clip_hi(f: FilterState, len: int) -> int {
    match f.end_inclusive {
        Some(e) => if e - f.consumed < len {
            e - f.consumed + 1
        } else {
            len
        },
        None => len,
    }
}

/// Whether the range is exhausted once this chunk has been consumed.
pub open spec fn clip_done(f: FilterState, len: int) -> bool {
    f.end_inclusive matches Some(e) && f.consumed + len > e
}

/// The state after a chunk of length `len` has been consumed.
pub open spec fn clip_next(f: FilterState, len: int) -> FilterState {
    FilterState {
        consumed: (f.consumed + len) as u64,
        start: if clip_skips(f, len) {
            f.start
        } else {
            None
        },
        end_inclusive: f.end_inclusive,
    }
}

impl FilterState {
    /// Clips a chunk of `len` validated residue bytes against the range:
    /// returns `None` if the chunk lies wholly before the start bound,
    /// else the chunk-local half-open bounds to emit together with the
    /// exhaustion flag, and advances the running offset by `len`.
    pub fn clip(&mut self, len: usize) -> (r: Option<(usize, usize, bool)>)
        requires
            old(self).wf(),
            old(self).active(),
            len >= 1,
            old(self).consumed + len <= u64::MAX,
        ensures
            final(self).wf(),
            *final(self) == clip_next(*old(self), len as int),
            r is None <==> clip_skips(*old(self), len as int),
            r matches Some(t) ==> {
                &&& t.0 == clip_lo(*old(self), len as int)
                &&& t.1 == clip_hi(*old(self), len as int)
                &&& t.2 == clip_done(*old(self), len as int)
                &&& t.0 <= t.1 <= len
                &&& !t.2 ==> final(self).active()
            },
    {
        let lo: usize = match self.start {
            Some(s) => {
                if self.consumed + (len as u64) < s {
                    self.consumed = self.consumed + len as u64;
                    return None;
                }
                let l = (s - self.consumed) as usize;
                self.start = None;
                l
            },
            None => 0,
        };
        let hi: usize = match self.end_inclusive {
            Some(e) => {
                if e - self.consumed < len as u64 {
                    (e - self.consumed) as usize + 1
                } else {
                    len
                }
            },
            None => len,
        };
        self.consumed = self.consumed + len as u64;
        let done = match self.end_inclusive {
            Some(e) => self.consumed > e,
            None => false,
        };
        Some((lo, hi, done))
    }
}

/// One-shot start consumption: once the start bound has been cleared, no
/// later chunk is clipped at its lower end, and the bound stays cleared,
/// however often the running offset is re-examined.
pub proof fn lemma_one_shot_start(f: FilterState, len: int)
    requires
        f.start is None,
    ensures
        !clip_skips(f, len),
        clip_lo(f, len) == 0,
        clip_next(f, len).start is None,
{
}

} // verus!
