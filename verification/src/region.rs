//! The zero-copy line source: a read-only memory-mapped region shared, via
//! reference counting, between the source and every line view handed out,
//! so that no view can outlive the mapping and no byte is copied.
//!
//! The mapping itself is made by the caller (it owns the file handle); from
//! here on the region is only ever read.

use vstd::prelude::*;

use std::sync::Arc;

use crate::line::InvalidSymbolError;
use crate::pipeline::{
    count_lines_spec, lemma_count_lines_nonneg, lemma_total_len_nonneg, run_spec, total_len,
};
use crate::range_spec::RangeSpec;

verus! {

#[verifier::external_type_specification]
#[verifier::external_body]
pub struct ExMmap(memmap2::Mmap);

/// The bytes a mapped region holds. A region is immutable for its whole
/// lifetime, so its contents are a function of the region value alone.
pub uninterp spec fn region_bytes(m: memmap2::Mmap) -> Seq<u8>;

/// Relies on memmap2::Mmap's Deref to the mapped byte slice: its length.
#[verifier::external_body]
fn region_len(m: &memmap2::Mmap) -> (r: usize)
    ensures
        r == region_bytes(*m).len(),
{
    m.len()
}

/// Relies on memmap2::Mmap's Deref to the mapped byte slice: hands out the
/// subslice `[from, to)` of the region without copying.
#[verifier::external_body]
fn region_slice(m: &memmap2::Mmap, from: usize, to: usize) -> (r: &[u8])
    requires
        from <= to <= region_bytes(*m).len(),
    ensures
        r@ == region_bytes(*m).subrange(from as int, to as int),
{
    &m[from..to]
}

/// Relies on std's Arc::clone: a new handle to the very same region.
#[verifier::external_body]
fn clone_region_handle(m: &Arc<memmap2::Mmap>) -> (r: Arc<memmap2::Mmap>)
    ensures
        r == *m,
{
    Arc::clone(m)
}

/// Relies on std's Arc Deref: borrows the shared region.
#[verifier::external_body]
fn region_of(m: &Arc<memmap2::Mmap>) -> (r: &memmap2::Mmap)
    ensures
        *r == **m,
{
    &**m
}

/// Where the line beginning at `head` ends: one past the first terminator
/// byte at or after `head`, or the end of the region for an unterminated
/// final line.
pub open spec fn line_end(region: Seq<u8>, head: int) -> int
    decreases region.len() - head
        when 0 <= head <= region.len()
{
    if head >= region.len() {
        head
    } else if region[head] == 10u8 {
        head + 1
    } else {
        line_end(region, head + 1)
    }
}

/// A line's end lies past its head, within the region, right after the
/// first terminator (or at the region's end with no terminator before it).
pub proof fn lemma_line_end(region: Seq<u8>, head: int)
    requires
        0 <= head < region.len(),
    ensures
        head < line_end(region, head) <= region.len(),
        region[line_end(region, head) - 1] == 10u8 || line_end(region, head) == region.len(),
        forall|k: int| head <= k < line_end(region, head) - 1 ==> region[k] != 10u8,
    decreases region.len() - head,
{
    if region[head] != 10u8 {
        if head + 1 < region.len() {
            lemma_line_end(region, head + 1);
        } else {
            assert(line_end(region, head + 1) == head + 1);
        }
    }
}

/// The region split into its lines, each with its terminator.
pub open spec fn region_lines(region: Seq<u8>, head: int) -> Seq<Seq<u8>>
    decreases region.len() - head
        when 0 <= head <= region.len()
        via region_lines_decreases
{
    if head >= region.len() {
        Seq::<Seq<u8>>::empty()
    } else {
        seq![region.subrange(head, line_end(region, head))] + region_lines(
            region,
            line_end(region, head),
        )
    }
}

#[via_fn]
proof fn region_lines_decreases(region: Seq<u8>, head: int) {
    if 0 <= head < region.len() {
        lemma_line_end(region, head);
    }
}

/// A borrowed line: a byte span of a shared region, holding its own
/// reference-counted handle so the mapping outlives the view.
pub struct LineInFile {
    region: Arc<memmap2::Mmap>,
    start: usize,
    end: usize,
}

impl View for LineInFile {
    type V = Seq<u8>;

    closed spec fn view(&self) -> Seq<u8> {
        region_bytes(*self.region).subrange(self.start as int, self.end as int)
    }
}

impl LineInFile {
    pub closed spec fn region_view(&self) -> Seq<u8> {
        region_bytes(*self.region)
    }

    pub closed spec fn start_spec(&self) -> int {
        self.start as int
    }

    pub closed spec fn end_spec(&self) -> int {
        self.end as int
    }

    pub open spec fn wf(&self) -> bool {
        0 <= self.start_spec() <= self.end_spec() <= self.region_view().len()
    }

    /// Every line view is well-formed by construction: its span lies
    /// within its region.
    #[verifier::type_invariant]
    closed spec fn inv(&self) -> bool {
        self.wf()
    }

    /// The line's bytes, straight from the shared region, without copying.
    pub fn as_bytes(&self) -> (r: &[u8])
        ensures
            r@ == self@,
    {
        proof {
            use_type_invariant(&*self);
        }
        region_slice(region_of(&self.region), self.start, self.end)
    }
}

impl Clone for LineInFile {
    fn clone(&self) -> (r: Self)
        ensures
            r == *self,
    {
        proof {
            use_type_invariant(&*self);
        }
        LineInFile {
            region: clone_region_handle(&self.region),
            start: self.start,
            end: self.end,
        }
    }
}

/// The lazy, finite, non-restartable sequence of line views over a shared
/// region: each call to `next` scans for the next terminator and hands out
/// the span, keeping the region alive through a shared handle.
pub struct LinesInFile {
    region: Arc<memmap2::Mmap>,
    head: usize,
}

impl LinesInFile {
    pub closed spec fn region_view(&self) -> Seq<u8> {
        region_bytes(*self.region)
    }

    pub closed spec fn head_spec(&self) -> int {
        self.head as int
    }

    pub open spec fn wf(&self) -> bool {
        0 <= self.head_spec() <= self.region_view().len()
    }

    /// The source is well-formed by construction: its head never lies
    /// past the region's end.
    #[verifier::type_invariant]
    closed spec fn inv(&self) -> bool {
        self.wf()
    }

    /// The lines not yet handed out.
    pub open spec fn remaining(&self) -> Seq<Seq<u8>> {
        region_lines(self.region_view(), self.head_spec())
    }

    /// Scans forward for the next terminator and hands out the line as a
    /// zero-copy view; `None` once the head has reached the region's end.
    pub fn next(&mut self) -> (r: Option<LineInFile>)
        ensures
            final(self).wf(),
            final(self).region_view() == old(self).region_view(),
            old(self).head_spec() >= old(self).region_view().len() ==> r is None && *final(self)
                == *old(self),
            old(self).head_spec() < old(self).region_view().len() ==> (r matches Some(line) && {
                &&& line.wf()
                &&& line.region_view() == old(self).region_view()
                &&& line.start_spec() == old(self).head_spec()
                &&& line.end_spec() == line_end(old(self).region_view(), old(self).head_spec())
                &&& line@ == old(self).remaining()[0]
                &&& final(self).head_spec() == line.end_spec()
                &&& final(self).remaining() == old(self).remaining().drop_first()
            }),
    {
        proof {
            use_type_invariant(&*self);
        }
        let len = region_len(region_of(&self.region));
        if self.head >= len {
            return None;
        }
        let ghost region = self.region_view();
        let ghost head0 = self.head as int;
        proof {
            lemma_line_end(region, head0);
        }
        let tail = region_slice(region_of(&self.region), self.head, len);
        let mut j: usize = 0;
        let tail_len = len - self.head;
        while j < tail_len && tail[j] != 10u8
            invariant
                0 <= j <= tail_len,
                tail_len == tail@.len(),
                tail@ == region.subrange(head0, region.len() as int),
                head0 + tail_len == region.len(),
                forall|k: int| 0 <= k < j ==> tail@[k] != 10u8,
            decreases tail_len - j,
        {
            j += 1;
        }
        let end = if j < tail_len {
            self.head + j + 1
        } else {
            len
        };
        proof {
            let e = line_end(region, head0);
            if j < tail_len {
                assert(region[head0 + j] == 10u8);
                assert forall|k: int| head0 <= k < head0 + j implies region[k] != 10u8 by {
                    assert(tail@[k - head0] != 10u8);
                }
                if e < head0 + j + 1 {
                    assert(region[e - 1] == 10u8);
                }
                if e > head0 + j + 1 {
                    assert(region[head0 + j] != 10u8);
                }
                assert(e == head0 + j + 1);
            } else {
                assert forall|k: int| head0 <= k < region.len() implies region[k] != 10u8 by {
                    assert(tail@[k - head0] != 10u8);
                }
                if e < region.len() {
                    assert(region[e - 1] == 10u8);
                }
                assert(e == region.len());
            }
            assert(region_lines(region, head0)[0] == region.subrange(head0, e));
            assert(region_lines(region, head0).drop_first() =~= region_lines(region, e));
        }
        let line = LineInFile {
            region: clone_region_handle(&self.region),
            start: self.head,
            end,
        };
        self.head = end;
        Some(line)
    }
}

/// Wraps a freshly mapped region into a line source positioned at its
/// start.
pub fn lines(mmap: memmap2::Mmap) -> (r: LinesInFile)
    ensures
        r.wf(),
        r.region_view() == region_bytes(mmap),
        r.head_spec() == 0,
{
    LinesInFile { region: Arc::new(mmap), head: 0 }
}

/// Counts the residues of a whole mapped region: the total length of its
/// non-header lines after trimming, skipping blank lines; fails on the
/// first invalid residue byte.
#[verifier::loop_isolation(false)]
pub fn count_region(src: LinesInFile) -> (r: Result<u64, InvalidSymbolError>)
    ensures
        match r {
            Ok(n) => count_lines_spec(src.remaining()) == Ok::<int, u8>(n as int),
            Err(e) => count_lines_spec(src.remaining()) == Err::<int, u8>(e.byte),
        },
{
    let mut src = src;
    proof {
        use_type_invariant(&src);
    }
    let ghost all = src.remaining();
    let mut counter = crate::pipeline::LengthCounter::new();
    // the region fits in memory, so the residue count fits in a u64
    let _region_len = region_len(region_of(&src.region));
    proof {
        lemma_region_total_len(src.region_view(), src.head_spec());
        lemma_count_lines_nonneg(all);
    }
    loop
        invariant
            src.wf(),
            counter.total + total_len(src.remaining()) <= u64::MAX,
            count_lines_spec(all) == match count_lines_spec(src.remaining()) {
                Ok(m) => Ok::<int, u8>(counter.total + m),
                Err(b) => Err::<int, u8>(b),
            },
        decreases src.remaining().len(),
    {
        let ghost before = src.remaining();
        match src.next() {
            None => {
                proof {
                    assert(before =~= Seq::<Seq<u8>>::empty());
                }
                return Ok(counter.total);
            },
            Some(line) => {
                proof {
                    lemma_total_len_nonneg(src.remaining());
                    lemma_count_lines_nonneg(src.remaining());
                    crate::line::lemma_trim_len(line@);
                }
                match counter.push_line(line.as_bytes()) {
                    Ok(()) => {},
                    Err(e) => {
                        return Err(e);
                    },
                }
            },
        }
    }
}

/// The lines of a region sum, in length, to no more than the region's
/// remaining length.
proof fn lemma_region_total_len(region: Seq<u8>, head: int)
    requires
        0 <= head <= region.len(),
    ensures
        total_len(region_lines(region, head)) <= region.len() - head,
    decreases region.len() - head,
{
    if head < region.len() {
        lemma_line_end(region, head);
        let e = line_end(region, head);
        lemma_region_total_len(region, e);
        assert(region_lines(region, head).drop_first() =~= region_lines(region, e));
    }
}

/// Extracts and re-wraps a range from a whole mapped region, streaming
/// line by line.
#[verifier::loop_isolation(false)]
pub fn slice_region(src: LinesInFile, range: RangeSpec, chars_per_line: u64) -> (r: Result<
    Vec<u8>,
    InvalidSymbolError,
>)
    requires
        range.wf(),
    ensures
        match r {
            Ok(out) => run_spec(
                crate::filter::FilterState {
                    consumed: 0,
                    start: range.start,
                    end_inclusive: range.end_inclusive,
                },
                crate::wrap::WrapState {
                    chars_per_line: if chars_per_line == 0 {
                        1
                    } else {
                        chars_per_line
                    },
                    written: 0,
                },
                src.remaining(),
            ) == Ok::<Seq<u8>, u8>(out@),
            Err(e) => run_spec(
                crate::filter::FilterState {
                    consumed: 0,
                    start: range.start,
                    end_inclusive: range.end_inclusive,
                },
                crate::wrap::WrapState {
                    chars_per_line: if chars_per_line == 0 {
                        1
                    } else {
                        chars_per_line
                    },
                    written: 0,
                },
                src.remaining(),
            ) == Err::<Seq<u8>, u8>(e.byte),
        },
{
    let mut src = src;
    proof {
        use_type_invariant(&src);
    }
    let ghost all = src.remaining();
    let mut filter = crate::filter::FilterState::new(range);
    let mut wrap = crate::wrap::WrapState::new(chars_per_line);
    let ghost f0 = filter;
    let ghost w0 = wrap;
    let mut out: Vec<u8> = Vec::new();
    // the region fits in memory, so the running offsets fit in a u64
    let _region_len = region_len(region_of(&src.region));
    proof {
        lemma_region_total_len(src.region_view(), src.head_spec());
        let r0 = run_spec(f0, w0, all);
        if r0 is Ok {
            assert(Seq::<u8>::empty() + r0->Ok_0 =~= r0->Ok_0);
        }
    }
    loop
        invariant
            src.wf(),
            f0 == (crate::filter::FilterState {
                consumed: 0,
                start: range.start,
                end_inclusive: range.end_inclusive,
            }),
            w0 == (crate::wrap::WrapState {
                chars_per_line: if chars_per_line == 0 {
                    1
                } else {
                    chars_per_line
                },
                written: 0,
            }),
            filter.wf(),
            filter.active(),
            wrap.wf(),
            filter.consumed + total_len(src.remaining()) <= u64::MAX,
            wrap.written + total_len(src.remaining()) <= u64::MAX,
            run_spec(f0, w0, all) == match run_spec(filter, wrap, src.remaining()) {
                Ok(rest) => Ok::<Seq<u8>, u8>(out@ + rest),
                Err(b) => Err::<Seq<u8>, u8>(b),
            },
        decreases src.remaining().len(),
    {
        let ghost before = src.remaining();
        match src.next() {
            None => {
                proof {
                    assert(before =~= Seq::<Seq<u8>>::empty());
                }
                wrap.finish(&mut out);
                return Ok(out);
            },
            Some(line) => {
                let ghost f_before = filter;
                let ghost w_before = wrap;
                let ghost out_before = out@;
                proof {
                    lemma_total_len_nonneg(src.remaining());
                    crate::line::lemma_trim_len(line@);
                }
                match crate::pipeline::process_line(
                    &mut filter,
                    &mut wrap,
                    line.as_bytes(),
                    &mut out,
                ) {
                    Ok(done) => {
                        if done {
                            proof {
                                let st = crate::pipeline::step_spec(
                                    f_before,
                                    w_before,
                                    line@,
                                )->Ok_0;
                                assert(out@ =~= out_before + st.out);
                            }
                            return Ok(out);
                        }
                        proof {
                            let st = crate::pipeline::step_spec(f_before, w_before, line@)->Ok_0;
                            assert(out@ =~= out_before + st.out);
                            let nxt = run_spec(filter, wrap, src.remaining());
                            if nxt is Ok {
                                let rest = nxt->Ok_0;
                                assert(out_before + (st.out + rest) =~= out@ + rest);
                            }
                        }
                    },
                    Err(e) => {
                        return Err(e);
                    },
                }
            },
        }
    }
}

} // verus!
