//! The line re-wrapper: splits a stream of filtered residue bytes into
//! fixed-width output lines, carrying the partial-line column across calls
//! through a running `written` counter.
//!
//! Wrap alignment always continues the running column count (`written`
//! modulo the width); it is never reset mid-stream. Before anything has
//! been emitted the count is zero, so a chunk that begins with a start-clip
//! starts at column zero all the same.

use vstd::prelude::*;

use vstd::arithmetic::div_mod::{lemma_add_mod_noop, lemma_mod_bound, lemma_mod_self_0, lemma_small_mod};

verus! {

/// The newline terminator appended after each full output line.
pub open spec fn nl() -> Seq<u8> {
    seq![10u8]
}

/// What wrapping `bytes` at width `w` emits, starting from a running count
/// of `written` residues: whenever the current output column reaches `w`,
/// a newline is inserted; the final partial line is emitted unterminated.
pub open spec fn wrap_spec(w: int, written: int, bytes: Seq<u8>) -> Seq<u8>
    decreases bytes.len()
        when w >= 1 && written >= 0
        via wrap_spec_decreases
{
    let remain = w - written % w;
    if remain <= bytes.len() {
        bytes.take(remain) + nl() + wrap_spec(w, written + remain, bytes.skip(remain))
    } else {
        bytes
    }
}

#[via_fn]
proof fn wrap_spec_decreases(w: int, written: int, bytes: Seq<u8>) {
    lemma_mod_bound(written, w);
}

/// What terminates the output once the stream or the range is exhausted:
/// a single newline if a partial line is pending, nothing if the output is
/// already aligned (empty, or just terminated by a full line's newline).
pub open spec fn final_terminator(w: int, written: int) -> Seq<u8> {
    if written % w == 0 {
        Seq::<u8>::empty()
    } else {
        nl()
    }
}

/// The re-chunking state: a fixed positive line width and the total number
/// of residues emitted so far.
#[derive(Clone, Copy, Debug, PartialEq, Eq, Structural)]
pub struct WrapState {
    pub chars_per_line: u64,
    pub written: u64,
}

/// Appends `src[from..to]` to `out`.
pub fn push_range(out: &mut Vec<u8>, src: &[u8], from: usize, to: usize)
    requires
        from <= to <= src@.len(),
    ensures
        final(out)@ == old(out)@ + src@.subrange(from as int, to as int),
{
    let mut i: usize = from;
    while i < to
        invariant
            from <= i <= to <= src@.len(),
            out@ == old(out)@ + src@.subrange(from as int, i as int),
        decreases to - i,
    {
        let b = src[i];
        out.push(b);
        proof {
            assert(old(out)@ + src@.subrange(from as int, i + 1) =~= (old(out)@ + src@.subrange(
                from as int,
                i as int,
            )).push(src@[i as int]));
        }
        i += 1;
    }
    proof {
        assert(out@ =~= old(out)@ + src@.subrange(from as int, to as int));
    }
}

impl WrapState {
    pub open spec fn wf(self) -> bool {
        self.chars_per_line >= 1
    }

    /// Builds the state for a requested width, applying the floor of 1.
    pub fn new(chars_per_line: u64) -> (r: WrapState)
        ensures
            r.wf(),
            r.written == 0,
            chars_per_line >= 1 ==> r.chars_per_line == chars_per_line,
            chars_per_line == 0 ==> r.chars_per_line == 1,
    {
        WrapState {
            chars_per_line: if chars_per_line == 0 {
                1
            } else {
                chars_per_line
            },
            written: 0,
        }
    }

    /// Re-chunks `bytes[from..to]` into fixed-width lines appended to
    /// `out`, and advances the running count by the chunk's length.
    pub fn wrap(&mut self, bytes: &[u8], from: usize, to: usize, out: &mut Vec<u8>)
        requires
            old(self).wf(),
            from <= to <= bytes@.len(),
            old(self).written + (to - from) <= u64::MAX,
        ensures
            final(self).wf(),
            final(self).chars_per_line == old(self).chars_per_line,
            final(self).written == old(self).written + (to - from),
            final(out)@ == old(out)@ + wrap_spec(
                old(self).chars_per_line as int,
                old(self).written as int,
                bytes@.subrange(from as int, to as int),
            ),
    {
        let w = self.chars_per_line;
        let ghost chunk = bytes@.subrange(from as int, to as int);
        let mut pos: usize = from;
        loop
            invariant
                self.wf(),
                w == self.chars_per_line,
                self.chars_per_line == old(self).chars_per_line,
                from <= pos <= to <= bytes@.len(),
                self.written == old(self).written + (pos - from),
                self.written + (to - pos) <= u64::MAX,
                chunk == bytes@.subrange(from as int, to as int),
                old(out)@ + wrap_spec(w as int, old(self).written as int, chunk) == out@
                    + wrap_spec(
                    w as int,
                    self.written as int,
                    bytes@.subrange(pos as int, to as int),
                ),
            decreases to - pos,
        {
            proof {
                lemma_mod_bound(self.written as int, w as int);
            }
            let line_remain = w - self.written % w;
            let ghost c = self.written as int;
            let ghost rest = bytes@.subrange(pos as int, to as int);
            let ghost out_before = out@;
            if line_remain <= (to - pos) as u64 {
                let r = line_remain as usize;
                push_range(out, bytes, pos, pos + r);
                out.push(10u8);
                proof {
                    assert(rest.take(r as int) =~= bytes@.subrange(pos as int, pos + r));
                    assert(rest.skip(r as int) =~= bytes@.subrange(pos + r, to as int));
                    assert(out@ =~= out_before + rest.take(r as int) + nl());
                    assert(wrap_spec(w as int, c, rest) == rest.take(r as int) + nl() + wrap_spec(
                        w as int,
                        c + r,
                        rest.skip(r as int),
                    ));
                    assert(out_before + wrap_spec(w as int, c, rest) =~= out@ + wrap_spec(
                        w as int,
                        c + r,
                        rest.skip(r as int),
                    ));
                }
                self.written = self.written + line_remain;
                pos = pos + r;
            } else {
                push_range(out, bytes, pos, to);
                proof {
                    assert(wrap_spec(w as int, c, rest) == rest);
                    assert(out@ =~= out_before + wrap_spec(w as int, c, rest));
                    assert(bytes@.subrange(to as int, to as int) =~= Seq::<u8>::empty());
                    assert(out@ + wrap_spec(w as int, c + rest.len(), Seq::<u8>::empty()) =~= out@);
                }
                self.written = self.written + (to - pos) as u64;
                pos = to;
                proof {
                    assert(out_before.len() + rest.len() == out@.len());
                    assert(old(out)@ + wrap_spec(w as int, old(self).written as int, chunk) =~= out@
                        + wrap_spec(
                        w as int,
                        self.written as int,
                        bytes@.subrange(pos as int, to as int),
                    ));
                }
                return ;
            }
        }
    }

    /// Appends the closing terminator for the stream: a newline iff a
    /// partial output line is pending.
    pub fn finish(&self, out: &mut Vec<u8>)
        requires
            self.wf(),
        ensures
            final(out)@ == old(out)@ + final_terminator(
                self.chars_per_line as int,
                self.written as int,
            ),
    {
        if self.written % self.chars_per_line != 0 {
            out.push(10u8);
            proof {
                assert(out@ =~= old(out)@ + nl());
            }
        } else {
            proof {
                assert(out@ =~= old(out)@ + Seq::<u8>::empty());
            }
        }
    }
}


/// A stream of lines, each closed by a terminator.
pub open spec fn join_lines(lines: Seq<Seq<u8>>) -> Seq<u8>
    decreases lines.len(),
{
    if lines.len() == 0 {
        Seq::<u8>::empty()
    } else {
        lines[0] + nl() + join_lines(lines.drop_first())
    }
}

/// What re-wrapping a stream of chunks emits, from a fresh alignment:
/// each chunk wrapped in turn, and the closing terminator at the end.
pub open spec fn rewrap(w: int, written: int, lines: Seq<Seq<u8>>) -> Seq<u8>
    decreases lines.len(),
{
    if lines.len() == 0 {
        final_terminator(w, written)
    } else {
        wrap_spec(w, written, lines[0]) + rewrap(w, written + lines[0].len(), lines.drop_first())
    }
}

proof fn lemma_wrap_idempotent_from(w: int, written: int, lines: Seq<Seq<u8>>)
    requires
        w >= 1,
        written >= 0,
        written % w == 0,
        forall|i: int| 0 <= i < lines.len() ==> 1 <= (#[trigger] lines[i]).len() <= w,
        forall|i: int| 0 <= i < lines.len() - 1 ==> (#[trigger] lines[i]).len() == w,
    ensures
        rewrap(w, written, lines) == join_lines(lines),
    decreases lines.len(),
{
    if lines.len() == 0 {
        assert(rewrap(w, written, lines) =~= join_lines(lines));
    } else {
        let l = lines[0];
        assert(1 <= l.len() <= w);
        if l.len() == w {
            lemma_mod_self_0(w);
            lemma_add_mod_noop(written, w, w);
            lemma_small_mod(0, w as nat);
            assert((written + w) % w == 0);
            assert(l.take(w) =~= l);
            assert(l.skip(w) =~= Seq::<u8>::empty());
            assert(wrap_spec(w, written + w, Seq::<u8>::empty()) =~= Seq::<u8>::empty());
            assert(wrap_spec(w, written, l) =~= l + nl());
            lemma_wrap_idempotent_from(w, written + w, lines.drop_first());
            assert((l + nl()) + join_lines(lines.drop_first()) =~= l + nl() + join_lines(
                lines.drop_first(),
            ));
        } else {
            assert(lines.len() == 1) by {
                if lines.len() > 1 {
                    assert(lines[0].len() == w);
                }
            }
            assert(wrap_spec(w, written, l) == l);
            lemma_add_mod_noop(written, l.len() as int, w);
            lemma_small_mod(l.len() as nat, w as nat);
            assert((written + l.len()) % w == (l.len() as int) % w);
            assert((written + l.len()) % w != 0);
            assert(lines.drop_first() =~= Seq::<Seq<u8>>::empty());
            assert(rewrap(w, written + l.len(), lines.drop_first()) == nl());
            assert(join_lines(lines.drop_first()) =~= Seq::<u8>::empty());
            assert(l + nl() + Seq::<u8>::empty() =~= l + nl());
        }
    }
}

/// Wrap idempotence: a stream already wrapped at width `w` — every chunk a
/// full line of `w` residues but the last, which is nonempty and no longer
/// than `w` — re-wraps at the same width to itself, byte for byte: each
/// chunk comes out as its own terminated line, the last closed by the
/// final terminator.
pub proof fn lemma_wrap_idempotent(w: int, lines: Seq<Seq<u8>>)
    requires
        w >= 1,
        forall|i: int| 0 <= i < lines.len() ==> 1 <= (#[trigger] lines[i]).len() <= w,
        forall|i: int| 0 <= i < lines.len() - 1 ==> (#[trigger] lines[i]).len() == w,
    ensures
        rewrap(w, 0, lines) == join_lines(lines),
{
    lemma_small_mod(0, w as nat);
    lemma_wrap_idempotent_from(w, 0, lines);
}

} // verus!
