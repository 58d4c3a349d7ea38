//! Splitting a buffer into lines: the runs of bytes between newlines, the
//! empty ones left out.

use vstd::prelude::*;
use vstd::slice::slice_subrange;
use crate::ascii::NEWLINE;

verus! {

/// Where the line that starts at `from` ends: at the first newline from
/// there on, or at the end of the buffer.
pub open spec fn line_end(buf: Seq<u8>, from: int) -> int
    decreases buf.len() - from,
{
    if from < 0 || from >= buf.len() {
        buf.len() as int
    } else if buf[from] == NEWLINE {
        from
    } else {
        line_end(buf, from + 1)
    }
}

/// The lines of the buffer from position `from` on, in order.
pub open spec fn lines_from(buf: Seq<u8>, from: int) -> Seq<Seq<u8>>
    decreases buf.len() - from,
{
    if from < 0 || from >= buf.len() {
        Seq::empty()
    } else {
        let end = line_end(buf, from);
        let later = if from <= end < buf.len() {
            lines_from(buf, end + 1)
        } else {
            Seq::empty()
        };
        if from < end <= buf.len() {
            seq![buf.subrange(from, end)] + later
        } else {
            later
        }
    }
}

/// The lines of a buffer, in order.
pub open spec fn lines_of(buf: Seq<u8>) -> Seq<Seq<u8>> {
    lines_from(buf, 0)
}

/// A line ends at or after its start, within the buffer, at a newline or
/// at the end, and holds no newline.
pub proof fn lemma_line_end(buf: Seq<u8>, from: int)
    requires
        0 <= from <= buf.len(),
    ensures
        from <= line_end(buf, from) <= buf.len(),
        line_end(buf, from) < buf.len() ==> buf[line_end(buf, from)] == NEWLINE,
        forall|i: int| from <= i < line_end(buf, from) ==> buf[i] != NEWLINE,
    decreases buf.len() - from,
{
    if from < buf.len() && buf[from] != NEWLINE {
        lemma_line_end(buf, from + 1);
    }
}

/// There are no more lines than bytes, no line is empty and none holds a
/// newline.
pub proof fn lemma_lines_from(buf: Seq<u8>, from: int)
    requires
        0 <= from,
    ensures
        lines_from(buf, from).len() <= if from <= buf.len() {
            buf.len() - from
        } else {
            0
        },
        forall|i: int|
            0 <= i < lines_from(buf, from).len() ==> {
                &&& (#[trigger] lines_from(buf, from)[i]).len() > 0
                &&& forall|j: int|
                    0 <= j < lines_from(buf, from)[i].len() ==> lines_from(buf, from)[i][j]
                        != NEWLINE
            },
    decreases buf.len() - from,
{
    if from < buf.len() {
        lemma_line_end(buf, from);
        let end = line_end(buf, from);
        if end < buf.len() {
            lemma_lines_from(buf, end + 1);
        }
    }
}

/// A buffer may be cut at `p` without cutting a line: `p` is one of its
/// two ends, or the byte before it is a newline.
pub open spec fn aligned(buf: Seq<u8>, p: int) -> bool {
    &&& 0 <= p <= buf.len()
    &&& (p == 0 || p == buf.len() || buf[p - 1] == NEWLINE)
}

/// Before a newline, lines end where they would end if the buffer
/// stopped behind that newline.
proof fn lemma_line_end_take(buf: Seq<u8>, p: int, from: int)
    requires
        0 <= from < p <= buf.len(),
        buf[p - 1] == NEWLINE,
    ensures
        line_end(buf.take(p), from) == line_end(buf, from),
        line_end(buf, from) < p,
    decreases p - from,
{
    if buf[from] != NEWLINE {
        lemma_line_end_take(buf, p, from + 1);
    }
}

/// The lines from `from` on are those up to an aligned cut, then those
/// behind it.
proof fn lemma_lines_take(buf: Seq<u8>, p: int, from: int)
    requires
        aligned(buf, p),
        0 <= from <= p,
    ensures
        lines_from(buf, from) == lines_from(buf.take(p), from) + lines_from(buf, p),
    decreases p - from,
{
    let head = buf.take(p);
    if p == buf.len() {
        assert(head =~= buf);
        assert(lines_from(buf, from) + lines_from(buf, p) =~= lines_from(buf, from));
    } else if from == p {
        assert(lines_from(head, from) + lines_from(buf, p) =~= lines_from(buf, p));
    } else {
        lemma_line_end_take(buf, p, from);
        let end = line_end(buf, from);
        lemma_line_end(buf, from);
        lemma_lines_take(buf, p, end + 1);
        assert(head.subrange(from, end) =~= buf.subrange(from, end));
        if from < end {
            assert(lines_from(buf, from) =~= seq![buf.subrange(from, end)] + lines_from(
                buf,
                end + 1,
            ));
            if end + 1 < p {
                assert(lines_from(head, from) =~= seq![head.subrange(from, end)] + lines_from(
                    head,
                    end + 1,
                ));
            } else {
                assert(lines_from(head, end + 1) =~= Seq::<Seq<u8>>::empty());
            }
            assert(lines_from(buf, from) =~= lines_from(head, from) + lines_from(buf, p));
        } else {
            if end + 1 >= p {
                assert(lines_from(head, end + 1) =~= Seq::<Seq<u8>>::empty());
            }
        }
    }
}

/// Lines end at the same bytes when the start of the buffer is left out.
proof fn lemma_line_end_skip(buf: Seq<u8>, p: int, from: int)
    requires
        0 <= p <= from <= buf.len(),
    ensures
        line_end(buf.skip(p), from - p) == line_end(buf, from) - p,
    decreases buf.len() - from,
{
    if from < buf.len() && buf[from] != NEWLINE {
        lemma_line_end_skip(buf, p, from + 1);
    }
}

/// The lines from `from` on are the same when the start of the buffer is
/// left out.
proof fn lemma_lines_skip(buf: Seq<u8>, p: int, from: int)
    requires
        0 <= p <= from <= buf.len(),
    ensures
        lines_from(buf.skip(p), from - p) == lines_from(buf, from),
    decreases buf.len() - from,
{
    if from < buf.len() {
        lemma_line_end_skip(buf, p, from);
        lemma_line_end(buf, from);
        let end = line_end(buf, from);
        if end < buf.len() {
            lemma_lines_skip(buf, p, end + 1);
        }
        assert(buf.skip(p).subrange(from - p, end - p) =~= buf.subrange(from, end));
    }
}

/// A buffer cut at an aligned place has the lines of its first part,
/// then those of its second.
pub proof fn lemma_lines_split(buf: Seq<u8>, p: int)
    requires
        aligned(buf, p),
    ensures
        lines_of(buf) == lines_of(buf.take(p)) + lines_of(buf.skip(p)),
{
    lemma_lines_take(buf, p, 0);
    lemma_lines_skip(buf, p, p);
}

/// A cursor over the lines of a buffer. Each line is handed out once, as a
/// span of the buffer itself.
#[derive(Clone, Copy, Debug)]
pub struct Lines<'a> {
    buffer: &'a [u8],
    at: usize,
}

impl<'a> Lines<'a> {
    /// The cursor stands within its buffer.
    pub closed spec fn wf(&self) -> bool {
        self.at <= self.buffer@.len()
    }

    /// The buffer that is being split.
    pub closed spec fn source(&self) -> Seq<u8> {
        self.buffer@
    }

    /// How many bytes lie behind the cursor.
    pub closed spec fn consumed(&self) -> nat {
        self.at as nat
    }

    /// The lines that are still to come.
    pub closed spec fn rest(&self) -> Seq<Seq<u8>> {
        lines_from(self.buffer@, self.at as int)
    }

    /// A cursor at the start of the buffer.
    pub fn new(buffer: &'a [u8]) -> (lines: Lines<'a>)
        ensures
            lines.wf(),
            lines.source() == buffer@,
            lines.consumed() == 0,
            lines.rest() == lines_of(buffer@),
    {
        Lines { buffer, at: 0 }
    }

    /// The next line, without its newline, or `None` when no line is left.
    pub fn next_line(&mut self) -> (r: Option<&'a [u8]>)
        requires
            old(self).wf(),
        ensures
            final(self).wf(),
            final(self).source() == old(self).source(),
            old(self).consumed() <= final(self).consumed() <= final(self).source().len(),
            match r {
                Some(line) => {
                    &&& old(self).rest() == seq![line@] + final(self).rest()
                    &&& line@.len() > 0
                    &&& old(self).consumed() + line@.len() <= final(self).consumed()
                },
                None => old(self).rest().len() == 0 && final(self).rest().len() == 0,
            },
    {
        let buffer = self.buffer;
        let n = buffer.len();
        while self.at < n
            invariant
                n == buffer@.len(),
                self.buffer == buffer,
                old(self).buffer == buffer,
                old(self).at <= self.at <= n,
                lines_from(buffer@, self.at as int) == lines_from(buffer@, old(self).at as int),
            decreases n - self.at,
        {
            let start = self.at;
            let mut end = start;
            while end < n && buffer[end] != NEWLINE
                invariant
                    n == buffer@.len(),
                    start <= end <= n,
                    line_end(buffer@, end as int) == line_end(buffer@, start as int),
                decreases n - end,
            {
                end += 1;
            }
            proof {
                assert(line_end(buffer@, end as int) == end);
                if end == n {
                    assert(lines_from(buffer@, n as int) =~= Seq::<Seq<u8>>::empty());
                }
            }
            self.at = if end < n { end + 1 } else { end };
            if end > start {
                let line = slice_subrange(buffer, start, end);
                proof {
                    assert(line@ =~= buffer@.subrange(start as int, end as int));
                }
                return Some(line);
            }
        }
        None
    }
}

} // verus!
