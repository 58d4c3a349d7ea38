//! Cutting a buffer into parts that can be worked on independently: each
//! part ends where a line ends, so that no record lies in two parts.

use vstd::prelude::*;
use vstd::slice::slice_subrange;
use crate::ascii::NEWLINE;
use crate::lines::{aligned, lemma_line_end, lemma_lines_split, line_end, lines_of};

verus! {

/// The least length of a part, so that at most `parts` parts make up
/// `len` bytes: `len / parts`, rounded up.
pub open spec fn stride(len: nat, parts: nat) -> nat
    recommends
        parts > 0,
{
    if len % parts == 0 {
        len / parts
    } else {
        len / parts + 1
    }
}

/// The first place from `target` on at which the buffer may be cut.
pub open spec fn cut_after(buf: Seq<u8>, target: int) -> int {
    if target <= 0 {
        0
    } else if target >= buf.len() {
        buf.len() as int
    } else {
        let end = line_end(buf, target - 1);
        if end < buf.len() {
            end + 1
        } else {
            buf.len() as int
        }
    }
}

/// The parts of the buffer from `start` on: each goes on for `step` bytes
/// and then to the end of the line it is in.
pub open spec fn chunks_from(buf: Seq<u8>, start: int, step: int) -> Seq<Seq<u8>>
    decreases buf.len() - start,
{
    if start < 0 || start >= buf.len() || step <= 0 {
        Seq::empty()
    } else {
        let end = cut_after(buf, start + step);
        if start < end <= buf.len() {
            seq![buf.subrange(start, end)] + chunks_from(buf, end, step)
        } else {
            Seq::empty()
        }
    }
}

/// The buffer cut into at most `parts` parts of about the same length.
pub open spec fn chunks_of(buf: Seq<u8>, parts: nat) -> Seq<Seq<u8>>
    recommends
        parts > 0,
{
    chunks_from(buf, 0, stride(buf.len(), parts) as int)
}

/// The parts put together again.
pub open spec fn joined(chunks: Seq<Seq<u8>>) -> Seq<u8>
    decreases chunks.len(),
{
    if chunks.len() == 0 {
        Seq::empty()
    } else {
        joined(chunks.drop_last()) + chunks.last()
    }
}

/// The lines of the first part, then those of the second, and so on.
pub open spec fn lines_of_all(chunks: Seq<Seq<u8>>) -> Seq<Seq<u8>>
    decreases chunks.len(),
{
    if chunks.len() == 0 {
        Seq::empty()
    } else {
        lines_of_all(chunks.drop_last()) + lines_of(chunks.last())
    }
}

/// No part is empty, and each but the last ends with a newline.
pub open spec fn well_cut(chunks: Seq<Seq<u8>>) -> bool {
    &&& forall|i: int| 0 <= i < chunks.len() ==> (#[trigger] chunks[i]).len() > 0
    &&& forall|i: int| 0 <= i < chunks.len() - 1 ==> (#[trigger] chunks[i]).last() == NEWLINE
}

/// What a list of spans says: the bytes of each.
pub open spec fn spans_view<'a>(spans: Seq<&'a [u8]>) -> Seq<Seq<u8>> {
    Seq::new(spans.len(), |i: int| spans[i]@)
}

/// The cut lies at or behind its target, within the buffer, and cuts no
/// line.
pub proof fn lemma_cut_after(buf: Seq<u8>, target: int)
    requires
        0 < target,
    ensures
        aligned(buf, cut_after(buf, target)),
        target <= buf.len() ==> target <= cut_after(buf, target),
        target >= buf.len() ==> cut_after(buf, target) == buf.len(),
{
    if target < buf.len() {
        lemma_line_end(buf, target - 1);
    }
}

/// The lines of the first parts come first among the lines of all parts.
pub proof fn lemma_lines_of_all_take(chunks: Seq<Seq<u8>>, k: int)
    requires
        0 <= k <= chunks.len(),
    ensures
        lines_of_all(chunks.take(k)).len() <= lines_of_all(chunks).len(),
        lines_of_all(chunks.take(k)) == lines_of_all(chunks).take(
            lines_of_all(chunks.take(k)).len() as int,
        ),
        k < chunks.len() ==> lines_of_all(chunks.take(k + 1)) == lines_of_all(chunks.take(k))
            + lines_of(chunks[k]),
    decreases chunks.len() - k,
{
    if k == chunks.len() {
        assert(chunks.take(k) =~= chunks);
        assert(lines_of_all(chunks).take(lines_of_all(chunks).len() as int) =~= lines_of_all(
            chunks,
        ));
    } else {
        let next = chunks.take(k + 1);
        assert(next.drop_last() =~= chunks.take(k));
        assert(next.last() == chunks[k]);
        lemma_lines_of_all_take(chunks, k + 1);
        let all = lines_of_all(chunks);
        let upto = lines_of_all(next);
        assert(lines_of_all(chunks.take(k)) =~= all.take(lines_of_all(chunks.take(k)).len() as int))
            by {
            assert(upto == all.take(upto.len() as int));
        }
    }
}

/// Parts put together end as the last part ends.
proof fn lemma_joined_last(chunks: Seq<Seq<u8>>)
    requires
        chunks.len() > 0,
        chunks.last().len() > 0,
    ensures
        joined(chunks).len() > 0,
        joined(chunks).last() == chunks.last().last(),
{
}

/// Where no part cuts a line, the lines of the whole are the lines of
/// the parts, in order.
pub proof fn lemma_lines_of_joined(chunks: Seq<Seq<u8>>)
    requires
        well_cut(chunks),
    ensures
        lines_of(joined(chunks)) == lines_of_all(chunks),
    decreases chunks.len(),
{
    if chunks.len() > 0 {
        let front = chunks.drop_last();
        let head = joined(front);
        let whole = joined(chunks);
        assert(well_cut(front)) by {
            assert forall|i: int| 0 <= i < front.len() implies (#[trigger] front[i]).len() > 0 by {
                assert(front[i] == chunks[i]);
            }
            assert forall|i: int| 0 <= i < front.len() - 1 implies (#[trigger] front[i]).last()
                == NEWLINE by {
                assert(front[i] == chunks[i]);
            }
        }
        lemma_lines_of_joined(front);
        if front.len() > 0 {
            assert(front.last() == chunks[chunks.len() - 2]);
            lemma_joined_last(front);
            assert(whole[head.len() - 1] == head.last());
        }
        assert(aligned(whole, head.len() as int));
        lemma_lines_split(whole, head.len() as int);
        assert(whole.take(head.len() as int) =~= head);
        assert(whole.skip(head.len() as int) =~= chunks.last());
    }
}

/// The parts from an aligned place on make up the rest of the buffer, and
/// none cuts a line.
pub proof fn lemma_chunks_from(buf: Seq<u8>, start: int, step: int)
    requires
        0 <= start <= buf.len(),
        step > 0,
    ensures
        well_cut(chunks_from(buf, start, step)),
        joined(chunks_from(buf, start, step)) == buf.skip(start),
        (chunks_from(buf, start, step).len() - 1) * step < buf.len() - start || start
            == buf.len(),
        start == buf.len() ==> chunks_from(buf, start, step).len() == 0,
    decreases buf.len() - start,
{
    let chunks = chunks_from(buf, start, step);
    if start < buf.len() {
        lemma_cut_after(buf, start + step);
        let end = cut_after(buf, start + step);
        let first = buf.subrange(start, end);
        let others = chunks_from(buf, end, step);
        lemma_chunks_from(buf, end, step);
        assert(chunks =~= seq![first] + others);
        assert(aligned(buf, end));
        assert forall|i: int| 0 <= i < chunks.len() implies (#[trigger] chunks[i]).len() > 0 by {
            if i > 0 {
                assert(chunks[i] == others[i - 1]);
            }
        }
        assert forall|i: int| 0 <= i < chunks.len() - 1 implies (#[trigger] chunks[i]).last()
            == NEWLINE by {
            if i > 0 {
                assert(chunks[i] == others[i - 1]);
            } else {
                assert(others.len() > 0);
                assert(end < buf.len());
                assert(first.last() == buf[end - 1]);
            }
        }
        lemma_joined_front(first, others);
        assert(first + buf.skip(end) =~= buf.skip(start));
        assert((chunks.len() - 1) * step < buf.len() - start) by (nonlinear_arith)
            requires
                chunks.len() == others.len() + 1,
                (others.len() - 1) * step < buf.len() - end || end == buf.len(),
                end == buf.len() ==> others.len() == 0,
                start + step <= end || end == buf.len(),
                start < end <= buf.len(),
                step > 0,
        ;
    } else {
        assert(buf.skip(start) =~= Seq::<u8>::empty());
    }
}

/// Putting parts together may start with the first as well as end with
/// the last.
proof fn lemma_joined_front(first: Seq<u8>, others: Seq<Seq<u8>>)
    ensures
        joined(seq![first] + others) == first + joined(others),
    decreases others.len(),
{
    let all = seq![first] + others;
    if others.len() == 0 {
        assert(all.drop_last() =~= Seq::<Seq<u8>>::empty());
        assert(all.last() == first);
        assert(joined(all.drop_last()) =~= Seq::<u8>::empty());
        assert(joined(all) =~= first + joined(others));
    } else {
        assert(all.drop_last() =~= seq![first] + others.drop_last());
        lemma_joined_front(first, others.drop_last());
        assert(joined(all) =~= first + joined(others));
    }
}

/// The parts of a buffer make up the buffer, none cuts a line, and there
/// are no more of them than were asked for.
pub proof fn lemma_chunks_of(buf: Seq<u8>, parts: nat)
    requires
        parts > 0,
    ensures
        well_cut(chunks_of(buf, parts)),
        joined(chunks_of(buf, parts)) == buf,
        lines_of_all(chunks_of(buf, parts)) == lines_of(buf),
        chunks_of(buf, parts).len() <= parts,
{
    let step = stride(buf.len(), parts) as int;
    let chunks = chunks_of(buf, parts);
    if buf.len() == 0 {
        assert(chunks =~= Seq::<Seq<u8>>::empty());
        assert(joined(chunks) =~= buf);
    } else {
        assert(step > 0 && parts * step >= buf.len()) by (nonlinear_arith)
            requires
                parts > 0,
                buf.len() > 0,
                step == stride(buf.len(), parts),
        ;
        lemma_chunks_from(buf, 0, step);
        assert(buf.skip(0) =~= buf);
        assert(chunks.len() <= parts) by (nonlinear_arith)
            requires
                (chunks.len() - 1) * step < buf.len(),
                parts * step >= buf.len(),
                step > 0,
        ;
    }
    lemma_lines_of_joined(chunks);
}

/// Cuts the buffer into at most `parts` parts. Each part is a span of the
/// buffer and ends where a line ends.
pub fn partition<'a>(buffer: &'a [u8], parts: usize) -> (chunks: Vec<&'a [u8]>)
    requires
        parts > 0,
    ensures
        spans_view(chunks@) == chunks_of(buffer@, parts as nat),
        chunks@.len() <= parts,
{
    let n = buffer.len();
    proof {
        assert(n % parts != 0 ==> n / parts < n) by (nonlinear_arith)
            requires
                parts > 0,
                n >= 0,
        ;
    }
    let step = if n % parts == 0 { n / parts } else { n / parts + 1 };
    let mut chunks: Vec<&'a [u8]> = Vec::new();
    let mut start: usize = 0;
    proof {
        lemma_chunks_of(buffer@, parts as nat);
        assert(spans_view(chunks@) + chunks_from(buffer@, 0, step as int) =~= chunks_of(
            buffer@,
            parts as nat,
        ));
        if n > 0 {
            assert(step > 0) by (nonlinear_arith)
                requires
                    parts > 0,
                    n > 0,
                    step == stride(n as nat, parts as nat),
            ;
        }
    }
    while start < n
        invariant
            n == buffer@.len(),
            start <= n,
            n > 0 ==> step > 0,
            parts > 0,
            spans_view(chunks@) + chunks_from(buffer@, start as int, step as int) == chunks_of(
                buffer@,
                parts as nat,
            ),
        decreases n - start,
    {
        let target = if step >= n - start { n } else { start + step };
        let mut end = target;
        while end < n && buffer[end - 1] != NEWLINE
            invariant
                n == buffer@.len(),
                start < target <= end <= n,
                target < n ==> line_end(buffer@, end - 1) == line_end(buffer@, target - 1),
            decreases n - end,
        {
            end += 1;
        }
        proof {
            if target < n {
                lemma_line_end(buffer@, end - 1);
            }
            assert(end == cut_after(buffer@, start + step));
        }
        let chunk = slice_subrange(buffer, start, end);
        proof {
            assert(chunk@ =~= buffer@.subrange(start as int, end as int));
            assert(spans_view(chunks@.push(chunk)) =~= spans_view(chunks@).push(chunk@));
            assert(spans_view(chunks@).push(chunk@) + chunks_from(
                buffer@,
                end as int,
                step as int,
            ) =~= spans_view(chunks@) + chunks_from(buffer@, start as int, step as int));
        }
        chunks.push(chunk);
        start = end;
    }
    proof {
        assert(spans_view(chunks@) + chunks_from(buffer@, start as int, step as int)
            =~= spans_view(chunks@));
        assert(spans_view(chunks@).len() == chunks@.len());
    }
    chunks
}

} // verus!
