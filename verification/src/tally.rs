//! From a whole buffer to the statistics of its stations.

use rayon::iter::{IntoParallelRefIterator, ParallelIterator};
use vstd::prelude::*;
use crate::acc::Summary;
use crate::chunks::{lemma_chunks_of, lemma_lines_of_all_take, lines_of_all, partition, spans_view};
use crate::decode::{is_record, record_name, record_value, Malformed};
use crate::lines::{lemma_lines_from, lines_of, Lines};
use crate::report::{listing, report, summary_text};
use crate::stats::{
    all_sound, combine, lemma_combine_associative, lemma_combine_commutative, lemma_combine_empty,
    lemma_observe_combine, lemma_observe_sound, merge_dicts, observe, process_line, Stats,
};

verus! {

/// Every line is a record.
pub open spec fn all_records(lines: Seq<Seq<u8>>) -> bool {
    forall|i: int| 0 <= i < lines.len() ==> is_record(#[trigger] lines[i])
}

/// The statistics of a run of records, observed one after the other.
pub open spec fn tally(lines: Seq<Seq<u8>>) -> Map<Seq<u8>, Summary>
    decreases lines.len(),
{
    if lines.len() == 0 {
        Map::empty()
    } else {
        observe(tally(lines.drop_last()), record_name(lines.last()), record_value(lines.last()))
    }
}

/// The values that a run of records states for one station, in order.
pub open spec fn values_of(lines: Seq<Seq<u8>>, name: Seq<u8>) -> Seq<int>
    decreases lines.len(),
{
    if lines.len() == 0 {
        Seq::empty()
    } else {
        let before = values_of(lines.drop_last(), name);
        if record_name(lines.last()) == name {
            before.push(record_value(lines.last()))
        } else {
            before
        }
    }
}

/// The statistics hold the stations that the records name, each with the
/// summary of the values stated for it.
pub proof fn lemma_tally_station(lines: Seq<Seq<u8>>, name: Seq<u8>)
    ensures
        tally(lines).contains_key(name) <==> values_of(lines, name).len() > 0,
        tally(lines).contains_key(name) ==> tally(lines)[name] == Summary::of(
            values_of(lines, name),
        ),
    decreases lines.len(),
{
    if lines.len() > 0 {
        lemma_tally_station(lines.drop_last(), name);
        let before = values_of(lines.drop_last(), name);
        if record_name(lines.last()) == name {
            let now = before.push(record_value(lines.last()));
            assert(now.drop_last() =~= before);
        }
    }
}

/// The statistics of a run of records followed by another are those of the
/// two runs combined.
pub proof fn lemma_tally_concat(xs: Seq<Seq<u8>>, ys: Seq<Seq<u8>>)
    ensures
        tally(xs + ys) == combine(tally(xs), tally(ys)),
    decreases ys.len(),
{
    if ys.len() == 0 {
        assert(xs + ys =~= xs);
        lemma_combine_empty(tally(xs));
    } else {
        let all = xs + ys;
        assert(all.drop_last() =~= xs + ys.drop_last());
        assert(all.last() == ys.last());
        lemma_tally_concat(xs, ys.drop_last());
        lemma_observe_combine(
            tally(xs),
            tally(ys.drop_last()),
            record_name(ys.last()),
            record_value(ys.last()),
        );
    }
}

/// The statistics of several groups of records, each group taken on its
/// own and the results combined in the order of the groups.
pub open spec fn tally_each(groups: Seq<Seq<Seq<u8>>>) -> Map<Seq<u8>, Summary>
    decreases groups.len(),
{
    if groups.len() == 0 {
        Map::empty()
    } else {
        combine(tally_each(groups.drop_last()), tally(groups.last()))
    }
}

/// Records taken group by group give the statistics of all of them taken
/// in one run.
pub proof fn lemma_tally_each(groups: Seq<Seq<Seq<u8>>>)
    ensures
        tally_each(groups) == tally(groups.flatten_alt()),
    decreases groups.len(),
{
    if groups.len() > 0 {
        lemma_tally_each(groups.drop_last());
        lemma_tally_concat(groups.drop_last().flatten_alt(), groups.last());
    }
}

/// Whatever the records, every station of their statistics has at least
/// one observation and a mean between its extremes.
pub proof fn lemma_tally_sound(lines: Seq<Seq<u8>>)
    ensures
        all_sound(tally(lines)),
    decreases lines.len(),
{
    if lines.len() > 0 {
        lemma_tally_sound(lines.drop_last());
        lemma_observe_sound(
            tally(lines.drop_last()),
            record_name(lines.last()),
            record_value(lines.last()),
        );
    }
}

/// The statistics do not depend on the order of the records: two runs
/// that hold the same records equally often give the same statistics.
pub proof fn lemma_tally_reordered(xs: Seq<Seq<u8>>, ys: Seq<Seq<u8>>)
    requires
        xs.to_multiset() == ys.to_multiset(),
    ensures
        tally(xs) == tally(ys),
    decreases xs.len(),
{
    broadcast use vstd::seq_lib::group_to_multiset_ensures;

    xs.to_multiset_ensures();
    ys.to_multiset_ensures();
    if xs.len() == 0 {
        assert(ys.len() == 0);
        assert(xs =~= ys);
    } else {
        let l = xs.last();
        assert(xs.to_multiset().count(l) > 0);
        assert(ys.contains(l));
        let k = choose|k: int| 0 <= k < ys.len() && ys[k] == l;
        let head = ys.take(k);
        let tail = ys.skip(k + 1);
        let one = seq![l];
        assert(ys =~= head + one + tail);
        assert(ys.remove(k) =~= head + tail);
        assert(xs.drop_last() =~= xs.remove(xs.len() - 1));
        assert(xs.drop_last().to_multiset() =~= xs.to_multiset().remove(l));
        assert(ys.remove(k).to_multiset() =~= ys.to_multiset().remove(l));
        lemma_tally_reordered(xs.drop_last(), head + tail);
        assert(xs =~= xs.drop_last() + one);
        lemma_tally_concat(xs.drop_last(), one);
        lemma_tally_concat(head, tail);
        lemma_tally_concat(head + one, tail);
        lemma_tally_concat(head, one);
        lemma_combine_commutative(tally(one), tally(tail));
        lemma_combine_associative(tally(head), tally(one), tally(tail));
        lemma_combine_associative(tally(head), tally(tail), tally(one));
    }
}

/// What taking the statistics of a buffer gives: a failure if some line
/// is no record, else the statistics of its lines, with one observation
/// folded in for each line.
pub open spec fn aggregated<'a>(buf: Seq<u8>, r: Result<Stats<'a>, Malformed>) -> bool {
    &&& r is Ok <==> all_records(lines_of(buf))
    &&& r matches Ok(stats) ==> {
        &&& stats.wf()
        &&& stats@ == tally(lines_of(buf))
        &&& stats.folded() == lines_of(buf).len()
    }
}

/// The statistics of every station in the buffer, its lines taken in
/// order. One line that is no record fails the whole.
pub fn aggregate<'a>(buffer: &'a [u8]) -> (r: Result<Stats<'a>, Malformed>)
    ensures
        aggregated(buffer@, r),
{
    let mut lines = Lines::new(buffer);
    let mut stats = Stats::new();
    let ghost mut done: Seq<Seq<u8>> = Seq::empty();
    proof {
        assert(done + lines.rest() =~= lines_of(buffer@));
    }
    loop
        invariant
            lines.wf(),
            lines.source() == buffer@,
            done + lines.rest() == lines_of(buffer@),
            all_records(done),
            stats.wf(),
            stats@ == tally(done),
            stats.folded() == done.len(),
            done.len() <= lines.consumed() <= buffer@.len() == buffer.len(),
        decreases buffer@.len() - lines.consumed(), lines.rest().len(),
    {
        let ghost before = lines.rest();
        match lines.next_line() {
            None => {
                proof {
                    assert(done + before =~= done);
                }
                return Ok(stats);
            },
            Some(line) => {
                proof {
                    assert(done.push(line@) + lines.rest() =~= done + before);
                    assert(done.push(line@).drop_last() =~= done);
                    assert((done + before)[done.len() as int] == line@);
                }
                match process_line(stats, line) {
                    Ok(next) => {
                        stats = next;
                    },
                    Err(e) => {
                        return Err(e);
                    },
                }
                proof {
                    done = done.push(line@);
                }
            },
        }
    }
}

/// Takes the statistics of each part on its own, the parts handed out to
/// the threads of rayon's pool: `par_iter`, `map` and `collect` of rayon,
/// with [`aggregate`] as the function that is mapped. Believed of them, not
/// proved: the vector that is collected has one result for each part, in
/// the order of the parts, and each is what the mapped function returned for
/// its part.
#[verifier::external_body]
fn aggregate_each<'a>(chunks: &Vec<&'a [u8]>) -> (each: Vec<Result<Stats<'a>, Malformed>>)
    ensures
        each@.len() == chunks@.len(),
        forall|i: int| 0 <= i < chunks@.len() ==> aggregated(chunks@[i]@, #[trigger] each@[i]),
{
    chunks.par_iter().map(|chunk| aggregate(chunk)).collect()
}

/// The statistics of every station in the buffer, worked out in parallel:
/// the buffer is cut into at most `parts` parts, each has its own
/// statistics taken, and these are merged. The result is that of
/// [`aggregate`] on the whole buffer.
pub fn aggregate_parts<'a>(buffer: &'a [u8], parts: usize) -> (r: Result<Stats<'a>, Malformed>)
    requires
        parts > 0,
    ensures
        aggregated(buffer@, r),
{
    let chunks = partition(buffer, parts);
    let each = aggregate_each(&chunks);
    let ghost cut = spans_view(chunks@);
    let ghost all = lines_of(buffer@);
    let ghost results = each@;
    proof {
        lemma_chunks_of(buffer@, parts as nat);
        lemma_lines_from(buffer@, 0);
        assert(cut.take(0) =~= Seq::<Seq<u8>>::empty());
    }
    let mut merged = Stats::new();
    for part in it: each
        invariant
            it.seq() == results,
            results.len() == cut.len(),
            forall|i: int| 0 <= i < cut.len() ==> aggregated(cut[i], #[trigger] results[i]),
            all == lines_of_all(cut),
            all == lines_of(buffer@),
            all.len() <= buffer.len(),
            merged.wf(),
            merged@ == tally(lines_of_all(cut.take(it.index() as int))),
            merged.folded() == lines_of_all(cut.take(it.index() as int)).len(),
            all_records(lines_of_all(cut.take(it.index() as int))),
    {
        let ghost i = it.index() as int;
        let ghost done = lines_of_all(cut.take(i));
        let ghost here = lines_of(cut[i]);
        proof {
            lemma_lines_of_all_take(cut, i);
            lemma_lines_of_all_take(cut, i + 1);
            lemma_tally_concat(done, here);
            assert forall|k: int| 0 <= k < here.len() implies here[k] == all[done.len() + k] by {
                assert((done + here)[done.len() + k] == here[k]);
            }
        }
        match part {
            Ok(stats) => {
                merged = merge_dicts(merged, stats);
            },
            Err(e) => {
                proof {
                    let k = choose|k: int| 0 <= k < here.len() && !is_record(#[trigger] here[k]);
                    assert(done.len() + here.len() <= all.len());
                    assert(!is_record(all[done.len() + k]));
                }
                return Err(e);
            },
        }
    }
    proof {
        assert(cut.take(cut.len() as int) =~= cut);
    }
    Ok(merged)
}

/// The summary of a buffer as text: every station with its least, mean
/// and greatest temperature, in ascending byte-wise order of the names.
pub fn summarize(buffer: &[u8]) -> (r: Result<Vec<u8>, Malformed>)
    ensures
        r is Ok <==> all_records(lines_of(buffer@)),
        r matches Ok(text) ==> text@ == summary_text(listing(tally(lines_of(buffer@)))),
{
    match aggregate(buffer) {
        Ok(stats) => Ok(report(&stats)),
        Err(e) => Err(e),
    }
}

} // verus!
