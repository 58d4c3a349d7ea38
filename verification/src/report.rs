//! The figures that are shown for a station, in tenths of a degree, and the
//! text of the summary.

use vstd::prelude::*;
use crate::acc::{lemma_total_bounded, Acc, Summary};
use crate::ascii::{CLOSING, COMMA, EQUALS, MINUS, OPENING, POINT, SLASH, SPACE, ZERO};
use crate::decode::{
    digits_start, is_digit, is_negative, is_reading, lemma_reading_range, lemma_separator,
    reading_value, record_value, splits_at,
};
use crate::name::{lemma_precedes_asymmetric, precedes};
use crate::rounding::{
    lemma_nearest_close, lemma_rounded_exact, lemma_rounded_mean_between, round_nearest, rounded,
};
use crate::stats::{holds, Stats};

verus! {

/// What is shown of a station once all its observations are in: least,
/// mean and greatest temperature, each in tenths of a degree.
#[derive(Clone, Copy, Debug, PartialEq, Eq, Structural)]
pub struct Final {
    pub min: i32,
    pub max: i32,
    pub avg: i32,
}

/// The figures of a summary: its extremes and its mean, each rounded from
/// hundredths of a degree to the nearest tenth.
pub open spec fn shown(s: Summary) -> Final {
    Final {
        min: rounded(s.min, 10) as i32,
        max: rounded(s.max, 10) as i32,
        avg: rounded(s.total, 10 * (s.count as int)) as i32,
    }
}

/// Rounding a value of 32 bits to tenths leaves it within 32 bits.
pub proof fn lemma_rounded_fits(v: int)
    requires
        i32::MIN <= v <= i32::MAX,
    ensures
        i32::MIN <= rounded(v, 10) <= i32::MAX,
{
    if v < 0 {
        lemma_nearest_close((-v) as nat, 10);
    } else {
        lemma_nearest_close(v as nat, 10);
    }
}

/// The figures of sound statistics are in order, and none of the three is
/// cut short by its 32 bits.
pub proof fn lemma_shown(acc: Acc)
    requires
        acc.wf(),
    ensures
        shown(acc@).min == rounded(acc@.min, 10),
        shown(acc@).max == rounded(acc@.max, 10),
        shown(acc@).avg == rounded(acc@.total, 10 * (acc@.count as int)),
        shown(acc@).min <= shown(acc@).avg <= shown(acc@).max,
{
    lemma_rounded_fits(acc@.min);
    lemma_rounded_fits(acc@.max);
    lemma_rounded_mean_between(acc@.min, acc@.max, acc@.total, acc@.count as int, 10);
}

impl Final {
    /// The figures of a station's statistics.
    pub fn from(value: Acc) -> (f: Final)
        requires
            value.wf(),
        ensures
            f == shown(value@),
            f.min <= f.avg <= f.max,
    {
        proof {
            lemma_shown(value);
            lemma_total_bounded(value@);
        }
        let min = round_nearest(value.min as i128, 10);
        let max = round_nearest(value.max as i128, 10);
        let avg = round_nearest(value.total, 10 * (value.count as u128));
        Final { min: min as i32, max: max as i32, avg: avg as i32 }
    }

    /// The figures as text: least, mean and greatest, with a slash
    /// between them.
    pub fn to_text(&self) -> (out: Vec<u8>)
        ensures
            out@ == final_text(*self),
    {
        let mut out: Vec<u8> = Vec::new();
        push_final(&mut out, *self);
        proof {
            assert(Seq::<u8>::empty() + final_text(*self) =~= final_text(*self));
        }
        out
    }
}

/// The decimal digits of a number, without leading zeros.
pub open spec fn decimal(n: nat) -> Seq<u8>
    decreases n,
{
    if n < 10 {
        seq![(ZERO + n) as u8]
    } else {
        decimal(n / 10).push((ZERO + n % 10) as u8)
    }
}

/// A temperature given in tenths of a degree, written with one digit after
/// the point, and a minus sign before it if it is below zero.
pub open spec fn tenths_text(t: int) -> Seq<u8> {
    let m = if t < 0 { -t } else { t };
    let sign = if t < 0 { seq![MINUS] } else { Seq::empty() };
    sign + decimal((m / 10) as nat) + seq![POINT, (ZERO + m % 10) as u8]
}

/// The three figures of a station: least, mean and greatest.
pub open spec fn final_text(f: Final) -> Seq<u8> {
    tenths_text(f.min as int) + seq![SLASH] + tenths_text(f.avg as int) + seq![SLASH]
        + tenths_text(f.max as int)
}

/// One station of the summary: its name and its figures.
pub open spec fn row_text(row: (Seq<u8>, Final)) -> Seq<u8> {
    row.0 + seq![EQUALS] + final_text(row.1)
}

/// The stations of the summary, in the order given, with a comma and a
/// blank between them.
pub open spec fn rows_text(rows: Seq<(Seq<u8>, Final)>) -> Seq<u8>
    decreases rows.len(),
{
    if rows.len() == 0 {
        Seq::empty()
    } else if rows.len() == 1 {
        row_text(rows[0])
    } else {
        rows_text(rows.drop_last()) + seq![COMMA, SPACE] + row_text(rows.last())
    }
}

/// The whole summary: the stations in braces.
pub open spec fn summary_text(rows: Seq<(Seq<u8>, Final)>) -> Seq<u8> {
    seq![OPENING] + rows_text(rows) + seq![CLOSING]
}

/// What a list of named figures says: the bytes of each name, and the
/// figures.
pub open spec fn rows_view<'a>(rows: Seq<(&'a [u8], Final)>) -> Seq<(Seq<u8>, Final)> {
    Seq::new(rows.len(), |i: int| (rows[i].0@, rows[i].1))
}

/// The reading is written as a temperature is shown: without a zero
/// before another digit of the whole part, and without a minus sign before
/// a zero value.
pub open spec fn is_plain(v: Seq<u8>) -> bool {
    let s = digits_start(v);
    &&& is_reading(v)
    &&& v.len() - s == 4 ==> v[s] != ZERO
    &&& is_negative(v) ==> reading_value(v) != 0
}

/// A station seen once is shown with its one value three times: as
/// least, as mean and as greatest.
pub proof fn lemma_single_shown(value: int)
    requires
        i32::MIN <= value <= i32::MAX,
        value % 10 == 0,
    ensures
        shown(Summary::single(value)).min == value / 10,
        shown(Summary::single(value)).avg == value / 10,
        shown(Summary::single(value)).max == value / 10,
{
    lemma_rounded_exact(value / 10, 10);
}

/// A plainly written reading is shown as it was written.
pub proof fn lemma_plain_shown(v: Seq<u8>)
    requires
        is_plain(v),
    ensures
        tenths_text(reading_value(v) / 10) == v,
{
    reveal_with_fuel(decimal, 3);
    let s = digits_start(v);
    let t = reading_value(v) / 10;
    assert(is_digit(v[s]));
    if v.len() - s == 4 {
        assert(is_digit(v[s + 1]));
    }
    assert(tenths_text(t) =~= v);
}

/// A record with a plainly written reading, taken alone, is shown with
/// that reading as least, mean and greatest temperature.
pub proof fn lemma_record_shown(line: Seq<u8>, k: int)
    requires
        splits_at(line, k),
        is_plain(line.skip(k + 1)),
    ensures
        final_text(shown(Summary::single(record_value(line)))) == line.skip(k + 1) + seq![SLASH]
            + line.skip(k + 1) + seq![SLASH] + line.skip(k + 1),
{
    let v = line.skip(k + 1);
    lemma_separator(line, k);
    lemma_reading_range(v);
    lemma_single_shown(reading_value(v));
    lemma_plain_shown(v);
}

/// The rows list the statistics: one row for each station, in strictly
/// ascending byte-wise order of the names, each with the figures of its
/// station.
pub open spec fn listed(m: Map<Seq<u8>, Summary>, rows: Seq<(Seq<u8>, Final)>) -> bool {
    &&& forall|i: int, j: int|
        0 <= i < j < rows.len() ==> precedes((#[trigger] rows[i]).0, (#[trigger] rows[j]).0)
    &&& forall|i: int|
        0 <= i < rows.len() ==> m.contains_key((#[trigger] rows[i]).0) && rows[i].1 == shown(
            m[rows[i].0],
        )
    &&& forall|n: Seq<u8>| #[trigger]
        m.contains_key(n) ==> exists|i: int| 0 <= i < rows.len() && (#[trigger] rows[i]).0 == n
}

/// The rows that list the statistics.
pub open spec fn listing(m: Map<Seq<u8>, Summary>) -> Seq<(Seq<u8>, Final)> {
    choose|rows: Seq<(Seq<u8>, Final)>| listed(m, rows)
}

/// Two lists of the same statistics agree on their first `i` names.
proof fn lemma_listed_names(
    m: Map<Seq<u8>, Summary>,
    a: Seq<(Seq<u8>, Final)>,
    b: Seq<(Seq<u8>, Final)>,
    i: int,
)
    requires
        listed(m, a),
        listed(m, b),
        0 <= i <= a.len(),
        i <= b.len(),
    ensures
        forall|k: int| 0 <= k < i ==> (#[trigger] a[k]).0 == b[k].0,
    decreases i,
{
    if i > 0 {
        lemma_listed_names(m, a, b, i - 1);
        let p = i - 1;
        assert(m.contains_key(a[p].0));
        let j = choose|j: int| 0 <= j < b.len() && (#[trigger] b[j]).0 == a[p].0;
        assert(m.contains_key(b[p].0));
        let h = choose|h: int| 0 <= h < a.len() && (#[trigger] a[h]).0 == b[p].0;
        if j < p {
            assert(a[j].0 == b[j].0);
            lemma_precedes_asymmetric(a[j].0, a[p].0);
        }
        if h < p {
            assert(a[h].0 == b[h].0);
            lemma_precedes_asymmetric(b[h].0, b[p].0);
        }
        if j > p {
            lemma_precedes_asymmetric(b[p].0, b[j].0);
            if h > p {
                lemma_precedes_asymmetric(a[p].0, a[h].0);
            }
        }
    }
}

/// The statistics have one list only.
pub proof fn lemma_listed_unique(
    m: Map<Seq<u8>, Summary>,
    a: Seq<(Seq<u8>, Final)>,
    b: Seq<(Seq<u8>, Final)>,
)
    requires
        listed(m, a),
        listed(m, b),
    ensures
        a == b,
{
    let n = if a.len() <= b.len() { a.len() as int } else { b.len() as int };
    lemma_listed_names(m, a, b, n);
    if a.len() < b.len() {
        assert(m.contains_key(b[n].0));
        let h = choose|h: int| 0 <= h < a.len() && (#[trigger] a[h]).0 == b[n].0;
        assert(a[h].0 == b[h].0);
        lemma_precedes_asymmetric(b[h].0, b[n].0);
    }
    if b.len() < a.len() {
        assert(m.contains_key(a[n].0));
        let h = choose|h: int| 0 <= h < b.len() && (#[trigger] b[h]).0 == a[n].0;
        assert(a[h].0 == b[h].0);
        lemma_precedes_asymmetric(a[h].0, a[n].0);
    }
    assert forall|k: int| 0 <= k < a.len() implies a[k] == b[k] by {
        assert(a[k].0 == b[k].0);
        assert(a[k].1 == shown(m[a[k].0]));
        assert(b[k].1 == shown(m[b[k].0]));
    }
    assert(a =~= b);
}

/// Rows that list the statistics are their listing.
pub proof fn lemma_listing(m: Map<Seq<u8>, Summary>, rows: Seq<(Seq<u8>, Final)>)
    requires
        listed(m, rows),
    ensures
        listing(m) == rows,
{
    lemma_listed_unique(m, listing(m), rows);
}

/// The figures of every station, in ascending byte-wise order of the
/// names.
pub fn results<'a>(stats: &Stats<'a>) -> (rows: Vec<(&'a [u8], Final)>)
    requires
        stats.wf(),
    ensures
        listed(stats@, rows_view(rows@)),
        rows_view(rows@) == listing(stats@),
{
    let mut rows: Vec<(&'a [u8], Final)> = Vec::new();
    let n = stats.len();
    let mut i: usize = 0;
    proof {
        stats.lemma_stations();
    }
    while i < n
        invariant
            stats.wf(),
            n == stats.stations().len(),
            i <= n,
            rows@.len() == i,
            forall|k: int|
                0 <= k < i ==> {
                    &&& (#[trigger] rows@[k]).0@ == stats.stations()[k].name@
                    &&& rows@[k].1 == shown(stats.stations()[k].acc@)
                },
        decreases n - i,
    {
        let st = stats.station(i);
        proof {
            stats.lemma_stations();
        }
        rows.push((st.name, Final::from(st.acc)));
        i += 1;
    }
    proof {
        stats.lemma_stations();
        let view = rows_view(rows@);
        let stations = stats.stations();
        assert forall|n: Seq<u8>| #[trigger] stats@.contains_key(n) implies exists|i: int|
            0 <= i < view.len() && (#[trigger] view[i]).0 == n by {
            assert(holds(stations, n));
            let p = choose|p: int| 0 <= p < stations.len() && (#[trigger] stations[p]).name@ == n;
            assert(view[p].0 == n);
        }
        assert forall|i: int, j: int| 0 <= i < j < view.len() implies precedes(
            (#[trigger] view[i]).0,
            (#[trigger] view[j]).0,
        ) by {
            assert(view[i].0 == stations[i].name@);
            assert(view[j].0 == stations[j].name@);
        }
        assert forall|i: int| 0 <= i < view.len() implies stats@.contains_key(
            (#[trigger] view[i]).0,
        ) && view[i].1 == shown(stats@[view[i].0]) by {
            assert(view[i].0 == stations[i].name@);
        }
        lemma_listing(stats@, view);
    }
    rows
}

/// The summary of the statistics: every station with its figures, in
/// ascending byte-wise order of the names.
pub fn report<'a>(stats: &Stats<'a>) -> (out: Vec<u8>)
    requires
        stats.wf(),
    ensures
        out@ == summary_text(listing(stats@)),
{
    let rows = results(stats);
    render(&rows)
}

/// Appends the decimal digits of `n`.
fn push_decimal(out: &mut Vec<u8>, n: u32)
    ensures
        final(out)@ == old(out)@ + decimal(n as nat),
    decreases n,
{
    if n >= 10 {
        push_decimal(out, n / 10);
    }
    out.push(ZERO + (n % 10) as u8);
    proof {
        assert(final(out)@ =~= old(out)@ + decimal(n as nat));
    }
}

/// Appends a temperature given in tenths of a degree.
fn push_tenths(out: &mut Vec<u8>, t: i32)
    ensures
        final(out)@ == old(out)@ + tenths_text(t as int),
{
    let m: u32 = if t < 0 {
        out.push(MINUS);
        (-(t as i64)) as u32
    } else {
        t as u32
    };
    push_decimal(out, m / 10);
    out.push(POINT);
    out.push(ZERO + (m % 10) as u8);
    proof {
        assert(final(out)@ =~= old(out)@ + tenths_text(t as int));
    }
}

/// Appends the three figures of a station.
fn push_final(out: &mut Vec<u8>, f: Final)
    ensures
        final(out)@ == old(out)@ + final_text(f),
{
    push_tenths(out, f.min);
    out.push(SLASH);
    push_tenths(out, f.avg);
    out.push(SLASH);
    push_tenths(out, f.max);
    proof {
        assert(final(out)@ =~= old(out)@ + final_text(f));
    }
}

/// The text of the summary: every station with its figures, in the order
/// given, between braces.
pub fn render(rows: &Vec<(&[u8], Final)>) -> (out: Vec<u8>)
    ensures
        out@ == summary_text(rows_view(rows@)),
{
    let mut out: Vec<u8> = Vec::new();
    out.push(OPENING);
    let ghost all = rows_view(rows@);
    let mut i: usize = 0;
    while i < rows.len()
        invariant
            i <= rows@.len(),
            all == rows_view(rows@),
            out@ == seq![OPENING] + rows_text(all.take(i as int)),
        decreases rows@.len() - i,
    {
        let ghost before = out@;
        if i > 0 {
            out.push(COMMA);
            out.push(SPACE);
        }
        let name = rows[i].0;
        let mut k: usize = 0;
        while k < name.len()
            invariant
                k <= name@.len(),
                out@ == before + (if i > 0 { seq![COMMA, SPACE] } else { Seq::empty() })
                    + name@.take(k as int),
            decreases name@.len() - k,
        {
            out.push(name[k]);
            proof {
                assert(name@.take(k + 1) =~= name@.take(k as int).push(name@[k as int]));
            }
            k += 1;
        }
        out.push(EQUALS);
        push_final(&mut out, rows[i].1);
        proof {
            assert(name@.take(k as int) =~= name@);
            let done = all.take(i as int);
            let next = all.take(i + 1);
            assert(next.drop_last() =~= done);
            assert(next.last() == (name@, rows@[i as int].1));
            assert(out@ =~= seq![OPENING] + rows_text(next));
        }
        i += 1;
    }
    out.push(CLOSING);
    proof {
        assert(all.take(i as int) =~= all);
    }
    out
}

} // verus!
