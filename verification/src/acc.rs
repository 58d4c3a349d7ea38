//! Running statistics of one station: least and greatest value, their sum
//! and how many there were. Values are temperatures in hundredths of a
//! degree.

use vstd::prelude::*;

verus! {

/// The mathematical content of an [`Acc`]: unbounded integers.
pub struct Summary {
    pub min: int,
    pub max: int,
    pub total: int,
    pub count: nat,
}

impl Summary {
    /// The summary of one observation.
    pub open spec fn single(v: int) -> Summary {
        Summary { min: v, max: v, total: v, count: 1 }
    }

    /// The summary after one more observation.
    pub open spec fn absorb(self, v: int) -> Summary {
        Summary {
            min: if v < self.min { v } else { self.min },
            max: if v > self.max { v } else { self.max },
            total: self.total + v,
            count: self.count + 1,
        }
    }

    /// The summary of two groups of observations taken together.
    pub open spec fn join(self, other: Summary) -> Summary {
        Summary {
            min: if other.min < self.min { other.min } else { self.min },
            max: if other.max > self.max { other.max } else { self.max },
            total: self.total + other.total,
            count: self.count + other.count,
        }
    }

    /// There is at least one observation and the mean lies between the
    /// extremes: `min <= total / count <= max`, stated without division.
    pub open spec fn sound(self) -> bool {
        &&& self.count >= 1
        &&& self.count * self.min <= self.total
        &&& self.total <= self.count * self.max
    }

    /// The summary of a non-empty run of observations, taken in order.
    pub open spec fn of(values: Seq<int>) -> Summary
        recommends
            values.len() >= 1,
        decreases values.len(),
    {
        if values.len() <= 1 {
            Summary::single(values[0])
        } else {
            Summary::of(values.drop_last()).absorb(values.last())
        }
    }
}

/// One observation is a sound summary.
pub proof fn lemma_single_sound(v: int)
    ensures
        Summary::single(v).sound(),
{
}

/// A sound summary stays sound under one more observation.
pub proof fn lemma_absorb_sound(s: Summary, v: int)
    requires
        s.sound(),
    ensures
        s.absorb(v).sound(),
{
    lemma_join_sound(s, Summary::single(v));
}

/// Joining two sound summaries gives a sound summary.
pub proof fn lemma_join_sound(a: Summary, b: Summary)
    requires
        a.sound(),
        b.sound(),
    ensures
        a.join(b).sound(),
{
    let j = a.join(b);
    assert(a.count * j.min <= a.count * a.min && b.count * j.min <= b.count * b.min
        && a.count * a.max <= a.count * j.max && b.count * b.max <= b.count * j.max
        && j.count * j.min == a.count * j.min + b.count * j.min
        && j.count * j.max == a.count * j.max + b.count * j.max) by (nonlinear_arith)
        requires
            j.min <= a.min,
            j.min <= b.min,
            a.max <= j.max,
            b.max <= j.max,
            j.count == a.count + b.count,
    ;
}

/// In a sound summary the extremes are in order, and the mean, rounded
/// down, lies between them.
pub proof fn lemma_sound_mean(s: Summary)
    requires
        s.sound(),
    ensures
        s.min <= s.max,
        s.min <= s.total / (s.count as int) <= s.max,
{
    let c = s.count as int;
    assert(s.min <= s.total / c <= s.max && s.min <= s.max) by (nonlinear_arith)
        requires
            c >= 1,
            c * s.min <= s.total,
            s.total <= c * s.max,
    ;
}

/// Taking one more observation is joining with its summary.
pub proof fn lemma_absorb_is_join(s: Summary, v: int)
    ensures
        s.absorb(v) == s.join(Summary::single(v)),
{
}

/// Joining does not depend on the order of its two arguments.
pub proof fn lemma_join_commutative(a: Summary, b: Summary)
    ensures
        a.join(b) == b.join(a),
{
}

/// Joining does not depend on how three summaries are grouped.
pub proof fn lemma_join_associative(a: Summary, b: Summary, c: Summary)
    ensures
        a.join(b).join(c) == a.join(b.join(c)),
{
}

/// The summary of a run of observations followed by another is the join of
/// their summaries.
pub proof fn lemma_of_concat(xs: Seq<int>, ys: Seq<int>)
    requires
        xs.len() >= 1,
        ys.len() >= 1,
    ensures
        Summary::of(xs + ys) == Summary::of(xs).join(Summary::of(ys)),
    decreases ys.len(),
{
    let all = xs + ys;
    assert(all.drop_last() =~= xs + ys.drop_last());
    assert(all.last() == ys.last());
    if ys.len() == 1 {
        assert(xs + ys.drop_last() =~= xs);
    } else {
        lemma_of_concat(xs, ys.drop_last());
    }
}

/// The summary of any non-empty run of observations is sound.
pub proof fn lemma_of_sound(values: Seq<int>)
    requires
        values.len() >= 1,
    ensures
        Summary::of(values).sound(),
        Summary::of(values).count == values.len(),
    decreases values.len(),
{
    if values.len() > 1 {
        lemma_of_sound(values.drop_last());
        lemma_absorb_sound(Summary::of(values.drop_last()), values.last());
    }
}

/// The summary of a run of observations has the least of them as its
/// minimum and the greatest as its maximum.
pub proof fn lemma_of_extremes(values: Seq<int>)
    requires
        values.len() >= 1,
    ensures
        forall|i: int|
            0 <= i < values.len() ==> Summary::of(values).min <= #[trigger] values[i]
                <= Summary::of(values).max,
        exists|i: int| 0 <= i < values.len() && #[trigger] values[i] == Summary::of(values).min,
        exists|i: int| 0 <= i < values.len() && #[trigger] values[i] == Summary::of(values).max,
    decreases values.len(),
{
    let s = Summary::of(values);
    if values.len() == 1 {
        assert(values[0] == s.min);
        assert(values[0] == s.max);
    } else {
        let front = values.drop_last();
        let last = values.len() - 1;
        lemma_of_extremes(front);
        let p = Summary::of(front);
        assert forall|i: int| 0 <= i < values.len() implies s.min <= #[trigger] values[i]
            <= s.max by {
            if i < last {
                assert(front[i] == values[i]);
            }
        }
        let lo = choose|i: int| 0 <= i < front.len() && #[trigger] front[i] == p.min;
        let hi = choose|i: int| 0 <= i < front.len() && #[trigger] front[i] == p.max;
        assert(values[lo] == front[lo]);
        assert(values[hi] == front[hi]);
        assert(values[lo] == s.min || values[last] == s.min);
        assert(values[hi] == s.max || values[last] == s.max);
    }
}

/// The running statistics of one station.
#[derive(Clone, Copy, Debug)]
pub struct Acc {
    pub min: i32,
    pub max: i32,
    pub total: i128,
    pub count: u64,
}

impl View for Acc {
    type V = Summary;

    open spec fn view(&self) -> Summary {
        Summary {
            min: self.min as int,
            max: self.max as int,
            total: self.total as int,
            count: self.count as nat,
        }
    }
}

/// Whatever the observations, a sound summary of at most `u64::MAX` values
/// of 32 bits has a sum that fits in 96 bits.
pub proof fn lemma_total_bounded(s: Summary)
    requires
        s.sound(),
        s.count <= u64::MAX,
        i32::MIN <= s.min,
        s.max <= i32::MAX,
    ensures
        -0x8000_0000_0000_0000_0000_0000 <= s.total <= 0x8000_0000_0000_0000_0000_0000,
{
    let c = s.count as int;
    assert(c * s.min >= -0x8000_0000_0000_0000_0000_0000 && c * s.max
        <= 0x8000_0000_0000_0000_0000_0000) by (nonlinear_arith)
        requires
            1 <= c <= 0xffff_ffff_ffff_ffff,
            -0x8000_0000 <= s.min,
            s.max <= 0x7fff_ffff,
            c * s.min <= c * s.max,
    ;
}

impl Acc {
    /// The record was built from observations: it counts at least one and
    /// its mean lies between its extremes.
    pub open spec fn wf(&self) -> bool {
        self@.sound()
    }

    /// Folds one more observation into the record.
    pub fn update(&mut self, item: i32)
        requires
            old(self).wf(),
            old(self).count < u64::MAX,
        ensures
            final(self)@ == old(self)@.absorb(item as int),
            final(self).wf(),
    {
        proof {
            lemma_total_bounded(self@);
            lemma_absorb_sound(self@, item as int);
        }
        if item > self.max {
            self.max = item;
        }
        if item < self.min {
            self.min = item;
        }
        self.total += item as i128;
        self.count += 1;
    }

    /// Folds another record of the same station into this one.
    pub fn add_assign(&mut self, rhs: Acc)
        requires
            old(self).wf(),
            rhs.wf(),
            old(self).count + rhs.count <= u64::MAX,
        ensures
            final(self)@ == old(self)@.join(rhs@),
            final(self).wf(),
    {
        proof {
            lemma_total_bounded(self@);
            lemma_total_bounded(rhs@);
            lemma_join_sound(self@, rhs@);
        }
        self.total += rhs.total;
        self.count += rhs.count;
        if rhs.min < self.min {
            self.min = rhs.min;
        }
        if rhs.max > self.max {
            self.max = rhs.max;
        }
    }
}

impl From<i32> for Acc {
    /// The record of a station seen once, with `value`.
    fn from(value: i32) -> (acc: Acc) {
        Acc { min: value, max: value, total: value as i128, count: 1 }
    }
}

impl vstd::std_specs::convert::FromSpecImpl<i32> for Acc {
    open spec fn obeys_from_spec() -> bool {
        true
    }

    open spec fn from_spec(value: i32) -> Acc {
        Acc { min: value, max: value, total: value as i128, count: 1 }
    }
}

} // verus!
