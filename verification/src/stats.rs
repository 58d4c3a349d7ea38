//! The statistics of every station seen so far. The stations are kept in
//! ascending byte-wise order of their names, each name once.

use vstd::prelude::*;
use crate::acc::{lemma_absorb_sound, lemma_join_sound, lemma_single_sound, Acc, Summary};
use crate::decode::{is_record, measurement, record_name, record_value, Malformed, Measurement};
use crate::name::{lemma_precedes_asymmetric, lemma_precedes_transitive, precedes, rank, Rank};

verus! {

/// One station and its running statistics.
#[derive(Clone, Copy, Debug)]
pub struct Station<'a> {
    pub name: &'a [u8],
    pub acc: Acc,
}

/// The names stand in strictly ascending byte-wise order.
pub open spec fn ascending<'a>(entries: Seq<Station<'a>>) -> bool {
    forall|i: int, j: int|
        0 <= i < j < entries.len() ==> precedes(
            (#[trigger] entries[i]).name@,
            (#[trigger] entries[j]).name@,
        )
}

/// Some entry carries the name.
pub open spec fn holds<'a>(entries: Seq<Station<'a>>, name: Seq<u8>) -> bool {
    exists|i: int| 0 <= i < entries.len() && (#[trigger] entries[i]).name@ == name
}

/// Where the entry of a name stands.
pub open spec fn position<'a>(entries: Seq<Station<'a>>, name: Seq<u8>) -> int {
    choose|i: int| 0 <= i < entries.len() && (#[trigger] entries[i]).name@ == name
}

/// What a run of entries says: the summary of each name in it.
pub open spec fn model<'a>(entries: Seq<Station<'a>>) -> Map<Seq<u8>, Summary> {
    Map::new(|n: Seq<u8>| holds(entries, n), |n: Seq<u8>| entries[position(entries, n)].acc@)
}

/// The statistics after one more observation of `name`.
pub open spec fn observe(m: Map<Seq<u8>, Summary>, name: Seq<u8>, value: int) -> Map<
    Seq<u8>,
    Summary,
> {
    if m.contains_key(name) {
        m.insert(name, m[name].absorb(value))
    } else {
        m.insert(name, Summary::single(value))
    }
}

/// The statistics of two groups of observations taken together: a station
/// of both has its two summaries joined, a station of one keeps its own.
pub open spec fn combine(a: Map<Seq<u8>, Summary>, b: Map<Seq<u8>, Summary>) -> Map<
    Seq<u8>,
    Summary,
> {
    Map::new(
        |n: Seq<u8>| a.contains_key(n) || b.contains_key(n),
        |n: Seq<u8>|
            if a.contains_key(n) && b.contains_key(n) {
                a[n].join(b[n])
            } else if a.contains_key(n) {
                a[n]
            } else {
                b[n]
            },
    )
}

/// Every station has sound statistics: at least one observation, and a
/// mean between its extremes.
pub open spec fn all_sound(m: Map<Seq<u8>, Summary>) -> bool {
    forall|n: Seq<u8>| #[trigger] m.contains_key(n) ==> m[n].sound()
}

/// One more observation leaves every station with sound statistics.
pub proof fn lemma_observe_sound(m: Map<Seq<u8>, Summary>, name: Seq<u8>, value: int)
    requires
        all_sound(m),
    ensures
        all_sound(observe(m, name, value)),
{
    if m.contains_key(name) {
        lemma_absorb_sound(m[name], value);
    }
}

/// Statistics combined from sound ones are sound.
pub proof fn lemma_combine_sound(a: Map<Seq<u8>, Summary>, b: Map<Seq<u8>, Summary>)
    requires
        all_sound(a),
        all_sound(b),
    ensures
        all_sound(combine(a, b)),
{
    assert forall|n: Seq<u8>| #[trigger] combine(a, b).contains_key(n) implies combine(
        a,
        b,
    )[n].sound() by {
        if a.contains_key(n) && b.contains_key(n) {
            lemma_join_sound(a[n], b[n]);
        }
    }
}

/// Combining does not depend on the order of the two groups.
pub proof fn lemma_combine_commutative(a: Map<Seq<u8>, Summary>, b: Map<Seq<u8>, Summary>)
    ensures
        combine(a, b) == combine(b, a),
{
    assert(combine(a, b) =~= combine(b, a));
}

/// Combining does not depend on how three groups are paired.
pub proof fn lemma_combine_associative(
    a: Map<Seq<u8>, Summary>,
    b: Map<Seq<u8>, Summary>,
    c: Map<Seq<u8>, Summary>,
)
    ensures
        combine(combine(a, b), c) == combine(a, combine(b, c)),
{
    assert(combine(combine(a, b), c) =~= combine(a, combine(b, c)));
}

/// Combining with no statistics at all changes nothing.
pub proof fn lemma_combine_empty(a: Map<Seq<u8>, Summary>)
    ensures
        combine(a, Map::empty()) == a,
        combine(Map::empty(), a) == a,
{
    assert(combine(a, Map::empty()) =~= a);
    assert(combine(Map::empty(), a) =~= a);
}

/// An observation may be folded into the second group before combining,
/// or into the whole after it.
pub proof fn lemma_observe_combine(
    a: Map<Seq<u8>, Summary>,
    b: Map<Seq<u8>, Summary>,
    name: Seq<u8>,
    value: int,
)
    ensures
        observe(combine(a, b), name, value) == combine(a, observe(b, name, value)),
{
    assert(observe(combine(a, b), name, value) =~= combine(a, observe(b, name, value)));
}

/// In ascending entries a name stands at one place only.
pub proof fn lemma_position<'a>(entries: Seq<Station<'a>>, i: int)
    requires
        ascending(entries),
        0 <= i < entries.len(),
    ensures
        holds(entries, entries[i].name@),
        position(entries, entries[i].name@) == i,
        model(entries).contains_key(entries[i].name@),
        model(entries)[entries[i].name@] == entries[i].acc@,
{
    let j = position(entries, entries[i].name@);
    if j < i {
        lemma_precedes_asymmetric(entries[j].name@, entries[i].name@);
    } else if i < j {
        lemma_precedes_asymmetric(entries[i].name@, entries[j].name@);
    }
}

/// Replacing the statistics of the entry at `i` changes the model at its
/// name and nowhere else.
proof fn lemma_model_set<'a>(entries: Seq<Station<'a>>, i: int, st: Station<'a>)
    requires
        ascending(entries),
        0 <= i < entries.len(),
        st.name@ == entries[i].name@,
    ensures
        ascending(entries.update(i, st)),
        model(entries.update(i, st)) == model(entries).insert(st.name@, st.acc@),
{
    let after = entries.update(i, st);
    assert forall|p: int, q: int| 0 <= p < q < after.len() implies precedes(
        (#[trigger] after[p]).name@,
        (#[trigger] after[q]).name@,
    ) by {
        assert(after[p].name@ == entries[p].name@);
        assert(after[q].name@ == entries[q].name@);
    }
    let want = model(entries).insert(st.name@, st.acc@);
    assert forall|n: Seq<u8>| model(after).contains_key(n) == want.contains_key(n) by {
        if holds(after, n) {
            let p = position(after, n);
            assert(entries[p].name@ == n);
        }
        if holds(entries, n) {
            let p = position(entries, n);
            assert(after[p].name@ == n);
        }
        assert(after[i].name@ == st.name@);
    }
    assert forall|n: Seq<u8>| model(after).contains_key(n) implies model(after)[n] == want[n] by {
        let p = position(after, n);
        lemma_position(after, p);
        if p != i {
            assert(entries[p] == after[p]);
            lemma_position(entries, p);
            lemma_position(entries, i);
        }
    }
    assert(model(after) =~= want);
}

/// Putting a new name at its place keeps the order and adds it to the
/// model.
proof fn lemma_model_insert<'a>(entries: Seq<Station<'a>>, i: int, st: Station<'a>)
    requires
        ascending(entries),
        0 <= i <= entries.len(),
        forall|j: int| 0 <= j < i ==> precedes((#[trigger] entries[j]).name@, st.name@),
        forall|j: int| i <= j < entries.len() ==> precedes(st.name@, (#[trigger] entries[j]).name@),
    ensures
        ascending(entries.insert(i, st)),
        !holds(entries, st.name@),
        model(entries.insert(i, st)) == model(entries).insert(st.name@, st.acc@),
{
    let after = entries.insert(i, st);
    assert forall|p: int, q: int| 0 <= p < q < after.len() implies precedes(
        (#[trigger] after[p]).name@,
        (#[trigger] after[q]).name@,
    ) by {
        if p < i {
            assert(after[p] == entries[p]);
        } else if p > i {
            assert(after[p] == entries[p - 1]);
        }
        if q < i {
            assert(after[q] == entries[q]);
        } else if q > i {
            assert(after[q] == entries[q - 1]);
        }
    }
    if holds(entries, st.name@) {
        let p = position(entries, st.name@);
        if p < i {
            lemma_precedes_asymmetric(entries[p].name@, st.name@);
        } else {
            lemma_precedes_asymmetric(st.name@, entries[p].name@);
        }
    }
    let want = model(entries).insert(st.name@, st.acc@);
    assert forall|n: Seq<u8>| model(after).contains_key(n) == want.contains_key(n) by {
        if holds(after, n) {
            let p = position(after, n);
            if p < i {
                assert(entries[p].name@ == n);
            } else if p > i {
                assert(entries[p - 1].name@ == n);
            }
        }
        if holds(entries, n) {
            let p = position(entries, n);
            if p < i {
                assert(after[p].name@ == n);
            } else {
                assert(after[p + 1].name@ == n);
            }
        }
        assert(after[i].name@ == st.name@);
    }
    assert forall|n: Seq<u8>| model(after).contains_key(n) implies model(after)[n] == want[n] by {
        let p = position(after, n);
        lemma_position(after, p);
        if p < i {
            assert(entries[p] == after[p]);
            lemma_position(entries, p);
        } else if p > i {
            assert(entries[p - 1] == after[p]);
            lemma_position(entries, p - 1);
        }
    }
    assert(model(after) =~= want);
}

/// The statistics of every station seen so far, and how many observations
/// went into them.
#[derive(Debug)]
pub struct Stats<'a> {
    entries: Vec<Station<'a>>,
    observations: u64,
}

impl<'a> View for Stats<'a> {
    type V = Map<Seq<u8>, Summary>;

    closed spec fn view(&self) -> Map<Seq<u8>, Summary> {
        model(self.entries@)
    }
}

impl<'a> Stats<'a> {
    /// The stations stand in ascending order of their names, each once,
    /// each with sound statistics of no more observations than were folded
    /// in overall.
    pub closed spec fn wf(&self) -> bool {
        &&& ascending(self.entries@)
        &&& forall|i: int|
            0 <= i < self.entries@.len() ==> {
                &&& (#[trigger] self.entries@[i]).acc.wf()
                &&& self.entries@[i].acc.count <= self.observations
            }
    }

    /// The stations in ascending order of their names.
    pub closed spec fn stations(&self) -> Seq<Station<'a>> {
        self.entries@
    }

    /// How many observations were folded in.
    pub closed spec fn folded(&self) -> nat {
        self.observations as nat
    }

    /// No station yet.
    pub fn new() -> (stats: Stats<'a>)
        ensures
            stats.wf(),
            stats@ == Map::<Seq<u8>, Summary>::empty(),
            stats.stations().len() == 0,
            stats.folded() == 0,
    {
        let stats = Stats { entries: Vec::new(), observations: 0 };
        proof {
            assert(stats@ =~= Map::<Seq<u8>, Summary>::empty());
        }
        stats
    }

    /// What the order of the stations gives: each name stands once, with
    /// the statistics that the view has for it, and these are sound.
    pub proof fn lemma_stations(&self)
        requires
            self.wf(),
        ensures
            ascending(self.stations()),
            self@ == model(self.stations()),
            all_sound(self@),
            forall|i: int|
                0 <= i < self.stations().len() ==> {
                    &&& (#[trigger] self.stations()[i]).acc.wf()
                    &&& self.stations()[i].acc.count <= self.folded()
                    &&& self@.contains_key(self.stations()[i].name@)
                    &&& self@[self.stations()[i].name@] == self.stations()[i].acc@
                },
    {
        assert forall|i: int| 0 <= i < self.stations().len() implies {
            &&& self@.contains_key((#[trigger] self.stations()[i]).name@)
            &&& self@[self.stations()[i].name@] == self.stations()[i].acc@
        } by {
            lemma_position(self.entries@, i);
        }
        assert forall|n: Seq<u8>| #[trigger] self@.contains_key(n) implies self@[n].sound() by {
            lemma_position(self.entries@, position(self.entries@, n));
        }
    }

    /// How many stations were seen.
    pub fn len(&self) -> (n: usize)
        ensures
            n == self.stations().len(),
    {
        self.entries.len()
    }

    /// The station at place `i` of the ascending order.
    pub fn station(&self, i: usize) -> (st: Station<'a>)
        requires
            i < self.stations().len(),
        ensures
            st == self.stations()[i as int],
    {
        self.entries[i]
    }

    /// How many observations were folded in.
    pub fn observations(&self) -> (n: u64)
        ensures
            n == self.folded(),
    {
        self.observations
    }

    /// Where the name stands, or where it would have to be put.
    fn find(&self, name: &[u8]) -> (r: Result<usize, usize>)
        requires
            ascending(self.entries@),
        ensures
            match r {
                Ok(i) => i < self.entries@.len() && self.entries@[i as int].name@ == name@,
                Err(i) => {
                    &&& i <= self.entries@.len()
                    &&& forall|j: int|
                        0 <= j < i ==> precedes((#[trigger] self.entries@[j]).name@, name@)
                    &&& forall|j: int|
                        i <= j < self.entries@.len() ==> precedes(
                            name@,
                            (#[trigger] self.entries@[j]).name@,
                        )
                },
            },
    {
        let mut lo: usize = 0;
        let mut hi: usize = self.entries.len();
        while lo < hi
            invariant
                ascending(self.entries@),
                lo <= hi <= self.entries@.len(),
                forall|j: int| 0 <= j < lo ==> precedes((#[trigger] self.entries@[j]).name@, name@),
                forall|j: int|
                    hi <= j < self.entries@.len() ==> precedes(
                        name@,
                        (#[trigger] self.entries@[j]).name@,
                    ),
            decreases hi - lo,
        {
            let mid = lo + (hi - lo) / 2;
            match rank(self.entries[mid].name, name) {
                Rank::Same => {
                    return Ok(mid);
                },
                Rank::Before => {
                    proof {
                        assert forall|j: int| 0 <= j < mid + 1 implies precedes(
                            (#[trigger] self.entries@[j]).name@,
                            name@,
                        ) by {
                            if j < mid {
                                lemma_precedes_transitive(
                                    self.entries@[j].name@,
                                    self.entries@[mid as int].name@,
                                    name@,
                                );
                            }
                        }
                    }
                    lo = mid + 1;
                },
                Rank::After => {
                    proof {
                        assert forall|j: int| mid <= j < self.entries@.len() implies precedes(
                            name@,
                            (#[trigger] self.entries@[j]).name@,
                        ) by {
                            if mid < j {
                                lemma_precedes_transitive(
                                    name@,
                                    self.entries@[mid as int].name@,
                                    self.entries@[j].name@,
                                );
                            }
                        }
                    }
                    hi = mid;
                },
            }
        }
        Err(lo)
    }

    /// The statistics of a station, if it was seen.
    pub fn get(&self, name: &[u8]) -> (r: Option<Acc>)
        requires
            self.wf(),
        ensures
            r is Some <==> self@.contains_key(name@),
            r matches Some(acc) ==> acc@ == self@[name@] && acc.wf(),
    {
        match self.find(name) {
            Ok(i) => {
                proof {
                    lemma_position(self.entries@, i as int);
                }
                Some(self.entries[i].acc)
            },
            Err(i) => {
                proof {
                    lemma_absent(self.entries@, i as int, name@);
                }
                None
            },
        }
    }

    /// Folds one measurement in: a station seen before takes the value
    /// into its statistics, a new one starts with it.
    pub fn update(&mut self, item: Measurement<'a>)
        requires
            old(self).wf(),
            old(self).folded() < u64::MAX,
        ensures
            final(self).wf(),
            final(self)@ == observe(old(self)@, item.name@, item.value as int),
            final(self).folded() == old(self).folded() + 1,
    {
        let ghost before = self.entries@;
        match self.find(item.name) {
            Ok(i) => {
                let mut acc = self.entries[i].acc;
                acc.update(item.value);
                let st = Station { name: self.entries[i].name, acc };
                proof {
                    lemma_position(before, i as int);
                    lemma_model_set(before, i as int, st);
                }
                self.entries.set(i, st);
                proof {
                    assert forall|j: int| 0 <= j < self.entries@.len() implies {
                        &&& (#[trigger] self.entries@[j]).acc.wf()
                        &&& self.entries@[j].acc.count <= self.observations + 1
                    } by {
                        if j != i {
                            assert(self.entries@[j] == before[j]);
                        }
                    }
                }
            },
            Err(i) => {
                let fresh = Acc::from(item.value);
                let st = Station { name: item.name, acc: fresh };
                proof {
                    assert(fresh@ == Summary::single(item.value as int));
                    lemma_single_sound(item.value as int);
                    lemma_model_insert(before, i as int, st);
                }
                self.entries.insert(i, st);
                proof {
                    assert forall|j: int| 0 <= j < self.entries@.len() implies {
                        &&& (#[trigger] self.entries@[j]).acc.wf()
                        &&& self.entries@[j].acc.count <= self.observations + 1
                    } by {
                        if j < i {
                            assert(self.entries@[j] == before[j]);
                        } else if j > i {
                            assert(self.entries@[j] == before[j - 1]);
                        }
                    }
                }
            },
        }
        self.observations += 1;
    }
}

/// Decodes one line and folds it into the statistics.
pub fn process_line<'a>(stats: Stats<'a>, line: &'a [u8]) -> (r: Result<Stats<'a>, Malformed>)
    requires
        stats.wf(),
        stats.folded() < u64::MAX,
    ensures
        r is Ok <==> is_record(line@),
        r matches Ok(s) ==> {
            &&& s.wf()
            &&& s@ == observe(stats@, record_name(line@), record_value(line@))
            &&& s.folded() == stats.folded() + 1
        },
{
    let mut stats = stats;
    match measurement(line) {
        Ok(item) => {
            stats.update(item);
            Ok(stats)
        },
        Err(e) => Err(e),
    }
}

/// Folds the statistics of a second group of observations into those of a
/// first.
pub fn merge_dicts<'a>(map1: Stats<'a>, map2: Stats<'a>) -> (r: Stats<'a>)
    requires
        map1.wf(),
        map2.wf(),
        map1.folded() + map2.folded() <= u64::MAX,
    ensures
        r.wf(),
        r@ == combine(map1@, map2@),
        r.folded() == map1.folded() + map2.folded(),
{
    let ghost first = map1@;
    let ghost limit = map1.observations;
    let mut merged = map1;
    let mut i: usize = 0;
    proof {
        assert(map2.entries@.take(0) =~= Seq::<Station<'a>>::empty());
        assert(merged@ =~= combine(first, model(map2.entries@.take(0))));
    }
    while i < map2.entries.len()
        invariant
            i <= map2.entries@.len(),
            map2.wf(),
            limit + map2.observations <= u64::MAX,
            merged.observations == limit,
            ascending(merged.entries@),
            forall|j: int|
                0 <= j < merged.entries@.len() ==> {
                    &&& (#[trigger] merged.entries@[j]).acc.wf()
                    &&& merged.entries@[j].acc.count <= limit + map2.observations
                },
            forall|n: Seq<u8>| #[trigger] first.contains_key(n) ==> first[n].count <= limit,
            model(merged.entries@) == combine(first, model(map2.entries@.take(i as int))),
        decreases map2.entries@.len() - i,
    {
        let theirs = map2.entries[i];
        let ghost seen = map2.entries@.take(i as int);
        let ghost before = merged.entries@;
        proof {
            assert(ascending(seen));
            assert(map2.entries@.take(i + 1) =~= seen.insert(i as int, theirs));
            lemma_model_insert(seen, i as int, theirs);
            assert(!model(seen).contains_key(theirs.name@));
        }
        match merged.find(theirs.name) {
            Ok(j) => {
                let mut acc = merged.entries[j].acc;
                proof {
                    lemma_position(before, j as int);
                    assert(first.contains_key(theirs.name@));
                    assert(acc@ == first[theirs.name@]);
                }
                acc.add_assign(theirs.acc);
                let st = Station { name: merged.entries[j].name, acc };
                proof {
                    lemma_model_set(before, j as int, st);
                    assert(model(before).insert(st.name@, st.acc@) =~= combine(
                        first,
                        model(seen).insert(theirs.name@, theirs.acc@),
                    ));
                }
                merged.entries.set(j, st);
            },
            Err(j) => {
                proof {
                    lemma_model_insert(before, j as int, theirs);
                    assert(!model(before).contains_key(theirs.name@));
                    assert(!combine(first, model(seen)).contains_key(theirs.name@));
                    assert(!first.contains_key(theirs.name@));
                    assert(model(before).insert(theirs.name@, theirs.acc@) =~= combine(
                        first,
                        model(seen).insert(theirs.name@, theirs.acc@),
                    ));
                }
                merged.entries.insert(j, theirs);
            },
        }
        i += 1;
    }
    proof {
        assert(map2.entries@.take(i as int) =~= map2.entries@);
    }
    merged.observations = merged.observations + map2.observations;
    merged
}

/// A name that would have to be put at `i` is not among the entries.
proof fn lemma_absent<'a>(entries: Seq<Station<'a>>, i: int, name: Seq<u8>)
    requires
        0 <= i <= entries.len(),
        forall|j: int| 0 <= j < i ==> precedes((#[trigger] entries[j]).name@, name),
        forall|j: int| i <= j < entries.len() ==> precedes(name, (#[trigger] entries[j]).name@),
    ensures
        !holds(entries, name),
{
    if holds(entries, name) {
        let p = position(entries, name);
        if p < i {
            lemma_precedes_asymmetric(entries[p].name@, name);
        } else {
            lemma_precedes_asymmetric(name, entries[p].name@);
        }
    }
}

} // verus!
