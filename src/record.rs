//! Case records, the record set, and views over it.
use crate::calendar::{Date, Time};
use vstd::prelude::*;

verus! {

/// One anaesthesia case.
pub struct AdverseEventRecord {
    pub date: Date,
    pub mrn: String,
    pub episode_id: String,
    pub patient_name: String,
    pub diagnosis: String,
    pub procedure: String,
    pub anesthesiologist: String,
    pub anesthesia_staff: Vec<String>,
    pub location: String,
    /// `Some(true)` or `Some(false)` where complications were recorded as
    /// occurring or not, `None` where nothing was recorded.
    pub complications: Option<bool>,
    pub adverse_events: Vec<String>,
    pub asa: u8,
    pub an_start: Time,
    pub an_stop: Time,
    pub smoker: bool,
    /// Age in whole years.
    pub age: u8,
    /// Body-mass index, truncated to whole units.
    pub bmi: u32,
}

/// Whether `name` is one of the strings in `list`.
pub open spec fn contains_name(list: Seq<String>, name: Seq<char>) -> bool {
    exists|j: int| 0 <= j < list.len() && #[trigger] list[j]@ == name
}

/// Whether `name` is one of the adverse events of `r`.
pub open spec fn has_event(r: &AdverseEventRecord, name: Seq<char>) -> bool {
    contains_name(r.adverse_events@, name)
}

pub open spec fn has_any_event(r: &AdverseEventRecord) -> bool {
    r.adverse_events@.len() > 0
}

/// `f` can be called on every record and gives one answer for each.
pub open spec fn is_record_predicate<F: Fn(&AdverseEventRecord) -> bool>(f: F) -> bool {
    &&& forall|r: &AdverseEventRecord| #[trigger] f.requires((r,))
    &&& forall|r: &AdverseEventRecord, b1: bool, b2: bool|
        #![trigger f.ensures((r,), b1), f.ensures((r,), b2)]
        f.ensures((r,), b1) && f.ensures((r,), b2) ==> b1 == b2
}

/// The records on which `f` answers `true`, in their order.
pub open spec fn selected<F: Fn(&AdverseEventRecord) -> bool>(
    records: Seq<&AdverseEventRecord>,
    f: F,
) -> Seq<&AdverseEventRecord> {
    records.filter(|x: &AdverseEventRecord| f.ensures((x,), true))
}

/// `f` was asked about each of `records` and gave an answer.
pub open spec fn answered<F: Fn(&AdverseEventRecord) -> bool>(
    f: F,
    records: Seq<&AdverseEventRecord>,
) -> bool {
    forall|i: int|
        0 <= i < records.len() ==> #[trigger] f.ensures((records[i],), true) || f.ensures(
            (records[i],),
            false,
        )
}

/// Filters by two predicates that agree on every element are equal.
pub proof fn lemma_filter_agree<A>(s: Seq<A>, p: spec_fn(A) -> bool, q: spec_fn(A) -> bool)
    requires
        forall|i: int| 0 <= i < s.len() ==> p(#[trigger] s[i]) == q(s[i]),
    ensures
        s.filter(p) == s.filter(q),
    decreases s.len(),
{
    reveal(Seq::filter);
    if s.len() > 0 {
        let t = s.drop_last();
        assert forall|i: int| 0 <= i < t.len() implies p(#[trigger] t[i]) == q(t[i]) by {
            assert(t[i] == s[i]);
        }
        lemma_filter_agree(t, p, q);
        assert(p(s[s.len() - 1]) == q(s[s.len() - 1]));
    }
}

/// What `selected` keeps by `f` is what `filter` keeps by `p`, where `f`
/// answers as `p` does.
pub proof fn lemma_selected_by<F: Fn(&AdverseEventRecord) -> bool>(
    records: Seq<&AdverseEventRecord>,
    f: F,
    p: spec_fn(&AdverseEventRecord) -> bool,
)
    requires
        is_record_predicate(f),
        answered(f, records),
        forall|x: &AdverseEventRecord, b: bool| f.ensures((x,), b) ==> b == p(x),
    ensures
        selected(records, f) == records.filter(p),
{
    assert forall|i: int| 0 <= i < records.len() implies (|x: &AdverseEventRecord|
        f.ensures((x,), true))(#[trigger] records[i]) == p(records[i]) by {
        if f.ensures((records[i],), false) {
            assert(!p(records[i]));
        }
    }
    lemma_filter_agree(records, |x: &AdverseEventRecord| f.ensures((x,), true), p);
}

/// Keeping the records with an adverse event a second time keeps them all.
pub proof fn lemma_with_any_event_idempotent(records: Seq<&AdverseEventRecord>)
    ensures
        records.filter(|x: &AdverseEventRecord| has_any_event(x)).filter(
            |x: &AdverseEventRecord| has_any_event(x),
        ) == records.filter(|x: &AdverseEventRecord| has_any_event(x)),
{
    broadcast use vstd::seq_lib::group_filter_ensures;

    let once = records.filter(|x: &AdverseEventRecord| has_any_event(x));
    lemma_filter_agree(once, |x: &AdverseEventRecord| has_any_event(x), |x: &AdverseEventRecord| true);
    lemma_filter_true(once);
}

/// Keeping every element keeps the sequence.
pub proof fn lemma_filter_true<A>(s: Seq<A>)
    ensures
        s.filter(|x: A| true) == s,
    decreases s.len(),
{
    reveal(Seq::filter);
    if s.len() > 0 {
        lemma_filter_true(s.drop_last());
    }
}

pub fn contains_string(list: &Vec<String>, name: &String) -> (r: bool)
    ensures
        r == contains_name(list@, name@),
{
    let mut i: usize = 0;
    while i < list.len()
        invariant
            i <= list@.len(),
            forall|j: int| 0 <= j < i ==> list@[j]@ != name@,
        decreases list@.len() - i,
    {
        if list[i] == *name {
            return true;
        }
        i = i + 1;
    }
    false
}

/// The views of the strings of `list`.
pub open spec fn names_of(list: Seq<String>) -> Seq<Seq<char>> {
    list.map_values(|s: String| s@)
}

/// The names of the adverse events of `records`, record after record, each
/// record's in its order: one entry for each (record, event) pair.
pub open spec fn event_names(records: Seq<&AdverseEventRecord>) -> Seq<Seq<char>>
    decreases records.len(),
{
    if records.len() == 0 {
        Seq::empty()
    } else {
        event_names(records.drop_last()) + names_of(records.last().adverse_events@)
    }
}

/// How many times `name` occurs in `names`.
pub open spec fn occurrences(names: Seq<Seq<char>>, name: Seq<char>) -> nat {
    names.filter(|n: Seq<char>| n == name).len()
}

/// The sum of `s`.
pub open spec fn sum_of(s: Seq<usize>) -> int
    decreases s.len(),
{
    if s.len() == 0 {
        0
    } else {
        sum_of(s.drop_last()) + s.last()
    }
}

proof fn lemma_occurrences_push(names: Seq<Seq<char>>, x: Seq<char>, name: Seq<char>)
    ensures
        occurrences(names.push(x), name) == occurrences(names, name) + (if x == name {
            1int
        } else {
            0int
        }),
{
    reveal(Seq::filter);
    assert(names.push(x).drop_last() == names);
}

proof fn lemma_sum_update(s: Seq<usize>, j: int, v: usize)
    requires
        0 <= j < s.len(),
    ensures
        sum_of(s.update(j, v)) == sum_of(s) - s[j] + v,
    decreases s.len(),
{
    if j < s.len() - 1 {
        lemma_sum_update(s.drop_last(), j, v);
        assert(s.update(j, v).drop_last() == s.drop_last().update(j, v));
    } else {
        assert(s.update(j, v).drop_last() == s.drop_last());
    }
}

proof fn lemma_sum_bounds(s: Seq<usize>, j: int)
    requires
        0 <= j < s.len(),
    ensures
        s[j] <= sum_of(s),
    decreases s.len(),
{
    if j < s.len() - 1 {
        lemma_sum_bounds(s.drop_last(), j);
    }
    lemma_sum_nonneg(s.drop_last());
}

proof fn lemma_sum_nonneg(s: Seq<usize>)
    ensures
        sum_of(s) >= 0,
    decreases s.len(),
{
    if s.len() > 0 {
        lemma_sum_nonneg(s.drop_last());
    }
}

proof fn lemma_event_names_prefix(records: Seq<&AdverseEventRecord>, i: int)
    requires
        0 <= i <= records.len(),
    ensures
        event_names(records.subrange(0, i)).len() <= event_names(records).len(),
    decreases records.len(),
{
    if i < records.len() {
        let t = records.drop_last();
        assert(t.subrange(0, i) == records.subrange(0, i));
        lemma_event_names_prefix(t, i);
    } else {
        assert(records.subrange(0, i) == records);
    }
}

/// The record set: every record of one ingestion, owned.
pub struct AdverseEvents {
    pub records: Vec<AdverseEventRecord>,
}

impl AdverseEvents {
    pub fn new() -> (r: Self)
        ensures
            r.records@.len() == 0,
    {
        AdverseEvents { records: Vec::new() }
    }

    /// A view of every record of the set, in order.
    pub fn view(&self) -> (r: AdverseEventsView<'_>)
        ensures
            r.records@.len() == self.records@.len(),
            forall|i: int| 0 <= i < self.records@.len() ==> *r.records@[i] == self.records@[i],
    {
        let mut out: Vec<&AdverseEventRecord> = Vec::new();
        let mut i: usize = 0;
        while i < self.records.len()
            invariant
                i <= self.records@.len(),
                out@.len() == i,
                forall|j: int| 0 <= j < i ==> *out@[j] == self.records@[j],
            decreases self.records@.len() - i,
        {
            out.push(&self.records[i]);
            i = i + 1;
        }
        AdverseEventsView { records: out }
    }
}

/// An ordered selection of the records of a set, by reference.
pub struct AdverseEventsView<'a> {
    pub records: Vec<&'a AdverseEventRecord>,
}

impl<'a> AdverseEventsView<'a> {
    pub fn empty() -> (r: Self)
        ensures
            r.records@.len() == 0,
    {
        AdverseEventsView { records: Vec::new() }
    }

    pub fn len(&self) -> (r: usize)
        ensures
            r == self.records@.len(),
    {
        self.records.len()
    }

    /// How many times each adverse event occurs over the records: one entry
    /// for each event name that occurs, in order of first occurrence. A
    /// record counts once for each of its events, so that the counts add up
    /// to the number of (record, event) pairs.
    pub fn event_counts(&self) -> (r: Vec<(String, usize)>)
        requires
            event_names(self.records@).len() <= usize::MAX,
        ensures
            forall|i: int, j: int| 0 <= i < j < r@.len() ==> r@[i].0@ != r@[j].0@,
            forall|i: int|
                0 <= i < r@.len() ==> #[trigger] r@[i].1 == occurrences(
                    event_names(self.records@),
                    r@[i].0@,
                ),
            forall|name: Seq<char>|
                occurrences(event_names(self.records@), name) > 0 ==> exists|i: int|
                    0 <= i < r@.len() && #[trigger] r@[i].0@ == name,
            forall|i: int| 0 <= i < r@.len() ==> #[trigger] r@[i].1 > 0,
            sum_of(r@.map_values(|e: (String, usize)| e.1)) == event_names(self.records@).len(),
    {
        let ghost all = event_names(self.records@);
        let mut names: Vec<String> = Vec::new();
        let mut counts: Vec<usize> = Vec::new();
        let mut i: usize = 0;
        proof {
            assert(self.records@.subrange(0, 0) =~= Seq::<&AdverseEventRecord>::empty());
        }
        while i < self.records.len()
            invariant
                i <= self.records@.len(),
                all == event_names(self.records@),
                all.len() <= usize::MAX,
                names@.len() == counts@.len(),
                forall|a: int| 0 <= a < counts@.len() ==> #[trigger] counts@[a] > 0,
                forall|a: int, b: int| 0 <= a < b < names@.len() ==> names@[a]@ != names@[b]@,
                forall|a: int|
                    0 <= a < names@.len() ==> #[trigger] counts@[a] == occurrences(
                        event_names(self.records@.subrange(0, i as int)),
                        names@[a]@,
                    ),
                forall|n: Seq<char>|
                    occurrences(event_names(self.records@.subrange(0, i as int)), n) > 0
                        ==> exists|a: int| 0 <= a < names@.len() && #[trigger] names@[a]@ == n,
                sum_of(counts@) == event_names(self.records@.subrange(0, i as int)).len(),
            decreases self.records@.len() - i,
        {
            let events = &self.records[i].adverse_events;
            let ghost before = event_names(self.records@.subrange(0, i as int));
            proof {
                let next = self.records@.subrange(0, i as int + 1);
                assert(next.drop_last() == self.records@.subrange(0, i as int));
                assert(event_names(next) == before + names_of(events@));
                lemma_event_names_prefix(self.records@, i as int + 1);
                assert(before + names_of(events@).subrange(0, 0) == before);
            }
            let mut j: usize = 0;
            while j < events.len()
                invariant
                    j <= events@.len(),
                    all.len() <= usize::MAX,
                    (before + names_of(events@)).len() <= all.len(),
                    names@.len() == counts@.len(),
                forall|a: int| 0 <= a < counts@.len() ==> #[trigger] counts@[a] > 0,
                    forall|a: int, b: int|
                        0 <= a < b < names@.len() ==> names@[a]@ != names@[b]@,
                    forall|a: int|
                        0 <= a < names@.len() ==> #[trigger] counts@[a] == occurrences(
                            before + names_of(events@).subrange(0, j as int),
                            names@[a]@,
                        ),
                    forall|n: Seq<char>|
                        occurrences(before + names_of(events@).subrange(0, j as int), n) > 0
                            ==> exists|a: int| 0 <= a < names@.len() && #[trigger] names@[a]@ == n,
                    sum_of(counts@) == (before + names_of(events@).subrange(0, j as int)).len(),
                decreases events@.len() - j,
            {
                let e = &events[j];
                let ghost done = before + names_of(events@).subrange(0, j as int);
                proof {
                    assert(before + names_of(events@).subrange(0, j as int + 1) == done.push(e@));
                }
                let mut a: usize = 0;
                while a < names.len() && names[a] != *e
                    invariant
                        a <= names@.len(),
                        forall|b: int| 0 <= b < a ==> names@[b]@ != e@,
                    decreases names@.len() - a,
                {
                    a = a + 1;
                }
                if a < names.len() {
                    proof {
                        lemma_sum_bounds(counts@, a as int);
                        lemma_sum_update(counts@, a as int, (counts@[a as int] + 1) as usize);
                    }
                    let c = counts[a] + 1;
                    counts.set(a, c);
                    proof {
                        assert forall|b: int| 0 <= b < names@.len() implies #[trigger] counts@[b]
                            == occurrences(done.push(e@), names@[b]@) by {
                            lemma_occurrences_push(done, e@, names@[b]@);
                        }
                        assert forall|n: Seq<char>|
                            occurrences(done.push(e@), n) > 0 implies exists|b: int|
                                0 <= b < names@.len() && #[trigger] names@[b]@ == n by {
                            lemma_occurrences_push(done, e@, n);
                            if n == e@ {
                                assert(names@[a as int]@ == n);
                            }
                        }
                    }
                } else {
                    let ghost old_counts = counts@;
                    let ghost old_names = names@;
                    proof {
                        lemma_occurrences_push(done, e@, e@);
                        assert(occurrences(done, e@) == 0) by {
                            if occurrences(done, e@) > 0 {
                                let b = choose|b: int| 0 <= b < names@.len() && #[trigger] names@[b]@ == e@;
                            }
                        }
                    }
                    names.push(e.clone());
                    counts.push(1);
                    proof {
                        assert(counts@.drop_last() == old_counts);
                        assert forall|b: int| 0 <= b < names@.len() implies #[trigger] counts@[b]
                            == occurrences(done.push(e@), names@[b]@) by {
                            lemma_occurrences_push(done, e@, names@[b]@);
                        }
                        assert forall|n: Seq<char>|
                            occurrences(done.push(e@), n) > 0 implies exists|b: int|
                                0 <= b < names@.len() && #[trigger] names@[b]@ == n by {
                            lemma_occurrences_push(done, e@, n);
                            if n == e@ {
                                assert(names@[names@.len() - 1]@ == n);
                            } else {
                                let b = choose|b: int|
                                    0 <= b < old_names.len() && #[trigger] old_names[b]@ == n;
                                assert(names@[b] == old_names[b]);
                            }
                        }
                    }
                }
                j = j + 1;
            }
            proof {
                assert(names_of(events@).subrange(0, events@.len() as int) == names_of(events@));
            }
            i = i + 1;
        }
        proof {
            assert(self.records@.subrange(0, self.records@.len() as int) == self.records@);
        }
        let mut out: Vec<(String, usize)> = Vec::new();
        let mut k: usize = 0;
        while k < names.len()
            invariant
                k <= names@.len(),
                names@.len() == counts@.len(),
                forall|a: int| 0 <= a < counts@.len() ==> #[trigger] counts@[a] > 0,
                out@.len() == k,
                forall|a: int|
                    #![trigger out@[a]]
                    0 <= a < k ==> out@[a].0 == names@[a] && out@[a].1 == counts@[a],
            decreases names@.len() - k,
        {
            out.push((names[k].clone(), counts[k]));
            k = k + 1;
        }
        proof {
            assert(out@.map_values(|e: (String, usize)| e.1) =~= counts@);
            assert forall|name: Seq<char>|
                occurrences(event_names(self.records@), name) > 0 implies exists|i: int|
                    0 <= i < out@.len() && #[trigger] out@[i].0@ == name by {
                let a = choose|a: int| 0 <= a < names@.len() && #[trigger] names@[a]@ == name;
                assert(out@[a].0 == names@[a]);
            }
        }
        out
    }

    /// The earliest and the latest date of the records, found in one pass;
    /// `None` where there is no record.
    pub fn date_range(&self) -> (r: Option<(Date, Date)>)
        ensures
            r is None <==> self.records@.len() == 0,
            r matches Some((lo, hi)) ==> {
                &&& exists|i: int| 0 <= i < self.records@.len() && self.records@[i].date == lo
                &&& exists|i: int| 0 <= i < self.records@.len() && self.records@[i].date == hi
                &&& forall|i: int|
                    0 <= i < self.records@.len() ==> lo@.on_or_before(
                        #[trigger] self.records@[i].date@,
                    ) && self.records@[i].date@.on_or_before(hi@)
            },
    {
        if self.records.len() == 0 {
            return None;
        }
        let mut lo: Date = self.records[0].date;
        let mut hi: Date = self.records[0].date;
        let mut i: usize = 1;
        while i < self.records.len()
            invariant
                1 <= i <= self.records@.len(),
                exists|j: int| 0 <= j < self.records@.len() && self.records@[j].date == lo,
                exists|j: int| 0 <= j < self.records@.len() && self.records@[j].date == hi,
                forall|j: int|
                    0 <= j < i ==> lo@.on_or_before(#[trigger] self.records@[j].date@)
                        && self.records@[j].date@.on_or_before(hi@),
            decreases self.records@.len() - i,
        {
            let d = self.records[i].date;
            if !lo.on_or_before(&d) {
                lo = d;
            }
            if !d.on_or_before(&hi) {
                hi = d;
            }
            i = i + 1;
        }
        Some((lo, hi))
    }

    /// The records on which `filter` answers `true`, in their order.
    pub fn with_filter<F: Fn(&AdverseEventRecord) -> bool>(&self, filter: F) -> (r: Self)
        requires
            is_record_predicate(filter),
        ensures
            r.records@ == selected(self.records@, filter),
            answered(filter, self.records@),
            r.records@.len() <= self.records@.len(),
            forall|i: int| 0 <= i < r.records@.len() ==> filter.ensures((r.records@[i],), true),
    {
        let mut out: Vec<&'a AdverseEventRecord> = Vec::new();
        let mut i: usize = 0;
        while i < self.records.len()
            invariant
                is_record_predicate(filter),
                i <= self.records@.len(),
                out@ == selected(self.records@.subrange(0, i as int), filter),
                answered(filter, self.records@.subrange(0, i as int)),
            decreases self.records@.len() - i,
        {
            let rec: &'a AdverseEventRecord = self.records[i];
            let keep = filter(rec);
            proof {
                let s = self.records@.subrange(0, i as int + 1);
                reveal(Seq::filter);
                assert(s.drop_last() == self.records@.subrange(0, i as int));
                assert(s.last() == rec);
                assert(filter.ensures((rec,), true) == keep);
                assert forall|j: int| 0 <= j < s.len() implies #[trigger] filter.ensures(
                    (s[j],),
                    true,
                ) || filter.ensures((s[j],), false) by {
                    if j < i {
                        assert(s[j] == self.records@.subrange(0, i as int)[j]);
                    }
                }
            }
            if keep {
                out.push(rec);
            }
            i = i + 1;
        }
        proof {
            assert(self.records@.subrange(0, self.records@.len() as int) == self.records@);
            broadcast use vstd::seq_lib::group_filter_ensures;

        }
        AdverseEventsView { records: out }
    }

    /// Number of records on which `count_if` answers `true`.
    pub fn count<F: Fn(&AdverseEventRecord) -> bool>(&self, count_if: F) -> (r: usize)
        requires
            is_record_predicate(count_if),
        ensures
            r == selected(self.records@, count_if).len(),
            answered(count_if, self.records@),
    {
        let mut n: usize = 0;
        let mut i: usize = 0;
        while i < self.records.len()
            invariant
                is_record_predicate(count_if),
                i <= self.records@.len(),
                n == selected(self.records@.subrange(0, i as int), count_if).len(),
                n <= i,
                answered(count_if, self.records@.subrange(0, i as int)),
            decreases self.records@.len() - i,
        {
            let keep = count_if(self.records[i]);
            proof {
                let s = self.records@.subrange(0, i as int + 1);
                reveal(Seq::filter);
                assert(s.drop_last() == self.records@.subrange(0, i as int));
                assert(s.last() == self.records@[i as int]);
                assert(count_if.ensures((self.records@[i as int],), true) == keep);
                assert forall|j: int| 0 <= j < s.len() implies #[trigger] count_if.ensures(
                    (s[j],),
                    true,
                ) || count_if.ensures((s[j],), false) by {
                    if j < i {
                        assert(s[j] == self.records@.subrange(0, i as int)[j]);
                    }
                }
            }
            if keep {
                n = n + 1;
            }
            i = i + 1;
        }
        proof {
            assert(self.records@.subrange(0, self.records@.len() as int) == self.records@);
        }
        n
    }

    /// The records with at least one adverse event.
    pub fn with_any_event(&self) -> (r: Self)
        ensures
            r.records@ == self.records@.filter(|x: &AdverseEventRecord| has_any_event(x)),
    {
        let f = |x: &AdverseEventRecord| -> (b: bool)
            ensures
                b == has_any_event(x),
            { x.adverse_events.len() > 0 };
        let r = self.with_filter(f);
        proof {
            lemma_selected_by(self.records@, f, |x: &AdverseEventRecord| has_any_event(x));
        }
        r
    }

    /// The records whose complications were recorded, either way.
    pub fn with_complications_specified(&self) -> (r: Self)
        ensures
            r.records@ == self.records@.filter(|x: &AdverseEventRecord| x.complications is Some),
    {
        let f = |x: &AdverseEventRecord| -> (b: bool)
            ensures
                b == (x.complications is Some),
            { x.complications.is_some() };
        let r = self.with_filter(f);
        proof {
            lemma_selected_by(self.records@, f, |x: &AdverseEventRecord| x.complications is Some);
        }
        r
    }

    /// The records with complications recorded as occurring.
    pub fn with_complications_occurred(&self) -> (r: Self)
        ensures
            r.records@ == self.records@.filter(
                |x: &AdverseEventRecord| x.complications == Some(true),
            ),
    {
        let f = |x: &AdverseEventRecord| -> (b: bool)
            ensures
                b == (x.complications == Some(true)),
            {
                match x.complications {
                    Some(c) => c,
                    None => false,
                }
            };
        let r = self.with_filter(f);
        proof {
            lemma_selected_by(
                self.records@,
                f,
                |x: &AdverseEventRecord| x.complications == Some(true),
            );
        }
        r
    }

    /// The records dated from `start` to `end`, both included.
    pub fn between(&self, start: Date, end: Date) -> (r: Self)
        ensures
            r.records@ == self.records@.filter(
                |x: &AdverseEventRecord|
                    start@.on_or_before(x.date@) && x.date@.on_or_before(end@),
            ),
    {
        let f = |x: &AdverseEventRecord| -> (b: bool)
            ensures
                b == (start@.on_or_before(x.date@) && x.date@.on_or_before(end@)),
            { start.on_or_before(&x.date) && x.date.on_or_before(&end) };
        let r = self.with_filter(f);
        proof {
            lemma_selected_by(self.records@, f, |x: &AdverseEventRecord| start@.on_or_before(x.date@) && x.date@.on_or_before(end@));
        }
        r
    }

    /// The records whose anaesthesia interval overlaps the open window from
    /// `start` to `end`: they stop after `start` and begin before `end`.
    pub fn between_times(&self, start: Time, end: Time) -> (r: Self)
        ensures
            r.records@ == self.records@.filter(
                |x: &AdverseEventRecord| x.an_stop@ > start@ && x.an_start@ < end@,
            ),
    {
        let f = |x: &AdverseEventRecord| -> (b: bool)
            ensures
                b == (x.an_stop@ > start@ && x.an_start@ < end@),
            { start.is_before(&x.an_stop) && x.an_start.is_before(&end) };
        let r = self.with_filter(f);
        proof {
            lemma_selected_by(self.records@, f, |x: &AdverseEventRecord| x.an_stop@ > start@ && x.an_start@ < end@);
        }
        r
    }

    /// The records that list `event` among their adverse events.
    pub fn with_event(&self, event: &str) -> (r: Self)
        ensures
            r.records@ == self.records@.filter(|x: &AdverseEventRecord| has_event(x, event@)),
    {
        let name = event.to_owned();
        let f = |x: &AdverseEventRecord| -> (b: bool)
            ensures
                b == has_event(x, name@),
            { contains_string(&x.adverse_events, &name) };
        let r = self.with_filter(f);
        proof {
            lemma_selected_by(self.records@, f, |x: &AdverseEventRecord| has_event(x, event@));
        }
        r
    }

    /// The records whose anaesthesiologist is `anesthesiologist_name`.
    pub fn by_anesthesiologist(&self, anesthesiologist_name: &str) -> (r: Self)
        ensures
            r.records@ == self.records@.filter(
                |x: &AdverseEventRecord| x.anesthesiologist@ == anesthesiologist_name@,
            ),
    {
        let name = anesthesiologist_name.to_owned();
        let f = |x: &AdverseEventRecord| -> (b: bool)
            ensures
                b == (x.anesthesiologist@ == name@),
            { x.anesthesiologist == name };
        let r = self.with_filter(f);
        proof {
            lemma_selected_by(self.records@, f, |x: &AdverseEventRecord| x.anesthesiologist@ == anesthesiologist_name@);
        }
        r
    }

    /// The records that list `staff_name` among their anaesthesia staff.
    pub fn with_staff(&self, staff_name: &str) -> (r: Self)
        ensures
            r.records@ == self.records@.filter(
                |x: &AdverseEventRecord| contains_name(x.anesthesia_staff@, staff_name@),
            ),
    {
        let name = staff_name.to_owned();
        let f = |x: &AdverseEventRecord| -> (b: bool)
            ensures
                b == contains_name(x.anesthesia_staff@, name@),
            { contains_string(&x.anesthesia_staff, &name) };
        let r = self.with_filter(f);
        proof {
            lemma_selected_by(self.records@, f, |x: &AdverseEventRecord| contains_name(x.anesthesia_staff@, staff_name@));
        }
        r
    }

    /// The records whose procedure is `proc_name`.
    pub fn with_procedure(&self, proc_name: &str) -> (r: Self)
        ensures
            r.records@ == self.records@.filter(
                |x: &AdverseEventRecord| x.procedure@ == proc_name@,
            ),
    {
        let name = proc_name.to_owned();
        let f = |x: &AdverseEventRecord| -> (b: bool)
            ensures
                b == (x.procedure@ == name@),
            { x.procedure == name };
        let r = self.with_filter(f);
        proof {
            lemma_selected_by(self.records@, f, |x: &AdverseEventRecord| x.procedure@ == proc_name@);
        }
        r
    }
}

} // verus!
