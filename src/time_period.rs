//! Calendar periods, and the bucketing of a view into consecutive periods.
use crate::calendar::{
    days_in_month, is_leap_year, lemma_next_day, lemma_week_start, lemma_weekday_shift,
    lemma_year_order, week_start, weekday, Date, Ymd,
};
use crate::error::Error;
use crate::text::{ascii_lowercase, lowered, str_eq};
use crate::grouping::{answers, group_by_owned, groups_by, lemma_filter_none};
use crate::record::{
    answered, is_record_predicate, lemma_filter_agree, selected, AdverseEventRecord,
    AdverseEventsView,
};
use vstd::arithmetic::div_mod::lemma_fundamental_div_mod;
use vstd::prelude::*;
use vstd::std_specs::hash::obeys_key_model;
use std::collections::HashMap;

verus! {

broadcast use vstd::std_specs::hash::group_hash_axioms;

/// Length of the calendar periods of a time series.
#[derive(Clone, Copy, Debug, PartialEq, Eq, Structural)]
pub enum Period {
    Day,
    Week,
    Month,
    Year,
}

/// A value that belongs to the days from `start` to `end`, both included.
pub struct DatePeriodContainer<T> {
    pub period: Period,
    pub start: Date,
    pub end: Date,
    pub value: T,
}

/// The records of one period.
pub type DatePeriodView<'a> = DatePeriodContainer<AdverseEventsView<'a>>;

/// The number of records of one period.
pub type DatePeriodCount = DatePeriodContainer<usize>;

impl<'a> DatePeriodContainer<AdverseEventsView<'a>> {
    pub fn to_count(&self) -> (r: DatePeriodCount)
        ensures
            r.period == self.period,
            r.start == self.start,
            r.end == self.end,
            r.value == self.value.records@.len(),
    {
        DatePeriodContainer {
            period: self.period,
            start: self.start,
            end: self.end,
            value: self.value.len(),
        }
    }
}

/// Number of the period of kind `p` that holds `d`: the day number for a
/// day, that of its Monday for a week, months since year 0 for a month, and
/// the year for a year.
pub open spec fn period_key(p: Period, d: Ymd) -> int {
    match p {
        Period::Day => d.day_number(),
        Period::Week => week_start(d.day_number()),
        Period::Month => d.month_index(),
        Period::Year => d.year,
    }
}

/// How far the keys of two consecutive periods of kind `p` lie apart.
pub open spec fn period_step(p: Period) -> int {
    if p == Period::Week {
        7
    } else {
        1
    }
}

/// From `start` to `end` is one whole period of kind `p`: a day; a week
/// from Monday to Sunday; a month from its first to its last day; a year
/// from the first of January to the last of December.
pub open spec fn is_period(p: Period, start: Ymd, end: Ymd) -> bool {
    &&& start.wf()
    &&& end.wf()
    &&& match p {
        Period::Day => end == start,
        Period::Week => weekday(start.day_number()) == 0 && end.day_number() == start.day_number()
            + 6,
        Period::Month => start.day == 1 && end == (Ymd {
            year: start.year,
            month: start.month,
            day: days_in_month(start.year, start.month),
        }),
        Period::Year => start.month == 1 && start.day == 1 && end == (Ymd {
            year: start.year,
            month: 12,
            day: 31,
        }),
    }
}

/// `s` is the first day of a period of kind `p`.
pub open spec fn starts_period(p: Period, s: Ymd) -> bool {
    match p {
        Period::Day => true,
        Period::Week => weekday(s.day_number()) == 0,
        Period::Month => s.day == 1,
        Period::Year => s.month == 1 && s.day == 1,
    }
}

/// The records, in their order, dated within the period of kind `p` with
/// key `k`.
#[verifier::opaque]
pub open spec fn records_in<'a>(p: Period, records: Seq<&'a AdverseEventRecord>, k: int) -> Seq<
    &'a AdverseEventRecord,
> {
    records.filter(|x: &'a AdverseEventRecord| period_key(p, x.date@) == k)
}

/// `buckets` runs through consecutive periods of kind `p`, with no gap,
/// from the period of the earliest date in `domain` to that of the latest,
/// and holds in each the records of `matching` dated within it. An empty
/// `domain` gives no bucket.
pub open spec fn is_bucketing<'a>(
    p: Period,
    buckets: Seq<DatePeriodView<'a>>,
    domain: Seq<&'a AdverseEventRecord>,
    matching: Seq<&'a AdverseEventRecord>,
) -> bool {
    &&& (buckets.len() == 0 <==> domain.len() == 0)
    &&& buckets.len() > 0 ==> {
        &&& exists|i: int|
            0 <= i < domain.len() && period_key(p, domain[i].date@) == period_key(
                p,
                buckets[0].start@,
            )
        &&& exists|i: int|
            0 <= i < domain.len() && period_key(p, domain[i].date@) == period_key(
                p,
                buckets.last().start@,
            )
        &&& forall|i: int|
            0 <= i < domain.len() ==> period_key(p, buckets[0].start@) <= #[trigger] period_key(
                p,
                domain[i].date@,
            ) <= period_key(p, buckets.last().start@)
    }
    &&& forall|j: int|
        #![trigger buckets[j]]
        0 <= j < buckets.len() ==> {
            &&& buckets[j].period == p
            &&& is_period(p, buckets[j].start@, buckets[j].end@)
            &&& period_key(p, buckets[j].start@) == period_key(p, buckets[0].start@) + j
                * period_step(p)
            &&& buckets[j].value.records@ == records_in(
                p,
                matching,
                period_key(p, buckets[j].start@),
            )
        }
    &&& forall|j: int|
        0 <= j < buckets.len() - 1 ==> #[trigger] buckets[j + 1].start@ == buckets[j].end@.next()
}

/// Every record in `records` is dated in a year with a year before and a
/// year after it among those an `i32` holds.
pub open spec fn years_inside_i32(records: Seq<&AdverseEventRecord>) -> bool {
    forall|i: int|
        0 <= i < records.len() ==> i32::MIN < #[trigger] records[i].date@.year < i32::MAX
}

fn key_of(p: Period, d: &Date) -> (k: i64)
    ensures
        k == period_key(p, d@),
{
    match p {
        Period::Day => d.day_number(),
        Period::Week => d.day_number() - d.weekday_from_monday() as i64,
        Period::Month => d.month_index(),
        Period::Year => d.year() as i64,
    }
}

/// The dates of `domain` with the smallest and the largest key.
fn key_bounds(p: Period, domain: &Vec<&AdverseEventRecord>) -> (r: (Date, Date))
    requires
        domain@.len() > 0,
    ensures
        exists|i: int| 0 <= i < domain@.len() && domain@[i].date == r.0,
        exists|i: int| 0 <= i < domain@.len() && domain@[i].date == r.1,
        forall|i: int|
            0 <= i < domain@.len() ==> period_key(p, r.0@) <= #[trigger] period_key(
                p,
                domain@[i].date@,
            ) <= period_key(p, r.1@),
{
    let mut lo: Date = domain[0].date;
    let mut hi: Date = domain[0].date;
    let mut lo_key = key_of(p, &lo);
    let mut hi_key = lo_key;
    let mut i: usize = 1;
    while i < domain.len()
        invariant
            1 <= i <= domain@.len(),
            lo_key == period_key(p, lo@),
            hi_key == period_key(p, hi@),
            exists|j: int| 0 <= j < domain@.len() && domain@[j].date == lo,
            exists|j: int| 0 <= j < domain@.len() && domain@[j].date == hi,
            forall|j: int|
                0 <= j < i ==> lo_key <= #[trigger] period_key(p, domain@[j].date@) <= hi_key,
        decreases domain@.len() - i,
    {
        let d = domain[i].date;
        let k = key_of(p, &d);
        if k < lo_key {
            lo = d;
            lo_key = k;
        }
        if k > hi_key {
            hi = d;
            hi_key = k;
        }
        i = i + 1;
    }
    (lo, hi)
}

/// The first day of the period of kind `p` that holds `d`.
fn period_start(p: Period, d: &Date) -> (s: Date)
    requires
        i32::MIN < d@.year,
    ensures
        period_key(p, s@) == period_key(p, d@),
        starts_period(p, s@),
        s@.year <= d@.year,
{
    match p {
        Period::Day => *d,
        Period::Week => {
            let back = d.weekday_from_monday();
            let mut cur: Date = *d;
            let mut j: u32 = 0;
            proof {
                lemma_week_start(d@.day_number());
            }
            while j < back
                invariant
                    j <= back,
                    back == weekday(d@.day_number()),
                    back < 7,
                    i32::MIN < d@.year,
                    cur@.day_number() == d@.day_number() - j,
                    cur@.year <= d@.year,
                    cur@.year < d@.year ==> cur@.year == d@.year - 1 && cur@.month == 12
                        && cur@.day > 31 - j,
                decreases back - j,
            {
                proof {
                    use_type_invariant(&cur);
                }
                cur = cur.prev_day();
                j = j + 1;
            }
            cur
        },
        Period::Month => d.first_of_month(),
        Period::Year => d.first_of_year(),
    }
}

/// The last day of the period of kind `p` that starts on `s`.
fn period_end(p: Period, s: &Date) -> (e: Date)
    requires
        s@.year < i32::MAX,
        starts_period(p, s@),
    ensures
        is_period(p, s@, e@),
        e@.year <= s@.year + 1,
{
    proof {
        use_type_invariant(s);
    }
    match p {
        Period::Day => *s,
        Period::Week => {
            let mut cur: Date = *s;
            let mut j: u32 = 0;
            while j < 6
                invariant
                    j <= 6,
                    s@.year < i32::MAX,
                    s@.wf(),
                    cur@.day_number() == s@.day_number() + j,
                    cur@.year >= s@.year,
                    cur@.year > s@.year ==> cur@.year == s@.year + 1 && cur@.month == 1
                        && cur@.day <= j,
                decreases 6 - j,
            {
                proof {
                    use_type_invariant(&cur);
                }
                cur = cur.next_day();
                j = j + 1;
            }
            proof {
                use_type_invariant(&cur);
            }
            cur
        },
        Period::Month => s.last_of_month(),
        Period::Year => s.last_of_year(),
    }
}

impl<'a> AdverseEventsView<'a> {
    /// Splits the records on which `filter` answers `true` into consecutive
    /// periods of kind `period`, with no gap. For days the periods run from
    /// the earliest to the latest date among those records; for weeks,
    /// months and years, from that among all records of the view. A period
    /// with no such record is kept, with no records.
    pub fn by_period<F: Fn(&AdverseEventRecord) -> bool>(&self, period: Period, filter: F) -> (r:
        Vec<DatePeriodView<'a>>)
        requires
            is_record_predicate(filter),
            years_inside_i32(self.records@),
        ensures
            answered(filter, self.records@),
            is_bucketing(
                period,
                r@,
                if period == Period::Day {
                    selected(self.records@, filter)
                } else {
                    self.records@
                },
                selected(self.records@, filter),
            ),
    {
        let matching = self.with_filter(filter);
        let ghost m = matching.records@;
        let grouper = |x: &AdverseEventRecord| -> (k: i64)
            ensures
                k == period_key(period, x.date@),
            { key_of(period, &x.date) };
        let mut groups: HashMap<i64, Vec<&'a AdverseEventRecord>> = group_by_owned(
            matching.records.as_slice(),
            grouper,
        );
        let ghost orig = groups@;
        proof {
            reveal(records_in);
            assert(obeys_key_model::<i64>());
            assert(groups_by(orig, m, grouper));
            assert forall|k: i64| #[trigger] orig.contains_key(k) implies orig[k]@ == records_in(
                period,
                m,
                k as int,
            ) by {
                assert forall|i: int| 0 <= i < m.len() implies (|x: &'a AdverseEventRecord|
                    grouper.ensures((x,), k))(#[trigger] m[i]) == (|x: &'a AdverseEventRecord|
                    period_key(period, x.date@) == k as int)(m[i]) by {
                    assert(answers(grouper, m[i]));
                }
                lemma_filter_agree(
                    m,
                    |x: &'a AdverseEventRecord| grouper.ensures((x,), k),
                    |x: &'a AdverseEventRecord| period_key(period, x.date@) == k as int,
                );
            }
            assert forall|k: i64| !#[trigger] orig.contains_key(k) implies records_in(
                period,
                m,
                k as int,
            ) == Seq::<&'a AdverseEventRecord>::empty() by {
                assert forall|i: int| 0 <= i < m.len() implies !(|x: &'a AdverseEventRecord|
                    period_key(period, x.date@) == k as int)(#[trigger] m[i]) by {
                    assert(answers(grouper, m[i]));
                    if period_key(period, m[i].date@) == k as int {
                        let k2 = choose|k2: i64| #[trigger] grouper.ensures((m[i],), k2);
                        assert(k2 == k);
                    }
                }
                lemma_filter_none(
                    m,
                    |x: &'a AdverseEventRecord| period_key(period, x.date@) == k as int,
                );
            }
        }
        let domain: &Vec<&'a AdverseEventRecord> = if period == Period::Day {
            &matching.records
        } else {
            &self.records
        };
        let mut out: Vec<DatePeriodView<'a>> = Vec::new();
        if domain.len() == 0 {
            return out;
        }
        let (lo, hi) = key_bounds(period, domain);
        proof {
            broadcast use vstd::seq_lib::group_filter_ensures;

            assert(years_inside_i32(domain@)) by {
                if period == Period::Day {
                    assert forall|i: int| 0 <= i < domain@.len() implies i32::MIN
                        < #[trigger] domain@[i].date@.year < i32::MAX by {
                        assert(self.records@.filter(
                            |x: &AdverseEventRecord| filter.ensures((x,), true),
                        ).contains(domain@[i]));
                        self.records@.lemma_filter_contains_rev(
                            |x: &AdverseEventRecord| filter.ensures((x,), true),
                            domain@[i],
                        );
                    }
                }
            }
        }
        fill_periods(period, &lo, &hi, groups, Ghost(m))
    }
}

/// Bucketing by day a non-empty set of records gives one bucket for each
/// day from the earliest date to the latest: as many buckets as the days
/// between them plus one, each a single day, and each day the one after the
/// day before.
pub proof fn lemma_day_buckets<'a>(
    buckets: Seq<DatePeriodView<'a>>,
    records: Seq<&'a AdverseEventRecord>,
    matching: Seq<&'a AdverseEventRecord>,
)
    requires
        is_bucketing(Period::Day, buckets, records, matching),
        records.len() > 0,
    ensures
        exists|i: int|
            0 <= i < records.len() && records[i].date@.day_number()
                == buckets[0].start@.day_number(),
        exists|i: int|
            0 <= i < records.len() && records[i].date@.day_number()
                == buckets.last().start@.day_number(),
        forall|i: int|
            0 <= i < records.len() ==> buckets[0].start@.day_number()
                <= #[trigger] records[i].date@.day_number()
                <= buckets.last().start@.day_number(),
        buckets.len() == buckets.last().start@.day_number() - buckets[0].start@.day_number() + 1,
        forall|j: int| 0 <= j < buckets.len() ==> #[trigger] buckets[j].start@ == buckets[j].end@,
        forall|j: int|
            0 <= j < buckets.len() - 1 ==> #[trigger] buckets[j + 1].start@
                == buckets[j].end@.next(),
{
    let n = buckets.len() - 1;
    assert(buckets[n] == buckets.last());
    assert(period_key(Period::Day, buckets[n].start@) == period_key(Period::Day, buckets[0].start@)
        + n * period_step(Period::Day));
    assert forall|j: int| 0 <= j < buckets.len() implies #[trigger] buckets[j].start@
        == buckets[j].end@ by {
        assert(is_period(Period::Day, buckets[j].start@, buckets[j].end@));
    }
    assert forall|i: int| 0 <= i < records.len() implies buckets[0].start@.day_number()
        <= #[trigger] records[i].date@.day_number() <= buckets.last().start@.day_number() by {
        assert(period_key(Period::Day, records[i].date@) == records[i].date@.day_number());
    }
}

/// Bucketing by month ends each February on its 29th in a leap year and on
/// its 28th in another, and follows December with January of the next year.
pub proof fn lemma_month_boundaries<'a>(
    buckets: Seq<DatePeriodView<'a>>,
    domain: Seq<&'a AdverseEventRecord>,
    matching: Seq<&'a AdverseEventRecord>,
)
    requires
        is_bucketing(Period::Month, buckets, domain, matching),
    ensures
        forall|j: int|
            0 <= j < buckets.len() && #[trigger] buckets[j].start@.month == 2 ==> buckets[j].end@
                == (Ymd {
                year: buckets[j].start@.year,
                month: 2,
                day: if is_leap_year(buckets[j].start@.year) {
                    29
                } else {
                    28
                },
            }),
        forall|j: int|
            0 <= j < buckets.len() - 1 && #[trigger] buckets[j].start@.month == 12
                ==> buckets[j + 1].start@ == (Ymd {
                year: buckets[j].start@.year + 1,
                month: 1,
                day: 1,
            }),
{
    assert forall|j: int|
        0 <= j < buckets.len() - 1 && #[trigger] buckets[j].start@.month == 12 implies buckets[j
        + 1].start@ == (Ymd { year: buckets[j].start@.year + 1, month: 1, day: 1 }) by {
        assert(is_period(Period::Month, buckets[j].start@, buckets[j].end@));
        assert(buckets[j + 1].start@ == buckets[j].end@.next());
    }
}

proof fn lemma_filter_narrower<A>(s: Seq<A>, narrow: spec_fn(A) -> bool, wide: spec_fn(A) -> bool, q: spec_fn(A) -> bool)
    requires
        forall|x: A| #[trigger] narrow(x) ==> wide(x),
    ensures
        s.filter(narrow).filter(q).len() <= s.filter(wide).filter(q).len(),
    decreases s.len(),
{
    reveal(Seq::filter);
    if s.len() > 0 {
        let t = s.drop_last();
        let x = s.last();
        lemma_filter_narrower(t, narrow, wide, q);
        let a = t.filter(narrow);
        let b = t.filter(wide);
        assert(a.push(x).drop_last() == a);
        assert(b.push(x).drop_last() == b);
        assert(a.push(x).last() == x);
        assert(b.push(x).last() == x);
    }
}

/// Where one predicate implies another, no period holds more of the records
/// that meet the first than of those that meet the second.
pub proof fn lemma_narrower_period_count<'a>(
    p: Period,
    records: Seq<&'a AdverseEventRecord>,
    narrow: spec_fn(&'a AdverseEventRecord) -> bool,
    wide: spec_fn(&'a AdverseEventRecord) -> bool,
    k: int,
)
    requires
        forall|x: &'a AdverseEventRecord| #[trigger] narrow(x) ==> wide(x),
    ensures
        records_in(p, records.filter(narrow), k).len() <= records_in(
            p,
            records.filter(wide),
            k,
        ).len(),
{
    reveal(records_in);
    lemma_filter_narrower(
        records,
        narrow,
        wide,
        |x: &'a AdverseEventRecord| period_key(p, x.date@) == k,
    );
}

/// The token that names each period, in lower case.
pub open spec fn period_token(p: Period) -> Seq<char> {
    match p {
        Period::Day => "day"@,
        Period::Week => "week"@,
        Period::Month => "month"@,
        Period::Year => "year"@,
    }
}

/// No two periods share a token.
pub proof fn lemma_period_tokens_distinct(p1: Period, p2: Period)
    ensures
        period_token(p1) == period_token(p2) ==> p1 == p2,
{
    reveal_strlit("day");
    reveal_strlit("week");
    reveal_strlit("month");
    reveal_strlit("year");
    if period_token(p1) == period_token(p2) {
        assert(period_token(p1)[0] == period_token(p2)[0]);
    }
}

/// The period that `s` names, in any case of ASCII letters.
pub fn parse_period(s: &str) -> (r: Result<Period, Error>)
    ensures
        forall|p: Period| period_token(p) == lowered(s@) ==> r == Ok::<Period, Error>(p),
        r matches Ok(p) ==> period_token(p) == lowered(s@),
        r is Err ==> forall|p: Period| period_token(p) != lowered(s@),
        r matches Err(Error::ParseError { target, received }) ==> target@ == "Period"@
            && received@ == s@,
{
    proof {
        assert forall|p1: Period, p2: Period|
            period_token(p1) == lowered(s@) && period_token(p2) == lowered(s@) implies p1 == p2 by {
            lemma_period_tokens_distinct(p1, p2);
        }
        assert(period_token(Period::Day) == "day"@);
        assert(period_token(Period::Week) == "week"@);
        assert(period_token(Period::Month) == "month"@);
        assert(period_token(Period::Year) == "year"@);
    }
    let lower = ascii_lowercase(s);
    if str_eq(lower.as_str(), "day") {
        Ok(Period::Day)
    } else if str_eq(lower.as_str(), "week") {
        Ok(Period::Week)
    } else if str_eq(lower.as_str(), "month") {
        Ok(Period::Month)
    } else if str_eq(lower.as_str(), "year") {
        Ok(Period::Year)
    } else {
        proof {
            assert forall|p: Period| period_token(p) != lowered(s@) by {
                match p {
                    Period::Day => {},
                    Period::Week => {},
                    Period::Month => {},
                    Period::Year => {},
                }
            }
        }
        Err(Error::ParseError { target: "Period", received: s.to_owned() })
    }
}

impl std::str::FromStr for Period {
    type Err = Error;

    fn from_str(s: &str) -> Result<Self, Self::Err> {
        parse_period(s)
    }
}

/// The matched and the total number of records of one period.
pub type DatePeriodFraction = DatePeriodContainer<(usize, usize)>;

/// The count of the first period of `counts` that runs from `start` to
/// `end`, or 0 where none does.
pub open spec fn count_for(counts: Seq<DatePeriodCount>, start: Date, end: Date) -> nat
    decreases counts.len(),
{
    if counts.len() == 0 {
        0
    } else if counts[0].start == start && counts[0].end == end {
        counts[0].value as nat
    } else {
        count_for(counts.drop_first(), start, end)
    }
}

fn find_count(counts: &Vec<DatePeriodCount>, start: Date, end: Date) -> (r: usize)
    ensures
        r == count_for(counts@, start, end),
{
    let mut i: usize = 0;
    proof {
        assert(counts@.subrange(0, counts@.len() as int) == counts@);
    }
    while i < counts.len()
        invariant
            i <= counts@.len(),
            count_for(counts@, start, end) == count_for(counts@.subrange(i as int, counts@.len() as int), start, end),
        decreases counts@.len() - i,
    {
        proof {
            let rest = counts@.subrange(i as int, counts@.len() as int);
            assert(rest[0] == counts@[i as int]);
            assert(rest.drop_first() == counts@.subrange(i as int + 1, counts@.len() as int));
        }
        if counts[i].start == start && counts[i].end == end {
            return counts[i].value;
        }
        i = i + 1;
    }
    0
}

/// Pairs each period of `totals`, in its order, with the count of the
/// period of `matched` with the same first and last day, or 0 where
/// `matched` has none.
pub fn join_counts(matched: &Vec<DatePeriodCount>, totals: &Vec<DatePeriodCount>) -> (r: Vec<
    DatePeriodFraction,
>)
    ensures
        r@.len() == totals@.len(),
        forall|i: int|
            #![trigger r@[i]]
            0 <= i < r@.len() ==> {
                &&& r@[i].period == totals@[i].period
                &&& r@[i].start == totals@[i].start
                &&& r@[i].end == totals@[i].end
                &&& r@[i].value.0 == count_for(matched@, totals@[i].start, totals@[i].end)
                &&& r@[i].value.1 == totals@[i].value
            },
{
    let mut out: Vec<DatePeriodFraction> = Vec::new();
    let mut i: usize = 0;
    while i < totals.len()
        invariant
            i <= totals@.len(),
            out@.len() == i,
            forall|j: int|
                #![trigger out@[j]]
                0 <= j < i ==> {
                    &&& out@[j].period == totals@[j].period
                    &&& out@[j].start == totals@[j].start
                    &&& out@[j].end == totals@[j].end
                    &&& out@[j].value.0 == count_for(matched@, totals@[j].start, totals@[j].end)
                    &&& out@[j].value.1 == totals@[j].value
                },
        decreases totals@.len() - i,
    {
        let t = &totals[i];
        let m = find_count(matched, t.start, t.end);
        out.push(DatePeriodContainer { period: t.period, start: t.start, end: t.end, value: (m, t.value) });
        i = i + 1;
    }
    out
}

/// A valid date no later in day number than another is in no later a year.
proof fn lemma_year_of_order(a: Ymd, b: Ymd)
    requires
        a.wf(),
        b.wf(),
        a.day_number() <= b.day_number(),
    ensures
        a.year <= b.year,
{
    if a.year > b.year {
        lemma_year_order(b, a);
    }
}

/// The first day of a period with a key no greater than that of `hi` lies in
/// no later a year than `hi`.
proof fn lemma_start_year(p: Period, start: Ymd, hi: Ymd)
    requires
        start.wf(),
        hi.wf(),
        starts_period(p, start),
        period_key(p, start) <= period_key(p, hi),
    ensures
        start.year <= hi.year,
{
    lemma_week_start(start.day_number());
    lemma_week_start(hi.day_number());
    if p == Period::Day || p == Period::Week {
        lemma_year_of_order(start, hi);
    }
}

/// Two Mondays lie a multiple of seven days apart.
proof fn lemma_mondays_apart(a: int, b: int)
    requires
        weekday(a) == 0,
        weekday(b) == 0,
        a < b,
    ensures
        a + 7 <= b,
{
    reveal(weekday);
    lemma_fundamental_div_mod(a + 5, 7);
    lemma_fundamental_div_mod(b + 5, 7);
    let qa = (a + 5) / 7;
    let qb = (b + 5) / 7;
    assert(a + 7 <= b) by (nonlinear_arith)
        requires
            a + 5 == 7 * qa,
            b + 5 == 7 * qb,
            a < b,
    ;
}

/// The day after a period that comes before the period of `hi` starts the
/// next period, no later than that of `hi`.
proof fn lemma_next_period(p: Period, start: Ymd, end: Ymd, hi: Ymd)
    requires
        is_period(p, start, end),
        hi.wf(),
        hi.year < i32::MAX,
        period_key(p, start) < period_key(p, hi),
    ensures
        end.year < i32::MAX,
        end.next().wf(),
        end.next().day_number() == end.day_number() + 1,
        starts_period(p, end.next()),
        period_key(p, end.next()) == period_key(p, start) + period_step(p),
        period_key(p, end.next()) <= period_key(p, hi),
{
    lemma_week_start(start.day_number());
    lemma_week_start(hi.day_number());
    lemma_week_start(end.day_number());
    if p == Period::Week {
        lemma_mondays_apart(start.day_number(), week_start(hi.day_number()));
        lemma_weekday_shift(start.day_number());
    }
    if p == Period::Day || p == Period::Week {
        lemma_year_of_order(end, hi);
    }
    lemma_next_day(end);
    lemma_week_start(end.next().day_number());
}

/// The periods of kind `period` from that of `lo` to that of `hi`, each
/// with its records as `groups` holds them by key.
fn fill_periods<'a>(
    period: Period,
    lo: &Date,
    hi: &Date,
    groups: HashMap<i64, Vec<&'a AdverseEventRecord>>,
    m: Ghost<Seq<&'a AdverseEventRecord>>,
) -> (out: Vec<DatePeriodView<'a>>)
    requires
        obeys_key_model::<i64>(),
        i32::MIN < lo@.year,
        hi@.year < i32::MAX,
        period_key(period, lo@) <= period_key(period, hi@),
        forall|k: i64| #[trigger]
            groups@.contains_key(k) ==> groups@[k]@ == records_in(period, m@, k as int),
        forall|k: i64|
            !#[trigger] groups@.contains_key(k) ==> records_in(period, m@, k as int)
                == Seq::<&'a AdverseEventRecord>::empty(),
    ensures
        out@.len() > 0,
        period_key(period, out@[0].start@) == period_key(period, lo@),
        period_key(period, out@.last().start@) == period_key(period, hi@),
        forall|j: int|
            #![trigger out@[j]]
            0 <= j < out@.len() ==> {
                &&& out@[j].period == period
                &&& is_period(period, out@[j].start@, out@[j].end@)
                &&& period_key(period, out@[j].start@) == period_key(period, lo@) + j
                    * period_step(period)
                &&& out@[j].value.records@ == records_in(
                    period,
                    m@,
                    period_key(period, out@[j].start@),
                )
            },
        forall|j: int|
            0 <= j < out@.len() - 1 ==> #[trigger] out@[j + 1].start@ == out@[j].end@.next(),
{
    let ghost orig = groups@;
    let mut groups = groups;
    let hi_key = key_of(period, hi);
    let mut out: Vec<DatePeriodView<'a>> = Vec::new();
    let mut start = period_start(period, lo);
    let mut more = true;
    proof {
        use_type_invariant(hi);
    }
    while more
        invariant
            obeys_key_model::<i64>(),
            hi_key == period_key(period, hi@),
            hi@.year < i32::MAX,
            hi@.wf(),
            more ==> starts_period(period, start@),
            more ==> period_key(period, start@) <= hi_key,
            more ==> period_key(period, start@) == period_key(period, lo@) + out@.len()
                * period_step(period),
            !more ==> out@.len() > 0 && period_key(period, out@.last().start@) == hi_key,
            out@.len() > 0 ==> period_key(period, out@[0].start@) == period_key(period, lo@),
            more && out@.len() > 0 ==> start@ == out@.last().end@.next(),
            forall|j: int|
                #![trigger out@[j]]
                0 <= j < out@.len() ==> {
                    &&& out@[j].period == period
                    &&& is_period(period, out@[j].start@, out@[j].end@)
                    &&& period_key(period, out@[j].start@) == period_key(period, lo@) + j
                        * period_step(period)
                    &&& out@[j].value.records@ == records_in(
                        period,
                        m@,
                        period_key(period, out@[j].start@),
                    )
                },
            forall|j: int|
                0 <= j < out@.len() - 1 ==> #[trigger] out@[j + 1].start@ == out@[j].end@.next(),
            more ==> forall|k: i64|
                k >= period_key(period, start@) ==> (#[trigger] groups@.contains_key(k)
                    == orig.contains_key(k) && (groups@.contains_key(k) ==> groups@[k]
                    == orig[k])),
            forall|k: i64| #[trigger]
                orig.contains_key(k) ==> orig[k]@ == records_in(period, m@, k as int),
            forall|k: i64|
                !#[trigger] orig.contains_key(k) ==> records_in(period, m@, k as int)
                    == Seq::<&'a AdverseEventRecord>::empty(),
        decreases hi_key - period_key(period, start@) + (if more {
            1int
        } else {
            0int
        }),
    {
        proof {
            use_type_invariant(&start);
            lemma_start_year(period, start@, hi@);
        }
        let end = period_end(period, &start);
        let key = key_of(period, &start);
        let records: Vec<&'a AdverseEventRecord> = match groups.remove(&key) {
            Some(g) => g,
            None => Vec::new(),
        };
        out.push(DatePeriodContainer { period, start, end, value: AdverseEventsView { records } });
        if key < hi_key {
            proof {
                lemma_next_period(period, start@, end@, hi@);
                let n = out@.len() as int;
                let step = period_step(period);
                assert(n * step == (n - 1) * step + step) by (nonlinear_arith);
            }
            start = end.next_day();
        } else {
            more = false;
        }
    }
    out
}

} // verus!
