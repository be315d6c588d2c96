//! Time series of counts and of matched-out-of-total fractions.
use crate::error::Error;
use crate::record::{
    has_any_event, lemma_filter_true, lemma_selected_by, AdverseEventRecord, AdverseEventsView,
};
use crate::text::str_eq;
use crate::time_period::{
    count_for, is_bucketing, join_counts, lemma_narrower_period_count, period_key, records_in,
    years_inside_i32, DatePeriodContainer, DatePeriodCount, DatePeriodFraction, DatePeriodView,
    Period,
};
use vstd::prelude::*;

verus! {

/// What a time series counts in each period: the records with an adverse
/// event, those whose complications were recorded either way, or those with
/// complications; as a count, or as a fraction of all records.
#[derive(Clone, Copy, Debug, PartialEq, Eq, Structural)]
pub enum TimeseriesType {
    EventCount,
    EventPercentage,
    ComplicationSpecifiedCount,
    ComplicationSpecifiedPercentage,
    ComplicationOccurredCount,
    ComplicationOccurredPercentage,
}

/// A time series: counts, or matched and total counts, per period.
pub enum Timeseries {
    Counts(Vec<DatePeriodCount>),
    Fractions(Vec<DatePeriodFraction>),
}

pub open spec fn timeseries_token(t: TimeseriesType) -> Seq<char> {
    match t {
        TimeseriesType::EventCount => "event_count"@,
        TimeseriesType::EventPercentage => "event_percentage"@,
        TimeseriesType::ComplicationSpecifiedCount => "complication_specified_count"@,
        TimeseriesType::ComplicationSpecifiedPercentage => "complication_specified_percentage"@,
        TimeseriesType::ComplicationOccurredCount => "complication_occurred_count"@,
        TimeseriesType::ComplicationOccurredPercentage => "complication_occurred_percentage"@,
    }
}

/// The kind of time series that `s` names.
pub fn parse_timeseries_type(s: &str) -> (r: Result<TimeseriesType, Error>)
    ensures
        r matches Ok(t) ==> timeseries_token(t) == s@,
        r is Err ==> forall|t: TimeseriesType| timeseries_token(t) != s@,
        r matches Err(Error::ParseError { target, received }) ==> target@ == "TimeseriesType"@
            && received@ == s@,
{
    if str_eq(s, "event_count") {
        Ok(TimeseriesType::EventCount)
    } else if str_eq(s, "event_percentage") {
        Ok(TimeseriesType::EventPercentage)
    } else if str_eq(s, "complication_specified_count") {
        Ok(TimeseriesType::ComplicationSpecifiedCount)
    } else if str_eq(s, "complication_specified_percentage") {
        Ok(TimeseriesType::ComplicationSpecifiedPercentage)
    } else if str_eq(s, "complication_occurred_count") {
        Ok(TimeseriesType::ComplicationOccurredCount)
    } else if str_eq(s, "complication_occurred_percentage") {
        Ok(TimeseriesType::ComplicationOccurredPercentage)
    } else {
        proof {
            assert forall|t: TimeseriesType| timeseries_token(t) != s@ by {
                match t {
                    TimeseriesType::EventCount => {},
                    TimeseriesType::EventPercentage => {},
                    TimeseriesType::ComplicationSpecifiedCount => {},
                    TimeseriesType::ComplicationSpecifiedPercentage => {},
                    TimeseriesType::ComplicationOccurredCount => {},
                    TimeseriesType::ComplicationOccurredPercentage => {},
                }
            }
        }
        Err(Error::ParseError { target: "TimeseriesType", received: s.to_owned() })
    }
}

impl std::str::FromStr for TimeseriesType {
    type Err = Error;

    fn from_str(s: &str) -> Result<Self, Self::Err> {
        parse_timeseries_type(s)
    }
}

/// Whether the series of kind `t` counts `x`.
pub open spec fn counted_by(t: TimeseriesType, x: &AdverseEventRecord) -> bool {
    match t {
        TimeseriesType::EventCount | TimeseriesType::EventPercentage => has_any_event(x),
        TimeseriesType::ComplicationSpecifiedCount
        | TimeseriesType::ComplicationSpecifiedPercentage => x.complications is Some,
        TimeseriesType::ComplicationOccurredCount
        | TimeseriesType::ComplicationOccurredPercentage => x.complications == Some(true),
    }
}

pub open spec fn is_fraction_kind(t: TimeseriesType) -> bool {
    t == TimeseriesType::EventPercentage || t == TimeseriesType::ComplicationSpecifiedPercentage
        || t == TimeseriesType::ComplicationOccurredPercentage
}

/// The number of records of each bucket, with its period and days.
pub open spec fn counts_of<'a>(buckets: Seq<DatePeriodView<'a>>) -> Seq<DatePeriodCount> {
    buckets.map_values(
        |b: DatePeriodView<'a>|
            DatePeriodContainer {
                period: b.period,
                start: b.start,
                end: b.end,
                value: b.value.records@.len() as usize,
            },
    )
}

/// The records over which bucketing by `p` finds its first and last period
/// when it keeps `matching` out of `records`.
pub open spec fn bucket_domain<'a>(
    p: Period,
    records: Seq<&'a AdverseEventRecord>,
    matching: Seq<&'a AdverseEventRecord>,
) -> Seq<&'a AdverseEventRecord> {
    if p == Period::Day {
        matching
    } else {
        records
    }
}

/// `count_for` finds nothing, or the count of a period with those days.
proof fn lemma_count_for_source(counts: Seq<DatePeriodCount>, start: crate::calendar::Date, end: crate::calendar::Date)
    ensures
        count_for(counts, start, end) == 0 || exists|j: int|
            0 <= j < counts.len() && counts[j].start == start && counts[j].end == end
                && counts[j].value == count_for(counts, start, end),
    decreases counts.len(),
{
    if counts.len() > 0 && !(counts[0].start == start && counts[0].end == end) {
        lemma_count_for_source(counts.drop_first(), start, end);
        if count_for(counts.drop_first(), start, end) != 0 {
            let j = choose|j: int|
                0 <= j < counts.drop_first().len() && counts.drop_first()[j].start == start
                    && counts.drop_first()[j].end == end && counts.drop_first()[j].value
                    == count_for(counts.drop_first(), start, end);
            assert(counts[j + 1] == counts.drop_first()[j]);
        }
    }
}

/// The number of records in each of `buckets`.
pub fn to_counts<'a>(buckets: &Vec<DatePeriodView<'a>>) -> (r: Vec<DatePeriodCount>)
    ensures
        r@ == counts_of(buckets@),
        forall|i: int|
            0 <= i < buckets@.len() ==> #[trigger] r@[i].value == buckets@[i].value.records@.len(),
{
    let mut out: Vec<DatePeriodCount> = Vec::new();
    let mut i: usize = 0;
    while i < buckets.len()
        invariant
            i <= buckets@.len(),
            out@ == counts_of(buckets@.subrange(0, i as int)),
            forall|j: int| 0 <= j < i ==> #[trigger] out@[j].value == buckets@[j].value.records@.len(),
        decreases buckets@.len() - i,
    {
        out.push(buckets[i].to_count());
        proof {
            assert(counts_of(buckets@.subrange(0, i as int + 1)) =~= counts_of(
                buckets@.subrange(0, i as int),
            ).push(out@.last()));
        }
        i = i + 1;
    }
    proof {
        assert(buckets@.subrange(0, buckets@.len() as int) == buckets@);
    }
    out
}

impl<'a> AdverseEventsView<'a> {
    /// The records of kind `t`, bucketed by `period`.
    fn bucket_kind(&self, t: TimeseriesType, period: Period) -> (r: Vec<DatePeriodView<'a>>)
        requires
            years_inside_i32(self.records@),
        ensures
            is_bucketing(
                period,
                r@,
                bucket_domain(
                    period,
                    self.records@,
                    self.records@.filter(|x: &'a AdverseEventRecord| counted_by(t, x)),
                ),
                self.records@.filter(|x: &'a AdverseEventRecord| counted_by(t, x)),
            ),
    {
        let f = |x: &AdverseEventRecord| -> (b: bool)
            ensures
                b == counted_by(t, x),
            {
                match t {
                    TimeseriesType::EventCount | TimeseriesType::EventPercentage => x.adverse_events.len()
                        > 0,
                    TimeseriesType::ComplicationSpecifiedCount
                    | TimeseriesType::ComplicationSpecifiedPercentage => x.complications.is_some(),
                    TimeseriesType::ComplicationOccurredCount
                    | TimeseriesType::ComplicationOccurredPercentage => match x.complications {
                        Some(c) => c,
                        None => false,
                    },
                }
            };
        let r = self.by_period(period, f);
        proof {
            lemma_selected_by(self.records@, f, |x: &'a AdverseEventRecord| counted_by(t, x));
        }
        r
    }

    /// The records of every period of `period`, whatever they hold.
    fn bucket_all(&self, period: Period) -> (r: Vec<DatePeriodView<'a>>)
        requires
            years_inside_i32(self.records@),
        ensures
            is_bucketing(period, r@, self.records@, self.records@),
    {
        let f = |x: &AdverseEventRecord| -> (b: bool)
            ensures
                b,
            { true };
        let r = self.by_period(period, f);
        proof {
            lemma_selected_by(self.records@, f, |x: &'a AdverseEventRecord| true);
            lemma_filter_true(self.records@);
        }
        r
    }

    /// The time series of kind `t` by `period`. A count series holds, for
    /// each period of the bucketing of the records that `t` counts, how many
    /// there are. A fraction series follows the periods of the bucketing of
    /// all records and pairs, for each, the count of the period with the same
    /// days among those of the counted records (0 where there is none) with
    /// the number of all its records.
    pub fn timeseries(&self, t: TimeseriesType, period: Period) -> (r: Timeseries)
        requires
            years_inside_i32(self.records@),
        ensures
            !is_fraction_kind(t) ==> (r matches Timeseries::Counts(c) && exists|b: Seq<DatePeriodView<'a>>|
                is_bucketing(
                    period,
                    b,
                    bucket_domain(
                        period,
                        self.records@,
                        self.records@.filter(|x: &'a AdverseEventRecord| counted_by(t, x)),
                    ),
                    self.records@.filter(|x: &'a AdverseEventRecord| counted_by(t, x)),
                ) && c@ == #[trigger] counts_of(b)),
            is_fraction_kind(t) ==> (r matches Timeseries::Fractions(f) && exists|
                nb: Seq<DatePeriodView<'a>>,
                db: Seq<DatePeriodView<'a>>,
            |
                #![trigger is_bucketing(period, db, self.records@, self.records@), counts_of(nb)]
                is_bucketing(
                    period,
                    nb,
                    bucket_domain(
                        period,
                        self.records@,
                        self.records@.filter(|x: &'a AdverseEventRecord| counted_by(t, x)),
                    ),
                    self.records@.filter(|x: &'a AdverseEventRecord| counted_by(t, x)),
                ) && is_bucketing(period, db, self.records@, self.records@) && f@.len()
                    == db.len() && forall|i: int|
                    #![trigger f@[i]]
                    0 <= i < f@.len() ==> {
                        &&& f@[i].period == db[i].period
                        &&& f@[i].start == db[i].start
                        &&& f@[i].end == db[i].end
                        &&& f@[i].value.0 == count_for(counts_of(nb), db[i].start, db[i].end)
                        &&& f@[i].value.1 == db[i].value.records@.len()
                    } && forall|i: int| 0 <= i < f@.len() ==> #[trigger] f@[i].value.0 <= f@[i].value.1),
    {
        let matched = self.bucket_kind(t, period);
        let counts = to_counts(&matched);
        match t {
            TimeseriesType::EventPercentage
            | TimeseriesType::ComplicationSpecifiedPercentage
            | TimeseriesType::ComplicationOccurredPercentage => {
                let all = self.bucket_all(period);
                let totals = to_counts(&all);
                let f = join_counts(&counts, &totals);
                proof {
                    assert forall|i: int| 0 <= i < f@.len() implies f@[i].value.1
                        == all@[i].value.records@.len() by {
                        assert(totals@[i].value == all@[i].value.records@.len());
                    }
                    let m = self.records@.filter(|x: &'a AdverseEventRecord| counted_by(t, x));
                    assert forall|i: int| 0 <= i < f@.len() implies #[trigger] f@[i].value.0
                        <= f@[i].value.1 by {
                        let start = all@[i].start;
                        let end = all@[i].end;
                        let k = period_key(period, start@);
                        lemma_count_for_source(counts@, start, end);
                        if count_for(counts@, start, end) != 0 {
                            let j = choose|j: int|
                                0 <= j < counts@.len() && counts@[j].start == start
                                    && counts@[j].end == end && counts@[j].value == count_for(
                                    counts@,
                                    start,
                                    end,
                                );
                            assert(counts@[j].value == matched@[j].value.records@.len());
                            assert(matched@[j].value.records@ == records_in(period, m, k));
                            assert(all@[i].value.records@ == records_in(period, self.records@, k));
                            lemma_narrower_period_count(
                                period,
                                self.records@,
                                |x: &'a AdverseEventRecord| counted_by(t, x),
                                |x: &'a AdverseEventRecord| true,
                                k,
                            );
                            lemma_filter_true(self.records@);
                        }
                    }
                }
                Timeseries::Fractions(f)
            },
            _ => Timeseries::Counts(counts),
        }
    }
}

} // verus!
