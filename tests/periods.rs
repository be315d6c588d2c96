use adverse_events::{
    join_counts, AdverseEventRecord, AdverseEvents, Date, DatePeriodContainer, Period, Time,
    Timeseries, TimeseriesType,
};
use std::str::FromStr;

fn date(y: i32, m: u32, d: u32) -> Date {
    Date::from_ymd_opt(y, m, d).unwrap()
}

fn record(d: Date, events: &[&str], complications: Option<bool>) -> AdverseEventRecord {
    AdverseEventRecord {
        date: d,
        mrn: String::new(),
        episode_id: String::new(),
        patient_name: String::new(),
        diagnosis: String::new(),
        procedure: String::new(),
        anesthesiologist: String::new(),
        anesthesia_staff: Vec::new(),
        location: String::new(),
        complications,
        adverse_events: events.iter().map(|e| e.to_string()).collect(),
        asa: 1,
        an_start: Time::from_hms_opt(8, 0, 0).unwrap(),
        an_stop: Time::from_hms_opt(9, 0, 0).unwrap(),
        smoker: false,
        age: 30,
        bmi: 22,
    }
}

fn has_event(r: &AdverseEventRecord) -> bool {
    !r.adverse_events.is_empty()
}

fn example_set() -> AdverseEvents {
    AdverseEvents {
        records: vec![
            record(date(2021, 1, 5), &["hypotension"], None),
            record(date(2021, 1, 5), &[], None),
            record(date(2021, 2, 10), &["hypotension", "nausea"], None),
        ],
    }
}

#[test]
fn month_buckets_of_example_count_event_records() {
    let set = example_set();
    let view = set.view();
    let buckets = view.by_period(Period::Month, has_event);
    let counts: Vec<(Date, Date, usize)> = buckets
        .iter()
        .map(|b| {
            let c = b.to_count();
            (c.start, c.end, c.value)
        })
        .collect();
    assert_eq!(
        counts,
        vec![
            (date(2021, 1, 1), date(2021, 1, 31), 1),
            (date(2021, 2, 1), date(2021, 2, 28), 1),
        ]
    );
}

#[test]
fn day_buckets_cover_every_day() {
    let set = example_set();
    let view = set.view();
    let buckets = view.by_period(Period::Day, has_event);
    assert_eq!(buckets.len(), 37);
    for (i, b) in buckets.iter().enumerate() {
        assert_eq!(b.start, b.end);
        assert_eq!(b.start.day_number(), date(2021, 1, 5).day_number() + i as i64);
    }
    assert_eq!(buckets[0].value.len(), 1);
    assert_eq!(buckets[36].start, date(2021, 2, 10));
    assert_eq!(buckets[36].value.len(), 1);
    assert_eq!(buckets[1].value.len(), 0);
}

#[test]
fn day_buckets_use_filtered_dates() {
    let set = AdverseEvents {
        records: vec![
            record(date(2021, 1, 1), &[], None),
            record(date(2021, 1, 3), &["x"], None),
            record(date(2021, 1, 4), &["x"], None),
            record(date(2021, 1, 9), &[], None),
        ],
    };
    let view = set.view();
    let buckets = view.by_period(Period::Day, has_event);
    assert_eq!(buckets.len(), 2);
    assert_eq!(buckets[0].start, date(2021, 1, 3));
    assert_eq!(buckets[1].end, date(2021, 1, 4));
}

#[test]
fn day_buckets_of_nothing_matching_are_empty() {
    let set = AdverseEvents { records: vec![record(date(2021, 1, 1), &[], None)] };
    let view = set.view();
    assert!(view.by_period(Period::Day, has_event).is_empty());
    assert_eq!(view.by_period(Period::Month, has_event).len(), 1);
}

#[test]
fn month_buckets_handle_february_and_new_year() {
    let set = AdverseEvents {
        records: vec![
            record(date(2019, 12, 20), &[], None),
            record(date(2020, 3, 1), &[], None),
            record(date(2021, 2, 14), &[], None),
        ],
    };
    let view = set.view();
    let buckets = view.by_period(Period::Month, |_: &AdverseEventRecord| true);
    assert_eq!(buckets.len(), 15);
    assert_eq!(buckets[0].start, date(2019, 12, 1));
    assert_eq!(buckets[0].end, date(2019, 12, 31));
    assert_eq!(buckets[1].start, date(2020, 1, 1));
    assert_eq!(buckets[2].end, date(2020, 2, 29));
    assert_eq!(buckets[14].start, date(2021, 2, 1));
    assert_eq!(buckets[14].end, date(2021, 2, 28));
    assert_eq!(buckets[3].value.len(), 1);
    assert_eq!(buckets[2].value.len(), 0);
}

#[test]
fn week_buckets_run_monday_to_sunday() {
    let set = AdverseEvents {
        records: vec![
            record(date(2020, 12, 31), &["x"], None),
            record(date(2021, 1, 12), &[], None),
        ],
    };
    let view = set.view();
    let buckets = view.by_period(Period::Week, has_event);
    assert_eq!(buckets.len(), 3);
    assert_eq!(buckets[0].start, date(2020, 12, 28));
    assert_eq!(buckets[0].end, date(2021, 1, 3));
    assert_eq!(buckets[1].start, date(2021, 1, 4));
    assert_eq!(buckets[2].start, date(2021, 1, 11));
    assert_eq!(buckets[2].end, date(2021, 1, 17));
    assert_eq!(buckets[0].value.len(), 1);
    assert_eq!(buckets[2].value.len(), 0);
}

#[test]
fn year_buckets_span_whole_years() {
    let set = AdverseEvents {
        records: vec![
            record(date(2018, 6, 1), &[], None),
            record(date(2020, 6, 1), &["x"], None),
        ],
    };
    let view = set.view();
    let buckets = view.by_period(Period::Year, has_event);
    assert_eq!(buckets.len(), 3);
    assert_eq!(buckets[1].start, date(2019, 1, 1));
    assert_eq!(buckets[1].end, date(2019, 12, 31));
    assert_eq!(buckets[0].value.len(), 0);
    assert_eq!(buckets[2].value.len(), 1);
}

#[test]
fn join_gives_zero_for_missing_and_empty_periods() {
    let totals = vec![
        DatePeriodContainer { period: Period::Day, start: date(2021, 1, 1), end: date(2021, 1, 1), value: 0usize },
        DatePeriodContainer { period: Period::Day, start: date(2021, 1, 2), end: date(2021, 1, 2), value: 4usize },
    ];
    let matched = vec![DatePeriodContainer {
        period: Period::Day,
        start: date(2021, 1, 2),
        end: date(2021, 1, 2),
        value: 3usize,
    }];
    let joined = join_counts(&matched, &totals);
    assert_eq!(joined.len(), 2);
    assert_eq!(joined[0].value, (0, 0));
    assert_eq!(joined[1].value, (3, 4));
    assert_eq!(joined[1].start, date(2021, 1, 2));
}

#[test]
fn percentage_series_never_exceeds_totals() {
    let set = AdverseEvents {
        records: vec![
            record(date(2021, 1, 5), &["x"], Some(true)),
            record(date(2021, 1, 6), &[], Some(false)),
            record(date(2021, 3, 2), &["y"], None),
        ],
    };
    let view = set.view();
    match view.timeseries(TimeseriesType::EventPercentage, Period::Month) {
        Timeseries::Fractions(f) => {
            let values: Vec<(usize, usize)> = f.iter().map(|p| p.value).collect();
            assert_eq!(values, vec![(1, 2), (0, 0), (1, 1)]);
            assert!(f.iter().all(|p| p.value.0 <= p.value.1));
            assert_eq!(f[1].start, date(2021, 2, 1));
        }
        Timeseries::Counts(_) => panic!("expected fractions"),
    }
    match view.timeseries(TimeseriesType::ComplicationOccurredCount, Period::Month) {
        Timeseries::Counts(c) => {
            let values: Vec<usize> = c.iter().map(|p| p.value).collect();
            assert_eq!(values, vec![1, 0, 0]);
        }
        Timeseries::Fractions(_) => panic!("expected counts"),
    }
    match view.timeseries(TimeseriesType::ComplicationSpecifiedCount, Period::Day) {
        Timeseries::Counts(c) => {
            let values: Vec<usize> = c.iter().map(|p| p.value).collect();
            assert_eq!(values, vec![1, 1]);
        }
        Timeseries::Fractions(_) => panic!("expected counts"),
    }
}

#[test]
fn period_tokens_ignore_case() {
    assert_eq!(Period::from_str("day").unwrap(), Period::Day);
    assert_eq!(Period::from_str("WEEK").unwrap(), Period::Week);
    assert_eq!(Period::from_str("Month").unwrap(), Period::Month);
    assert_eq!(Period::from_str("year").unwrap(), Period::Year);
    let err = Period::from_str("Fortnight").unwrap_err();
    assert_eq!(err.message(), "ParseError: invalid Period: Fortnight");
}

#[test]
fn period_error_keeps_text_as_received() {
    match Period::from_str("X") {
        Err(adverse_events::Error::ParseError { target, received }) => {
            assert_eq!(target, "Period");
            assert_eq!(received, "X");
        }
        Ok(_) => panic!("not a period"),
    }
}

#[test]
fn timeseries_tokens() {
    assert_eq!(TimeseriesType::from_str("event_count").unwrap(), TimeseriesType::EventCount);
    assert_eq!(
        TimeseriesType::from_str("complication_occurred_percentage").unwrap(),
        TimeseriesType::ComplicationOccurredPercentage
    );
    assert!(TimeseriesType::from_str("Event_Count").is_err());
}
