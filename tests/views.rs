use adverse_events::{
    sort_by_name, AdverseEventRecord, AdverseEvents, AdverseEventsView, Date, Time,
};

fn date(y: i32, m: u32, d: u32) -> Date {
    Date::from_ymd_opt(y, m, d).unwrap()
}

fn time(h: u32, m: u32) -> Time {
    Time::from_hms_opt(h, m, 0).unwrap()
}

fn record(d: Date, events: &[&str]) -> AdverseEventRecord {
    AdverseEventRecord {
        date: d,
        mrn: "100".to_string(),
        episode_id: "E1".to_string(),
        patient_name: "Pat".to_string(),
        diagnosis: "diag".to_string(),
        procedure: "appendectomy".to_string(),
        anesthesiologist: "Dr. Lee".to_string(),
        anesthesia_staff: vec!["Ann".to_string(), "Bob".to_string()],
        location: "OR1".to_string(),
        complications: None,
        adverse_events: events.iter().map(|e| e.to_string()).collect(),
        asa: 2,
        an_start: time(8, 0),
        an_stop: time(9, 0),
        smoker: false,
        age: 40,
        bmi: 25,
    }
}

fn example_set() -> AdverseEvents {
    AdverseEvents {
        records: vec![
            record(date(2021, 1, 5), &["hypotension"]),
            record(date(2021, 1, 5), &[]),
            record(date(2021, 2, 10), &["hypotension", "nausea"]),
        ],
    }
}

fn sorted_counts(view: &AdverseEventsView) -> Vec<(String, usize)> {
    sort_by_name(&view.event_counts())
}

#[test]
fn event_counts_of_example() {
    let set = example_set();
    let view = set.view();
    assert_eq!(
        sorted_counts(&view),
        vec![("hypotension".to_string(), 2), ("nausea".to_string(), 1)]
    );
}

#[test]
fn event_counts_sum_to_pairs_not_records() {
    let set = AdverseEvents {
        records: vec![
            record(date(2021, 1, 1), &["a", "b", "c"]),
            record(date(2021, 1, 2), &["a"]),
        ],
    };
    let view = set.view();
    let counts = view.event_counts();
    let total: usize = counts.iter().map(|(_, c)| *c).sum();
    assert_eq!(total, 4);
    assert_ne!(total, view.len());
}

#[test]
fn event_counts_of_empty_view() {
    let view = AdverseEventsView::empty();
    assert!(view.event_counts().is_empty());
    assert!(view.date_range().is_none());
    assert_eq!(view.len(), 0);
}

#[test]
fn filter_keeps_matching_records_only() {
    let set = example_set();
    let view = set.view();
    let filtered = view.with_filter(|r: &AdverseEventRecord| r.adverse_events.len() == 2);
    assert!(filtered.len() <= view.len());
    assert_eq!(filtered.len(), 1);
    assert!(filtered.records.iter().all(|r| r.adverse_events.len() == 2));
    assert_eq!(view.count(|r: &AdverseEventRecord| r.adverse_events.is_empty()), 1);
}

#[test]
fn with_any_event_is_idempotent() {
    let set = example_set();
    let view = set.view();
    let once = view.with_any_event();
    let twice = once.with_any_event();
    assert_eq!(once.len(), 2);
    assert_eq!(twice.len(), once.len());
    for (a, b) in once.records.iter().zip(twice.records.iter()) {
        assert!(std::ptr::eq(*a, *b));
    }
}

#[test]
fn with_event_matches_exact_names() {
    let set = example_set();
    let view = set.view();
    assert_eq!(view.with_event("nausea").len(), 1);
    assert_eq!(view.with_event("hypotension").len(), 2);
    assert_eq!(view.with_event("Nausea").len(), 0);
    assert_eq!(view.with_event("nause").len(), 0);
}

#[test]
fn between_is_inclusive() {
    let set = example_set();
    let view = set.view();
    assert_eq!(view.between(date(2021, 1, 5), date(2021, 2, 10)).len(), 3);
    assert_eq!(view.between(date(2021, 1, 6), date(2021, 2, 10)).len(), 1);
    assert_eq!(view.between(date(2021, 1, 1), date(2021, 1, 5)).len(), 2);
    assert_eq!(view.between(date(2021, 2, 11), date(2021, 12, 31)).len(), 0);
}

#[test]
fn between_times_is_overlap_with_strict_bounds() {
    let mut early = record(date(2021, 1, 1), &[]);
    early.an_start = time(8, 0);
    early.an_stop = time(8, 59);
    let mut late = record(date(2021, 1, 1), &[]);
    late.an_start = time(10, 1);
    late.an_stop = time(11, 0);
    let mut inside = record(date(2021, 1, 1), &[]);
    inside.an_start = time(9, 30);
    inside.an_stop = time(9, 45);
    let mut touching = record(date(2021, 1, 1), &[]);
    touching.an_start = time(8, 0);
    touching.an_stop = time(9, 0);
    let set = AdverseEvents { records: vec![early, late, inside, touching] };
    let view = set.view();
    let window = view.between_times(time(9, 0), time(10, 0));
    assert_eq!(window.len(), 1);
    assert_eq!(window.records[0].an_start, time(9, 30));
}

#[test]
fn staff_procedure_and_anesthesiologist_filters() {
    let mut other = record(date(2021, 1, 1), &[]);
    other.anesthesia_staff = vec!["Cy".to_string()];
    other.procedure = "hernia repair".to_string();
    other.anesthesiologist = "Dr. Kim".to_string();
    let set = AdverseEvents { records: vec![record(date(2021, 1, 1), &[]), other] };
    let view = set.view();
    assert_eq!(view.with_staff("Bob").len(), 1);
    assert_eq!(view.with_staff("Cy").len(), 1);
    assert_eq!(view.with_staff("Dan").len(), 0);
    assert_eq!(view.with_procedure("hernia repair").len(), 1);
    assert_eq!(view.by_anesthesiologist("Dr. Lee").len(), 1);
}

#[test]
fn date_range_finds_extremes() {
    let set = AdverseEvents {
        records: vec![
            record(date(2021, 3, 1), &[]),
            record(date(2020, 12, 31), &[]),
            record(date(2021, 3, 2), &[]),
            record(date(2021, 1, 1), &[]),
        ],
    };
    let view = set.view();
    assert_eq!(view.date_range(), Some((date(2020, 12, 31), date(2021, 3, 2))));
}

#[test]
fn sort_by_name_orders_by_code_point() {
    let entries = vec![
        ("nausea".to_string(), 1),
        ("Bradycardia".to_string(), 4),
        ("hypotension".to_string(), 2),
        ("hypo".to_string(), 3),
    ];
    assert_eq!(
        sort_by_name(&entries),
        vec![
            ("Bradycardia".to_string(), 4),
            ("hypo".to_string(), 3),
            ("hypotension".to_string(), 2),
            ("nausea".to_string(), 1),
        ]
    );
}

#[test]
fn event_counts_follow_first_occurrence() {
    let set = AdverseEvents {
        records: vec![
            record(date(2021, 1, 1), &["b", "a"]),
            record(date(2021, 1, 2), &["a", "c"]),
        ],
    };
    let view = set.view();
    assert_eq!(
        view.event_counts(),
        vec![("b".to_string(), 1), ("a".to_string(), 2), ("c".to_string(), 1)]
    );
}

#[test]
fn new_record_set_is_empty() {
    let set = AdverseEvents::new();
    assert_eq!(set.view().len(), 0);
}

#[test]
fn complication_filters() {
    let mut yes = record(date(2021, 1, 1), &[]);
    yes.complications = Some(true);
    let mut no = record(date(2021, 1, 2), &[]);
    no.complications = Some(false);
    let unknown = record(date(2021, 1, 3), &[]);
    let set = AdverseEvents { records: vec![yes, no, unknown] };
    let view = set.view();
    let specified = view.with_complications_specified();
    assert_eq!(specified.len(), 2);
    assert_eq!(specified.records[1].date, date(2021, 1, 2));
    let occurred = view.with_complications_occurred();
    assert_eq!(occurred.len(), 1);
    assert_eq!(occurred.records[0].date, date(2021, 1, 1));
}
