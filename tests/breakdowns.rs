use adverse_events::{
    group_by, group_by_owned, sort_map, AdverseEventRecord, AdverseEvents, BreakdownType, Date,
    Error, LabeledCount, Time,
};
use std::collections::HashMap;
use std::str::FromStr;

fn record(age: u8, bmi: u32, smoker: bool, events: &[&str], complications: Option<bool>) -> AdverseEventRecord {
    AdverseEventRecord {
        date: Date::from_ymd_opt(2021, 6, 1).unwrap(),
        mrn: String::new(),
        episode_id: String::new(),
        patient_name: String::new(),
        diagnosis: String::new(),
        procedure: String::new(),
        anesthesiologist: String::new(),
        anesthesia_staff: Vec::new(),
        location: String::new(),
        complications,
        adverse_events: events.iter().map(|e| e.to_string()).collect(),
        asa: 1,
        an_start: Time::from_hms_opt(8, 0, 0).unwrap(),
        an_stop: Time::from_hms_opt(9, 0, 0).unwrap(),
        smoker,
        age,
        bmi,
    }
}

fn pairs(counts: &[LabeledCount]) -> Vec<(String, usize)> {
    counts.iter().map(|c| (c.label.clone(), c.value)).collect()
}

#[test]
fn age_breakdown_of_four_records() {
    let set = AdverseEvents {
        records: vec![
            record(45, 20, false, &["x"], None),
            record(22, 20, false, &["x"], None),
            record(31, 20, false, &["x"], None),
            record(29, 20, false, &["x"], None),
            record(70, 20, false, &[], None),
        ],
    };
    let view = set.view();
    assert_eq!(
        pairs(&view.get_breakdown(BreakdownType::PatientAge)),
        vec![
            ("20 - 29".to_string(), 2),
            ("30 - 39".to_string(), 1),
            ("40 - 49".to_string(), 1),
        ]
    );
}

#[test]
fn bmi_breakdown_counts_event_records_by_fives() {
    let set = AdverseEvents {
        records: vec![
            record(30, 24, false, &["x"], None),
            record(30, 25, false, &["x"], None),
            record(30, 29, false, &["x"], None),
            record(30, 7, false, &["x"], None),
            record(30, 40, false, &[], None),
        ],
    };
    let view = set.view();
    assert_eq!(
        pairs(&view.get_breakdown(BreakdownType::PatientBmi)),
        vec![
            ("5 - 9".to_string(), 1),
            ("20 - 24".to_string(), 1),
            ("25 - 29".to_string(), 2),
        ]
    );
}

#[test]
fn complication_breakdown_counts_every_record() {
    let set = AdverseEvents {
        records: vec![
            record(30, 20, false, &[], Some(true)),
            record(30, 20, false, &[], Some(false)),
            record(30, 20, false, &["x"], Some(false)),
            record(30, 20, false, &[], None),
        ],
    };
    let view = set.view();
    assert_eq!(
        pairs(&view.get_breakdown(BreakdownType::WithComplications)),
        vec![
            ("With complications".to_string(), 1),
            ("Without complications".to_string(), 2),
            ("Unspecified complications".to_string(), 1),
        ]
    );
    assert_eq!(
        pairs(&view.get_breakdown(BreakdownType::WithEvent)),
        vec![("With event".to_string(), 1), ("Without event".to_string(), 3)]
    );
}

#[test]
fn smoker_breakdown_counts_event_records_only() {
    let set = AdverseEvents {
        records: vec![
            record(30, 20, true, &["x"], None),
            record(30, 20, true, &[], None),
            record(30, 20, false, &["x"], None),
            record(30, 20, false, &["y"], None),
        ],
    };
    let view = set.view();
    assert_eq!(
        pairs(&view.get_breakdown(BreakdownType::PatientSmoker)),
        vec![("Smoker".to_string(), 1), ("Non-smoker".to_string(), 2)]
    );
}

#[test]
fn breakdown_tokens() {
    assert_eq!(BreakdownType::from_str("complications").unwrap(), BreakdownType::WithComplications);
    assert_eq!(BreakdownType::from_str("event").unwrap(), BreakdownType::WithEvent);
    assert_eq!(BreakdownType::from_str("age").unwrap(), BreakdownType::PatientAge);
    assert_eq!(BreakdownType::from_str("bmi").unwrap(), BreakdownType::PatientBmi);
    assert_eq!(BreakdownType::from_str("smoker").unwrap(), BreakdownType::PatientSmoker);
    match BreakdownType::from_str("Age") {
        Err(Error::ParseError { target, received }) => {
            assert_eq!(target, "BreakdownType");
            assert_eq!(received, "Age");
        }
        Ok(_) => panic!("token is case-sensitive"),
    }
    assert_eq!(
        BreakdownType::from_str("weight").unwrap_err().message(),
        "ParseError: invalid BreakdownType: weight"
    );
}

#[test]
fn sort_map_orders_by_key() {
    let mut map: HashMap<usize, &str> = HashMap::new();
    map.insert(30, "c");
    map.insert(10, "a");
    map.insert(20, "b");
    assert_eq!(sort_map(map), vec![(10, "a"), (20, "b"), (30, "c")]);
    assert!(sort_map(HashMap::<usize, u8>::new()).is_empty());
}

#[test]
fn group_by_owned_keeps_order_within_groups() {
    let items = [3u32, 14, 5, 16, 7];
    let refs: Vec<&u32> = items.iter().collect();
    let groups = group_by_owned(&refs, |x: &u32| *x >= 10);
    assert_eq!(groups[&false], vec![&3, &5, &7]);
    assert_eq!(groups[&true], vec![&14, &16]);
    assert_eq!(groups.len(), 2);
}

fn name_of<'a>(x: &'a (&'static str, u8)) -> &'a &'static str {
    &x.0
}

#[test]
fn group_by_borrows_keys() {
    let items: [(&'static str, u8); 3] = [("a", 1), ("b", 2), ("a", 3)];
    let refs: Vec<&(&'static str, u8)> = items.iter().collect();
    let groups = group_by(&refs, name_of);
    assert_eq!(groups[&"a"].len(), 2);
    assert_eq!(groups[&"b"][0].1, 2);
}
