//! Breakdowns: counts of the records of a view by category or by range.
use crate::error::Error;
use crate::grouping::{answers, group_by_owned, sort_map};
use crate::record::{
    has_any_event, lemma_filter_agree, lemma_selected_by, AdverseEventRecord, AdverseEventsView,
};
use crate::text::{range_label, range_label_string, str_eq};
use vstd::prelude::*;
use vstd::std_specs::hash::obeys_key_model;

verus! {

broadcast use vstd::std_specs::hash::group_hash_axioms;

/// A count under a label.
pub struct LabeledCount {
    pub label: String,
    pub value: usize,
}

/// The kinds of breakdown.
#[derive(Clone, Copy, Debug, PartialEq, Eq, Structural)]
pub enum BreakdownType {
    WithComplications,
    WithEvent,
    PatientAge,
    PatientBmi,
    PatientSmoker,
}

/// The token that names each kind of breakdown.
pub open spec fn breakdown_token(t: BreakdownType) -> Seq<char> {
    match t {
        BreakdownType::WithComplications => "complications"@,
        BreakdownType::WithEvent => "event"@,
        BreakdownType::PatientAge => "age"@,
        BreakdownType::PatientBmi => "bmi"@,
        BreakdownType::PatientSmoker => "smoker"@,
    }
}

/// No two kinds of breakdown share a token.
pub proof fn lemma_breakdown_tokens_distinct(t1: BreakdownType, t2: BreakdownType)
    ensures
        breakdown_token(t1) == breakdown_token(t2) ==> t1 == t2,
{
    reveal_strlit("complications");
    reveal_strlit("event");
    reveal_strlit("age");
    reveal_strlit("bmi");
    reveal_strlit("smoker");
    if breakdown_token(t1) == breakdown_token(t2) {
        assert(breakdown_token(t1)[0] == breakdown_token(t2)[0]);
    }
}

/// The kind of breakdown that `s` names, exactly and in lower case.
pub fn parse_breakdown_type(s: &str) -> (r: Result<BreakdownType, Error>)
    ensures
        forall|t: BreakdownType| breakdown_token(t) == s@ ==> r == Ok::<BreakdownType, Error>(t),
        r matches Ok(t) ==> breakdown_token(t) == s@,
        r is Err ==> forall|t: BreakdownType| breakdown_token(t) != s@,
        r matches Err(Error::ParseError { target, received }) ==> target@
            == "BreakdownType"@ && received@ == s@,
{
    proof {
        assert forall|t1: BreakdownType, t2: BreakdownType|
            breakdown_token(t1) == s@ && breakdown_token(t2) == s@ implies t1 == t2 by {
            lemma_breakdown_tokens_distinct(t1, t2);
        }
        assert(breakdown_token(BreakdownType::WithComplications) == "complications"@);
        assert(breakdown_token(BreakdownType::WithEvent) == "event"@);
        assert(breakdown_token(BreakdownType::PatientAge) == "age"@);
        assert(breakdown_token(BreakdownType::PatientBmi) == "bmi"@);
        assert(breakdown_token(BreakdownType::PatientSmoker) == "smoker"@);
    }
    if str_eq(s, "complications") {
        Ok(BreakdownType::WithComplications)
    } else if str_eq(s, "event") {
        Ok(BreakdownType::WithEvent)
    } else if str_eq(s, "age") {
        Ok(BreakdownType::PatientAge)
    } else if str_eq(s, "bmi") {
        Ok(BreakdownType::PatientBmi)
    } else if str_eq(s, "smoker") {
        Ok(BreakdownType::PatientSmoker)
    } else {
        proof {
            assert forall|t: BreakdownType| breakdown_token(t) != s@ by {
                match t {
                    BreakdownType::WithComplications => {},
                    BreakdownType::WithEvent => {},
                    BreakdownType::PatientAge => {},
                    BreakdownType::PatientBmi => {},
                    BreakdownType::PatientSmoker => {},
                }
            }
        }
        Err(Error::ParseError { target: "BreakdownType", received: s.to_owned() })
    }
}

impl std::str::FromStr for BreakdownType {
    type Err = Error;

    fn from_str(s: &str) -> Result<Self, Self::Err> {
        parse_breakdown_type(s)
    }
}

/// Start of the range of `width` that holds `v`.
pub open spec fn range_start(v: int, width: int) -> int {
    v - v % width
}

/// `r` counts `records` by ranges of `width` of `value`: one entry for each
/// range that holds a record, in ascending order, labelled "start - end",
/// with the number of records in it.
pub open spec fn is_range_breakdown<'a>(
    r: Seq<LabeledCount>,
    records: Seq<&'a AdverseEventRecord>,
    width: int,
    value: spec_fn(&'a AdverseEventRecord) -> int,
) -> bool {
    exists|starts: Seq<nat>| #[trigger] range_breakdown_over(r, records, width, value, starts)
}

/// `r` is the breakdown of `is_range_breakdown`, with ranges that start at
/// `starts`.
pub open spec fn range_breakdown_over<'a>(
    r: Seq<LabeledCount>,
    records: Seq<&'a AdverseEventRecord>,
    width: int,
    value: spec_fn(&'a AdverseEventRecord) -> int,
    starts: Seq<nat>,
) -> bool {
    &&& starts.len() == r.len()
    &&& forall|i: int, j: int| 0 <= i < j < starts.len() ==> starts[i] < starts[j]
    &&& forall|i: int|
        #![trigger r[i]]
        0 <= i < r.len() ==> r[i].label@ == range_label(starts[i], (starts[i] + width - 1) as nat)
            && r[i].value == records.filter(
            |x: &'a AdverseEventRecord| range_start(value(x), width) == starts[i],
        ).len()
    &&& forall|k: int|
        0 <= k < records.len() ==> starts.contains(
            range_start(value(#[trigger] records[k]), width) as nat,
        )
    &&& forall|i: int| 0 <= i < r.len() ==> #[trigger] r[i].value > 0
}

pub open spec fn age_of(x: &AdverseEventRecord) -> int {
    x.age as int
}

pub open spec fn bmi_of(x: &AdverseEventRecord) -> int {
    x.bmi as int
}

pub open spec fn is_smoker_with_event(x: &AdverseEventRecord) -> bool {
    has_any_event(x) && x.smoker
}

pub open spec fn is_non_smoker_with_event(x: &AdverseEventRecord) -> bool {
    has_any_event(x) && !x.smoker
}

/// Counts `records` by ranges of `width` of `value`, where `value` reads
/// the integer that `key_value` reads.
fn range_breakdown<'a, F: Fn(&'a AdverseEventRecord) -> usize>(
    records: &Vec<&'a AdverseEventRecord>,
    width: usize,
    key_value: F,
    value: Ghost<spec_fn(&'a AdverseEventRecord) -> int>,
) -> (r: Vec<LabeledCount>)
    requires
        1 <= width <= 10,
        forall|x: &'a AdverseEventRecord| #[trigger] key_value.requires((x,)),
        forall|x: &'a AdverseEventRecord, k: usize|
            key_value.ensures((x,), k) ==> k == range_start(value@(x), width as int),
        forall|x: &'a AdverseEventRecord| 0 <= #[trigger] value@(x) <= u32::MAX,
    ensures
        is_range_breakdown(r@, records@, width as int, value@),
{
    let groups = group_by_owned(records.as_slice(), key_value);
    let ghost g = groups@;
    proof {
        assert(obeys_key_model::<usize>());
    }
    let sorted = sort_map(groups);
    let mut out: Vec<LabeledCount> = Vec::new();
    let mut i: usize = 0;
    while i < sorted.len()
        invariant
            i <= sorted@.len(),
            out@.len() == i,
            1 <= width <= 10,
            forall|k: usize| #[trigger] g.contains_key(k) ==> k <= u32::MAX,
            forall|j: int| 0 <= j < sorted@.len() ==> g.contains_key(#[trigger] sorted@[j].0),
            forall|j: int|
                #![trigger out@[j]]
                0 <= j < i ==> out@[j].label@ == range_label(
                    sorted@[j].0 as nat,
                    (sorted@[j].0 + width - 1) as nat,
                ) && out@[j].value == sorted@[j].1@.len(),
        decreases sorted@.len() - i,
    {
        let k = sorted[i].0;
        proof {
            assert(g.contains_key(sorted@[i as int].0));
        }
        let label = range_label_string(k as u64, k as u64 + width as u64 - 1);
        out.push(LabeledCount { label, value: sorted[i].1.len() });
        i = i + 1;
    }
    proof {
        let starts = sorted@.map_values(|e: (usize, Vec<&'a AdverseEventRecord>)| e.0 as nat);
        let items = records@;
        assert forall|kk: usize| #[trigger] g.contains_key(kk) implies g[kk]@ == items.filter(
            |x: &'a AdverseEventRecord| range_start(value@(x), width as int) == kk as nat,
        ) by {
            assert forall|n: int| 0 <= n < items.len() implies (|x: &'a AdverseEventRecord|
                key_value.ensures((x,), kk))(#[trigger] items[n]) == (|x: &'a AdverseEventRecord|
                range_start(value@(x), width as int) == kk as nat)(items[n]) by {
                assert(answers(key_value, items[n]));
            }
            lemma_filter_agree(
                items,
                |x: &'a AdverseEventRecord| key_value.ensures((x,), kk),
                |x: &'a AdverseEventRecord| range_start(value@(x), width as int) == kk as nat,
            );
        }
        assert forall|n: int| 0 <= n < items.len() implies starts.contains(
            range_start(value@(#[trigger] items[n]), width as int) as nat,
        ) by {
            assert(answers(key_value, items[n]));
            let kk = choose|kk: usize| #[trigger] key_value.ensures((items[n],), kk);
            assert(g.contains_key(kk));
            let j = choose|j: int| 0 <= j < sorted@.len() && sorted@[j].0 == kk;
            assert(starts[j] == kk as nat);
        }
        assert forall|j: int| #![trigger out@[j]] 0 <= j < out@.len() implies out@[j].label@ == range_label(
                starts[j],
                (starts[j] + width - 1) as nat,
            ) && out@[j].value == items.filter(
                |x: &'a AdverseEventRecord| range_start(value@(x), width as int) == starts[j],
            ).len() by {
            assert(g.contains_key(sorted@[j].0));
        }
        assert(starts.len() == out@.len());
        assert forall|i: int, j: int| 0 <= i < j < starts.len() implies starts[i] < starts[j] by {
            assert(sorted@[i].0 < sorted@[j].0);
        }
        assert forall|i: int| 0 <= i < out@.len() implies #[trigger] out@[i].value > 0 by {
            broadcast use vstd::seq_lib::group_filter_ensures;

            let kk = sorted@[i].0;
            assert(g.contains_key(kk));
            let n = choose|n: int| 0 <= n < items.len() && key_value.ensures((items[n],), kk);
            assert(range_start(value@(items[n]), width as int) == starts[i]);
            assert(items.filter(
                |x: &'a AdverseEventRecord| range_start(value@(x), width as int) == starts[i],
            ).contains(items[n]));
        }
        assert(range_breakdown_over(out@, items, width as int, value@, starts));
    }
    out
}

/// Number of `records` that meet `p`.
pub open spec fn count_of<'a>(
    records: Seq<&'a AdverseEventRecord>,
    p: spec_fn(&'a AdverseEventRecord) -> bool,
) -> nat {
    records.filter(p).len()
}

impl<'a> AdverseEventsView<'a> {
    /// Counts the records of the view by the categories of `breakdown_type`.
    /// Complications and adverse events are counted over every record; age,
    /// body-mass index and smoking only over the records with an adverse
    /// event. Age goes by ranges of ten years and body-mass index by ranges
    /// of five units, each range that holds a record listed once, in
    /// ascending order.
    pub fn get_breakdown(&self, breakdown_type: BreakdownType) -> (r: Vec<LabeledCount>)
        ensures
            breakdown_type == BreakdownType::WithComplications ==> {
                &&& r@.len() == 3
                &&& r@[0].label@ == "With complications"@
                &&& r@[0].value == count_of(
                    self.records@,
                    |x: &'a AdverseEventRecord| x.complications == Some(true),
                )
                &&& r@[1].label@ == "Without complications"@
                &&& r@[1].value == count_of(
                    self.records@,
                    |x: &'a AdverseEventRecord| x.complications == Some(false),
                )
                &&& r@[2].label@ == "Unspecified complications"@
                &&& r@[2].value == count_of(
                    self.records@,
                    |x: &'a AdverseEventRecord| x.complications is None,
                )
            },
            breakdown_type == BreakdownType::WithEvent ==> {
                &&& r@.len() == 2
                &&& r@[0].label@ == "With event"@
                &&& r@[0].value == count_of(
                    self.records@,
                    |x: &'a AdverseEventRecord| has_any_event(x),
                )
                &&& r@[1].label@ == "Without event"@
                &&& r@[1].value == count_of(
                    self.records@,
                    |x: &'a AdverseEventRecord| !has_any_event(x),
                )
            },
            breakdown_type == BreakdownType::PatientSmoker ==> {
                &&& r@.len() == 2
                &&& r@[0].label@ == "Smoker"@
                &&& r@[0].value == count_of(
                    self.records@,
                    |x: &'a AdverseEventRecord| is_smoker_with_event(x),
                )
                &&& r@[1].label@ == "Non-smoker"@
                &&& r@[1].value == count_of(
                    self.records@,
                    |x: &'a AdverseEventRecord| is_non_smoker_with_event(x),
                )
            },
            breakdown_type == BreakdownType::PatientAge ==> is_range_breakdown(
                r@,
                self.records@.filter(|x: &'a AdverseEventRecord| has_any_event(x)),
                10,
                |x: &'a AdverseEventRecord| age_of(x),
            ),
            breakdown_type == BreakdownType::PatientBmi ==> is_range_breakdown(
                r@,
                self.records@.filter(|x: &'a AdverseEventRecord| has_any_event(x)),
                5,
                |x: &'a AdverseEventRecord| bmi_of(x),
            ),
    {
        match breakdown_type {
            BreakdownType::WithComplications => {
                let yes = |x: &AdverseEventRecord| -> (b: bool)
                    ensures
                        b == (x.complications == Some(true)),
                    {
                        match x.complications {
                            Some(c) => c,
                            None => false,
                        }
                    };
                let no = |x: &AdverseEventRecord| -> (b: bool)
                    ensures
                        b == (x.complications == Some(false)),
                    {
                        match x.complications {
                            Some(c) => !c,
                            None => false,
                        }
                    };
                let unknown = |x: &AdverseEventRecord| -> (b: bool)
                    ensures
                        b == (x.complications is None),
                    { x.complications.is_none() };
                let n_yes = self.count(yes);
                let n_no = self.count(no);
                let n_unknown = self.count(unknown);
                proof {
                    lemma_selected_by(
                        self.records@,
                        yes,
                        |x: &'a AdverseEventRecord| x.complications == Some(true),
                    );
                    lemma_selected_by(
                        self.records@,
                        no,
                        |x: &'a AdverseEventRecord| x.complications == Some(false),
                    );
                    lemma_selected_by(
                        self.records@,
                        unknown,
                        |x: &'a AdverseEventRecord| x.complications is None,
                    );
                }
                let mut r: Vec<LabeledCount> = Vec::new();
                r.push(LabeledCount { label: "With complications".to_owned(), value: n_yes });
                r.push(LabeledCount { label: "Without complications".to_owned(), value: n_no });
                r.push(
                    LabeledCount { label: "Unspecified complications".to_owned(), value: n_unknown },
                );
                r
            },
            BreakdownType::WithEvent => {
                let with = |x: &AdverseEventRecord| -> (b: bool)
                    ensures
                        b == has_any_event(x),
                    { x.adverse_events.len() > 0 };
                let without = |x: &AdverseEventRecord| -> (b: bool)
                    ensures
                        b == !has_any_event(x),
                    { x.adverse_events.len() == 0 };
                let n_with = self.count(with);
                let n_without = self.count(without);
                proof {
                    lemma_selected_by(
                        self.records@,
                        with,
                        |x: &'a AdverseEventRecord| has_any_event(x),
                    );
                    lemma_selected_by(
                        self.records@,
                        without,
                        |x: &'a AdverseEventRecord| !has_any_event(x),
                    );
                }
                let mut r: Vec<LabeledCount> = Vec::new();
                r.push(LabeledCount { label: "With event".to_owned(), value: n_with });
                r.push(LabeledCount { label: "Without event".to_owned(), value: n_without });
                r
            },
            BreakdownType::PatientSmoker => {
                let smoker = |x: &AdverseEventRecord| -> (b: bool)
                    ensures
                        b == is_smoker_with_event(x),
                    { x.adverse_events.len() > 0 && x.smoker };
                let non_smoker = |x: &AdverseEventRecord| -> (b: bool)
                    ensures
                        b == is_non_smoker_with_event(x),
                    { x.adverse_events.len() > 0 && !x.smoker };
                let n_smoker = self.count(smoker);
                let n_non_smoker = self.count(non_smoker);
                proof {
                    lemma_selected_by(
                        self.records@,
                        smoker,
                        |x: &'a AdverseEventRecord| is_smoker_with_event(x),
                    );
                    lemma_selected_by(
                        self.records@,
                        non_smoker,
                        |x: &'a AdverseEventRecord| is_non_smoker_with_event(x),
                    );
                }
                let mut r: Vec<LabeledCount> = Vec::new();
                r.push(LabeledCount { label: "Smoker".to_owned(), value: n_smoker });
                r.push(LabeledCount { label: "Non-smoker".to_owned(), value: n_non_smoker });
                r
            },
            BreakdownType::PatientAge => {
                let with_events = self.with_any_event();
                let ghost age = |x: &'a AdverseEventRecord| age_of(x);
                let range_of = |x: &AdverseEventRecord| -> (k: usize)
                    ensures
                        k == range_start(age_of(x), 10),
                    { (x.age as usize) - (x.age as usize) % 10 };
                range_breakdown(&with_events.records, 10, range_of, Ghost(age))
            },
            BreakdownType::PatientBmi => {
                let with_events = self.with_any_event();
                let ghost bmi = |x: &'a AdverseEventRecord| bmi_of(x);
                let range_of = |x: &AdverseEventRecord| -> (k: usize)
                    ensures
                        k == range_start(bmi_of(x), 5),
                    { (x.bmi as usize) - (x.bmi as usize) % 5 };
                range_breakdown(&with_events.records, 5, range_of, Ghost(bmi))
            },
        }
    }
}

} // verus!
