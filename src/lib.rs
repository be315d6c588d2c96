//! Analysis of anaesthesia case records: filtered views over a record set,
//! calendar-period time series and categorical breakdowns.
use vstd::prelude::*;

pub mod breakdown;
pub mod calendar;
pub mod error;
pub mod grouping;
pub mod record;
pub mod text;
pub mod time_period;
pub mod timeseries;

pub use breakdown::{parse_breakdown_type, BreakdownType, LabeledCount};
pub use calendar::{Date, Time, Ymd};
pub use error::Error;
pub use grouping::{group_by, group_by_owned, sort_by_name, sort_map};
pub use record::{AdverseEventRecord, AdverseEvents, AdverseEventsView};
pub use text::parse_yes_no;
pub use time_period::{
    join_counts, parse_period, DatePeriodContainer, DatePeriodCount, DatePeriodFraction,
    DatePeriodView, Period,
};
pub use timeseries::{parse_timeseries_type, Timeseries, TimeseriesType};

verus! {

} // verus!
