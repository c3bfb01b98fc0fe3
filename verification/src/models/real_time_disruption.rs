use vstd::prelude::*;

use crate::timetables::FlowDirection;

verus! {

/// A day, counted from 1970-01-01 (negative before it).
pub type Date = i32;

/// A date and time in UTC, in seconds since 1970-01-01 00:00:00 (negative before it).
pub type DateTime = i64;

/// Number of seconds in a day.
pub const SECONDS_PER_DAY: i64 = 86400;

/// The largest distance to 1970-01-01 00:00:00, in seconds, of the bounds of the periods whose
/// dates are enumerated (about 4.4 million years), so that every such date fits in a `Date`.
pub const DATETIME_LIMIT: i64 = 140_737_488_355_328;

/// A date and time lies within the limit that lets its date fit in a `Date`.
pub open spec fn within_limit(datetime: int) -> bool {
    -DATETIME_LIMIT <= datetime <= DATETIME_LIMIT
}

/// The date of a date and time.
pub open spec fn date_of(datetime: int) -> int {
    datetime / (SECONDS_PER_DAY as int)
}

/// The half-open period `[start, end)` of date and times; it is empty when `end <= start`.
#[derive(Debug, Clone, Copy, PartialEq, Eq, Structural)]
pub struct TimePeriod {
    pub start: DateTime,
    pub end: DateTime,
}

impl TimePeriod {
    pub open spec fn contains_spec(self, datetime: int) -> bool {
        self.start <= datetime < self.end
    }

    pub open spec fn intersects_spec(self, other: TimePeriod) -> bool {
        self.start < other.end && other.start < self.end
    }

    /// The period from `start` to `end`, or `None` when `start` comes after `end`.
    pub fn new(start: DateTime, end: DateTime) -> (result: Option<TimePeriod>)
        ensures
            result == (if start <= end { Some(TimePeriod { start, end }) } else { None::<TimePeriod> }),
    {
        if start <= end {
            Some(TimePeriod { start, end })
        } else {
            None
        }
    }

    /// Whether the date and time lies in the period.
    pub fn contains(&self, datetime: &DateTime) -> (result: bool)
        ensures
            result == self.contains_spec(*datetime as int),
    {
        self.start <= *datetime && *datetime < self.end
    }

    /// Whether the two periods share an instant.
    pub fn intersects(&self, other: &TimePeriod) -> (result: bool)
        ensures
            result == self.intersects_spec(*other),
    {
        self.start < other.end && other.start < self.end
    }
}

/// The instants that both periods hold, when there is at least one.
pub open spec fn intersection_spec(lhs: TimePeriod, rhs: TimePeriod) -> Option<TimePeriod> {
    let start = if lhs.start <= rhs.start { rhs.start } else { lhs.start };
    let end = if lhs.end <= rhs.end { lhs.end } else { rhs.end };
    if start < end {
        Some(TimePeriod { start, end })
    } else {
        None
    }
}

/// The period of the instants that lie in both periods, or `None` when they share none.
pub fn intersection(lhs: &TimePeriod, rhs: &TimePeriod) -> (result: Option<TimePeriod>)
    ensures
        result == intersection_spec(*lhs, *rhs),
        result matches Some(period) ==> (forall|t: int|
            period.contains_spec(t) <==> lhs.contains_spec(t) && rhs.contains_spec(t)),
        result is None ==> (forall|t: int| !(lhs.contains_spec(t) && rhs.contains_spec(t))),
{
    let start = if lhs.start <= rhs.start { rhs.start } else { lhs.start };
    let end = if lhs.end <= rhs.end { lhs.end } else { rhs.end };
    if start < end {
        Some(TimePeriod { start, end })
    } else {
        None
    }
}

/// Whether one of the periods holds the date and time.
pub open spec fn periods_contain(periods: Seq<TimePeriod>, datetime: int) -> bool {
    exists|i: int| 0 <= i < periods.len() && (#[trigger] periods[i]).contains_spec(datetime)
}

/// Whether one of the periods shares an instant with `period`.
pub open spec fn periods_intersect(periods: Seq<TimePeriod>, period: TimePeriod) -> bool {
    exists|i: int| 0 <= i < periods.len() && (#[trigger] periods[i]).intersects_spec(period)
}

/// The earliest start of the periods.
pub open spec fn earliest_start(periods: Seq<TimePeriod>) -> int
    decreases periods.len(),
{
    if periods.len() <= 1 {
        periods[0].start as int
    } else {
        let previous = earliest_start(periods.drop_last());
        if periods.last().start < previous { periods.last().start as int } else { previous }
    }
}

/// The latest end of the periods.
pub open spec fn latest_end(periods: Seq<TimePeriod>) -> int
    decreases periods.len(),
{
    if periods.len() <= 1 {
        periods[0].end as int
    } else {
        let previous = latest_end(periods.drop_last());
        if periods.last().end > previous { periods.last().end as int } else { previous }
    }
}

/// Of a non-empty list of periods, the earliest start is the start of one of them, and no period
/// starts earlier; the latest end is the end of one of them, and no period ends later.
pub proof fn lemma_earliest_start_latest_end(periods: Seq<TimePeriod>)
    requires
        periods.len() > 0,
    ensures
        forall|i: int| 0 <= i < periods.len() ==> earliest_start(periods) <= (#[trigger] periods[i]).start
            && periods[i].end <= latest_end(periods),
        exists|i: int| 0 <= i < periods.len() && (#[trigger] periods[i]).start == earliest_start(periods),
        exists|i: int| 0 <= i < periods.len() && (#[trigger] periods[i]).end == latest_end(periods),
    decreases periods.len(),
{
    if periods.len() > 1 {
        let previous = periods.drop_last();
        lemma_earliest_start_latest_end(previous);
        assert forall|i: int| 0 <= i < periods.len() implies earliest_start(periods) <= (#[trigger] periods[i]).start
            && periods[i].end <= latest_end(periods) by {
            if i < periods.len() - 1 {
                assert(periods[i] == previous[i]);
            }
        }
        let s = choose|i: int| 0 <= i < previous.len() && (#[trigger] previous[i]).start == earliest_start(previous);
        let e = choose|i: int| 0 <= i < previous.len() && (#[trigger] previous[i]).end == latest_end(previous);
        assert(periods[s] == previous[s]);
        assert(periods[e] == previous[e]);
        let n = periods.len() - 1;
        if periods[n].start < earliest_start(previous) {
            assert(periods[n].start == earliest_start(periods));
        } else {
            assert(periods[s].start == earliest_start(periods));
        }
        if periods[n].end > latest_end(previous) {
            assert(periods[n].end == latest_end(periods));
        } else {
            assert(periods[e].end == latest_end(periods));
        }
    } else {
        assert(periods[0].start == earliest_start(periods));
        assert(periods[0].end == latest_end(periods));
    }
}

/// The first date on which a trip may run during one of the periods: the day before the date of
/// the earliest start, as a trip that starts on a day may run past midnight.
pub open spec fn first_date_concerned(periods: Seq<TimePeriod>) -> int {
    date_of(earliest_start(periods)) - 1
}

/// The last date on which a trip may run during one of the periods: the date of the latest end.
pub open spec fn last_date_concerned(periods: Seq<TimePeriod>) -> int {
    date_of(latest_end(periods))
}

/// A non-empty list of periods.
pub struct TimePeriods {
    pub periods: Vec<TimePeriod>,
}

impl TimePeriods {
    pub open spec fn view(&self) -> Seq<TimePeriod> {
        self.periods@
    }

    /// There is at least one period.
    pub open spec fn wf(&self) -> bool {
        self.periods@.len() > 0
    }

    /// Every bound of every period lies within the limit that lets its date fit in a `Date`.
    pub open spec fn within_limit(&self) -> bool {
        forall|i: int| 0 <= i < self.periods@.len() ==> within_limit((#[trigger] self.periods@[i]).start as int)
            && within_limit(self.periods@[i].end as int)
    }

    /// The list of the given periods, or `None` when there is none.
    pub fn new(periods: &[TimePeriod]) -> (result: Option<TimePeriods>)
        ensures
            periods@.len() == 0 ==> result is None,
            periods@.len() > 0 ==> (result matches Some(p) && p.wf() && p@ == periods@),
    {
        if periods.len() == 0 {
            None
        } else {
            let mut list: Vec<TimePeriod> = Vec::new();
            let mut i: usize = 0;
            while i < periods.len()
                invariant
                    i <= periods@.len(),
                    list@ == periods@.subrange(0, i as int),
                decreases periods@.len() - i,
            {
                list.push(periods[i]);
                i = i + 1;
                proof {
                    assert(list@ =~= periods@.subrange(0, i as int));
                }
            }
            proof {
                assert(list@ =~= periods@);
            }
            Some(TimePeriods { periods: list })
        }
    }

    /// Whether one of the periods holds the date and time.
    pub fn contains(&self, datetime: &DateTime) -> (result: bool)
        ensures
            result == periods_contain(self@, *datetime as int),
    {
        let mut i: usize = 0;
        while i < self.periods.len()
            invariant
                i <= self.periods@.len(),
                forall|k: int| 0 <= k < i ==> !(#[trigger] self.periods@[k]).contains_spec(*datetime as int),
            decreases self.periods@.len() - i,
        {
            if self.periods[i].contains(datetime) {
                return true;
            }
            i = i + 1;
        }
        false
    }

    /// Whether one of the periods shares an instant with `period`.
    pub fn intersects(&self, period: &TimePeriod) -> (result: bool)
        ensures
            result == periods_intersect(self@, *period),
    {
        let mut i: usize = 0;
        while i < self.periods.len()
            invariant
                i <= self.periods@.len(),
                forall|k: int| 0 <= k < i ==> !(#[trigger] self.periods@[k]).intersects_spec(*period),
            decreases self.periods@.len() - i,
        {
            if self.periods[i].intersects(period) {
                return true;
            }
            i = i + 1;
        }
        false
    }

    /// The dates on which a trip may run during one of the periods, in increasing order: from
    /// the day before the date of the earliest start to the date of the latest end.
    pub fn dates_possibly_concerned(&self) -> (result: Vec<Date>)
        requires
            self.wf(),
            self.within_limit(),
        ensures
            result@.len() == (if first_date_concerned(self@) <= last_date_concerned(self@) {
                last_date_concerned(self@) - first_date_concerned(self@) + 1
            } else {
                0
            }),
            forall|k: int| 0 <= k < result@.len() ==> #[trigger] result@[k] == first_date_concerned(self@) + k,
    {
        let mut earliest: DateTime = self.periods[0].start;
        let mut latest: DateTime = self.periods[0].end;
        let mut i: usize = 1;
        proof {
            assert(self.periods@.subrange(0, 1).drop_last() =~= Seq::<TimePeriod>::empty());
            assert(earliest_start(self.periods@.subrange(0, 1)) == earliest);
            assert(latest_end(self.periods@.subrange(0, 1)) == latest);
        }
        while i < self.periods.len()
            invariant
                1 <= i <= self.periods@.len(),
                self.within_limit(),
                earliest == earliest_start(self.periods@.subrange(0, i as int)),
                latest == latest_end(self.periods@.subrange(0, i as int)),
                within_limit(earliest as int),
                within_limit(latest as int),
            decreases self.periods@.len() - i,
        {
            let period = self.periods[i];
            proof {
                assert(self.periods@.subrange(0, i + 1).drop_last() =~= self.periods@.subrange(0, i as int));
                assert(within_limit(self.periods@[i as int].start as int));
            }
            if period.start < earliest {
                earliest = period.start;
            }
            if period.end > latest {
                latest = period.end;
            }
            i = i + 1;
        }
        proof {
            assert(self.periods@.subrange(0, i as int) =~= self.periods@);
        }
        let first_date: Date = date_of_datetime(earliest) - 1;
        let last_date: Date = date_of_datetime(latest);
        let mut dates: Vec<Date> = Vec::new();
        let mut date: Date = first_date;
        while date <= last_date
            invariant
                first_date <= date,
                date <= last_date + 1 || date == first_date,
                first_date == first_date_concerned(self@),
                last_date == last_date_concerned(self@),
                last_date < i32::MAX,
                dates@.len() == date - first_date,
                forall|k: int| 0 <= k < dates@.len() ==> #[trigger] dates@[k] == first_date + k,
            decreases last_date + 1 - date,
        {
            dates.push(date);
            date = date + 1;
        }
        dates
    }
}

/// The date of a date and time within the limit.
fn date_of_datetime(datetime: DateTime) -> (result: Date)
    requires
        within_limit(datetime as int),
    ensures
        result == date_of(datetime as int),
        -1_700_000_000 < result < 1_700_000_000,
{
    // shifted by a whole number of days, the date and time is non-negative
    let shifted: i64 = datetime + 1_700_000_000 * SECONDS_PER_DAY;
    let days: i64 = shifted / SECONDS_PER_DAY;
    proof {
        vstd::arithmetic::div_mod::lemma_hoist_over_denominator(datetime as int, 1_700_000_000, 86400);
        assert(days == shifted as int / 86400);
        assert(0 <= days <= 3_400_000_000) by (nonlinear_arith)
            requires
                days == shifted as int / 86400,
                0 <= shifted <= 140_737_488_355_328 + 1_700_000_000 * 86400;
    }
    (days - 1_700_000_000) as Date
}

/// The identifier of a vehicle journey.
#[derive(Debug, Clone, PartialEq, Eq)]
pub struct VehicleJourneyId {
    pub id: String,
}

/// The identifier of a network.
#[derive(Debug, Clone, PartialEq, Eq)]
pub struct NetworkId {
    pub id: String,
}

/// The identifier of a line.
#[derive(Debug, Clone, PartialEq, Eq)]
pub struct LineId {
    pub id: String,
}

/// The identifier of a route.
#[derive(Debug, Clone, PartialEq, Eq)]
pub struct RouteId {
    pub id: String,
}

/// The identifier of a stop area.
#[derive(Debug, Clone, PartialEq, Eq)]
pub struct StopAreaId {
    pub id: String,
}

/// The identifier of a stop point.
#[derive(Debug, Clone, PartialEq, Eq)]
pub struct StopPointId {
    pub id: String,
}

/// A stop time of a trip as a disruption gives it: the stop point by its identifier.
#[derive(Debug, Clone, PartialEq, Eq)]
pub struct StopTime {
    pub stop_id: String,
    pub arrival_time: u32,
    pub departure_time: u32,
    pub flow_direction: FlowDirection,
}

/// The new stop times of a trip (a vehicle journey on a date).
#[derive(Debug, Clone, PartialEq, Eq)]
pub struct TripDisruption {
    pub trip_id: VehicleJourneyId,
    pub trip_date: Date,
    pub stop_times: Vec<StopTime>,
}

/// A section of a line between two stop areas.
#[derive(Debug, Clone, PartialEq, Eq)]
pub struct LineSection {
    pub line: LineId,
    pub start: StopAreaId,
    pub end: StopAreaId,
}

/// A section of a rail line between two stop areas.
#[derive(Debug, Clone, PartialEq, Eq)]
pub struct RailSection {
    pub line: LineId,
    pub start: StopAreaId,
    pub end: StopAreaId,
}

/// An object of the transit network that an impact changes.
#[derive(Debug, Clone, PartialEq, Eq)]
pub enum Impacted {
    NetworkDeleted(NetworkId),
    LineDeleted(LineId),
    RouteDeleted(RouteId),
    BaseTripDeleted(VehicleJourneyId),
    StopAreaDeleted(StopAreaId),
    StopPointDeleted(StopPointId),
    RailSection(RailSection),
    LineSection(LineSection),
    TripDeleted(VehicleJourneyId, Date),
    BaseTripUpdated(TripDisruption),
    NewTripUpdated(TripDisruption),
}

/// An object of the transit network that an impact only informs about.
#[derive(Debug, Clone, PartialEq, Eq)]
pub enum Informed {
    Network(NetworkId),
    Route(RouteId),
    Line(LineId),
    Trip(VehicleJourneyId),
    StopArea(StopAreaId),
    StopPoint(StopPointId),
    Unknown,
}

/// One effect of a disruption, during its application periods.
#[derive(Debug, Clone, PartialEq, Eq)]
pub struct Impact {
    pub id: String,
    pub application_periods: Vec<TimePeriod>,
    pub impacted_pt_objects: Vec<Impacted>,
    pub informed_pt_objects: Vec<Informed>,
}

/// A disruption of the transit network, made of impacts.
#[derive(Debug, Clone, PartialEq, Eq)]
pub struct Disruption {
    pub id: String,
    pub impacts: Vec<Impact>,
}

} // verus!
