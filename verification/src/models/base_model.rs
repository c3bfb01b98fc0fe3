use chrono::TimeZone;
use vstd::prelude::*;

use crate::models::real_time_disruption::{
    within_limit, Date, DateTime, TimePeriod, SECONDS_PER_DAY,
};
use crate::models::{StopPointIdx, StopTime};

verus! {

/// The date and time at `seconds` after the start (in UTC) of `date`.
pub open spec fn datetime_of(date: Date, seconds: u32) -> int {
    date * SECONDS_PER_DAY + seconds
}

/// The date and time at `seconds` after the start (in UTC) of `date`.
pub fn compose(date: &Date, seconds: &u32) -> (result: DateTime)
    ensures
        result == datetime_of(*date, *seconds),
{
    let days: i64 = *date as i64;
    proof {
        assert(-2_147_483_648 * 86400 <= days * SECONDS_PER_DAY <= 2_147_483_647 * 86400) by (nonlinear_arith)
            requires -2_147_483_648 <= days <= 2_147_483_647, SECONDS_PER_DAY == 86400;
    }
    days * SECONDS_PER_DAY + *seconds as i64
}

/// The number chrono gives (days from the common era, 0001-01-01 being day 1) to 1970-01-01.
pub const DAYS_FROM_CE_TO_EPOCH: i32 = 719163;

/// How chrono-tz places noon, local time, of a date (numbered as chrono's
/// `NaiveDate::from_num_days_from_ce_opt` does) in the timezone whose name is `timezone`, as
/// seconds since 1970-01-01 00:00:00 UTC: `None` when the name is not one of its database, the
/// date is out of chrono's range, or that noon is not exactly one instant there.
pub uninterp spec fn local_noon_in_utc(timezone: Seq<char>, days_from_ce: i32) -> Option<i64>;

/// Places noon, local time, of a date in a timezone with chrono-tz: the name is parsed with
/// `Tz`'s `FromStr` (a lookup in its database), the date made with
/// `NaiveDate::from_num_days_from_ce_opt` and `and_hms_opt(12, 0, 0)`, then placed with
/// `TimeZone::from_local_datetime(..).single()` and `timestamp`. None of these panics. The
/// contract claims that the result is `local_noon_in_utc` of the name and the day, and nothing
/// more.
#[verifier::external_body]
fn local_noon_utc(timezone: &String, days_from_ce: i32) -> (result: Option<i64>)
    ensures
        result == local_noon_in_utc(timezone@, days_from_ce),
{
    let tz = match timezone.parse::<chrono_tz::Tz>() {
        Ok(tz) => tz,
        Err(_) => return None,
    };
    let noon = match chrono::NaiveDate::from_num_days_from_ce_opt(days_from_ce) {
        Some(date) => date.and_hms_opt(12, 0, 0)?,
        None => return None,
    };
    match tz.from_local_datetime(&noon).single() {
        Some(datetime) => Some(datetime.timestamp()),
        None => None,
    }
}

/// The date and time at `seconds` after the start of `date` in the timezone whose name is
/// `timezone`, when it has one: the start of a day is taken, as in GTFS, twelve hours before its
/// noon. The time is taken in UTC when there is no timezone, or when chrono-tz cannot place that
/// noon (see `local_noon_in_utc`) or the result would not fit in an `i64`.
pub open spec fn timezoned_datetime(timezone: Option<String>, date: Date, seconds: u32) -> int {
    let utc = datetime_of(date, seconds);
    match timezone {
        Some(name) => if date + DAYS_FROM_CE_TO_EPOCH <= i32::MAX {
            match local_noon_in_utc(name@, (date + DAYS_FROM_CE_TO_EPOCH) as i32) {
                Some(noon) => if i64::MIN <= noon - 43200 + seconds <= i64::MAX { noon - 43200 + seconds } else { utc },
                None => utc,
            }
        } else {
            utc
        },
        None => utc,
    }
}

/// The date and time at `seconds` after the start of `date` in the timezone, if any (see
/// `timezoned_datetime`).
pub fn compose_in(timezone: &Option<String>, date: &Date, seconds: &u32) -> (result: DateTime)
    ensures
        result == timezoned_datetime(*timezone, *date, *seconds),
{
    let utc = compose(date, seconds);
    match timezone {
        Some(name) => {
            let days_from_ce = match date.checked_add(DAYS_FROM_CE_TO_EPOCH) {
                Some(days) => days,
                None => {
                    return utc;
                },
            };
            proof {
                assert(*timezone == Some(*name));
                assert(days_from_ce == *date + DAYS_FROM_CE_TO_EPOCH);
            }
            match local_noon_utc(name, days_from_ce) {
                Some(noon) => {
                    let offset: i64 = *seconds as i64 - 43200;
                    match noon.checked_add(offset) {
                        Some(datetime) => datetime,
                        None => utc,
                    }
                },
                None => utc,
            }
        },
        None => utc,
    }
}

/// A vehicle journey of the base schedule.
pub struct BaseVehicleJourney {
    pub id: String,
    /// The network of its line, when it has one.
    pub network: Option<String>,
    /// Its line, when its route has one.
    pub line: Option<String>,
    pub route: String,
    /// The name of its timezone (as `Europe/Paris`), when it has one; its times are taken in
    /// UTC when it has none.
    pub timezone: Option<String>,
    /// The dates on which it runs.
    pub dates: Vec<Date>,
    /// Its stop times, in the order of its stops; the times count from the start of its date.
    pub stop_times: Vec<StopTime>,
}

/// A stop point of the base schedule, with the stop area it belongs to.
pub struct BaseStopPoint {
    pub id: String,
    pub stop_area: String,
}

/// The base schedule: its vehicle journeys, its stop points, the identifiers of its networks,
/// lines, routes and stop areas, and the period it covers.
pub struct BaseModel {
    pub vehicle_journeys: Vec<BaseVehicleJourney>,
    pub stop_points: Vec<BaseStopPoint>,
    pub networks: Vec<String>,
    pub lines: Vec<String>,
    pub routes: Vec<String>,
    pub stop_areas: Vec<String>,
    pub time_period: TimePeriod,
}

/// Whether `id` is one of `ids`.
pub open spec fn has_id(ids: Seq<String>, id: Seq<char>) -> bool {
    exists|i: int| 0 <= i < ids.len() && (#[trigger] ids[i])@ == id
}

/// Whether one of `ids` is `id`.
fn contains_id(ids: &Vec<String>, id: &String) -> (result: bool)
    ensures
        result == has_id(ids@, id@),
{
    let mut i: usize = 0;
    while i < ids.len()
        invariant
            i <= ids@.len(),
            forall|k: int| 0 <= k < i ==> (#[trigger] ids@[k])@ != id@,
        decreases ids@.len() - i,
    {
        if ids[i].eq(id) {
            return true;
        }
        i = i + 1;
    }
    false
}

impl BaseModel {
    /// No two vehicle journeys have the same identifier, and the period the base schedule
    /// covers lies within the limit that lets its dates fit in a `Date`.
    pub open spec fn wf(&self) -> bool {
        &&& forall|i: int, j: int| 0 <= i < j < self.vehicle_journeys@.len()
            ==> (#[trigger] self.vehicle_journeys@[i]).id@ != (#[trigger] self.vehicle_journeys@[j]).id@
        &&& within_limit(self.time_period.start as int)
        &&& within_limit(self.time_period.end as int)
    }

    /// In a well-formed base schedule, the lookup by identifier finds each vehicle journey.
    pub proof fn lemma_unique_vehicle_journey(&self, j: int)
        requires
            self.wf(),
            0 <= j < self.vehicle_journeys@.len(),
        ensures
            self.vehicle_journey_index(self.vehicle_journeys@[j].id@) == Some(j),
    {
        let id = self.vehicle_journeys@[j].id@;
        assert forall|k: int| 0 <= k < j implies (#[trigger] self.vehicle_journeys@[k]).id@ != id by {
            assert(self.vehicle_journeys@[k].id@ != self.vehicle_journeys@[j].id@);
        }
        self.lemma_first_vehicle_journey(j, id);
    }

    pub open spec fn nb_of_vehicle_journeys_spec(&self) -> int {
        self.vehicle_journeys@.len() as int
    }

    /// `j` is the first vehicle journey whose identifier is `id`.
    pub open spec fn is_first_vehicle_journey_with_id(&self, j: int, id: Seq<char>) -> bool {
        &&& 0 <= j < self.vehicle_journeys@.len()
        &&& self.vehicle_journeys@[j].id@ == id
        &&& forall|k: int| 0 <= k < j ==> (#[trigger] self.vehicle_journeys@[k]).id@ != id
    }

    /// The first vehicle journey whose identifier is `id`, if there is one.
    pub open spec fn vehicle_journey_index(&self, id: Seq<char>) -> Option<int> {
        if exists|j: int| self.is_first_vehicle_journey_with_id(j, id) {
            Some(choose|j: int| self.is_first_vehicle_journey_with_id(j, id))
        } else {
            None
        }
    }

    /// The first vehicle journey with an identifier is the one the lookup finds.
    pub proof fn lemma_first_vehicle_journey(&self, j: int, id: Seq<char>)
        requires
            self.is_first_vehicle_journey_with_id(j, id),
        ensures
            self.vehicle_journey_index(id) == Some(j),
    {
        let c = choose|c: int| self.is_first_vehicle_journey_with_id(c, id);
        assert(self.is_first_vehicle_journey_with_id(c, id));
        if c < j {
            assert(self.vehicle_journeys@[c].id@ != id);
        } else if j < c {
            assert(self.vehicle_journeys@[j].id@ != id);
        }
    }

    /// `s` is the first stop point whose identifier is `id`.
    pub open spec fn is_first_stop_point_with_id(&self, s: int, id: Seq<char>) -> bool {
        &&& 0 <= s < self.stop_points@.len()
        &&& self.stop_points@[s].id@ == id
        &&& forall|k: int| 0 <= k < s ==> (#[trigger] self.stop_points@[k]).id@ != id
    }

    /// The first stop point whose identifier is `id`, if there is one.
    pub open spec fn stop_point_index(&self, id: Seq<char>) -> Option<int> {
        if exists|s: int| self.is_first_stop_point_with_id(s, id) {
            Some(choose|s: int| self.is_first_stop_point_with_id(s, id))
        } else {
            None
        }
    }

    /// The first stop point with an identifier is the one the lookup finds.
    pub proof fn lemma_first_stop_point(&self, s: int, id: Seq<char>)
        requires
            self.is_first_stop_point_with_id(s, id),
        ensures
            self.stop_point_index(id) == Some(s),
    {
        let c = choose|c: int| self.is_first_stop_point_with_id(c, id);
        assert(self.is_first_stop_point_with_id(c, id));
        if c < s {
            assert(self.stop_points@[c].id@ != id);
        } else if s < c {
            assert(self.stop_points@[s].id@ != id);
        }
    }

    /// The vehicle journey runs on `date`.
    pub open spec fn trip_exists_spec(&self, j: int, date: Date) -> bool {
        self.vehicle_journeys@[j].dates@.contains(date)
    }

    /// The vehicle journey with identifier `id` runs on `date`.
    pub open spec fn trip_exists_by_id(&self, id: Seq<char>, date: Date) -> bool {
        match self.vehicle_journey_index(id) {
            Some(j) => self.trip_exists_spec(j, date),
            None => false,
        }
    }

    /// When the vehicle journey runs on `date`: the period from its departure from its first
    /// stop to its arrival at its last stop, composed in its timezone.
    pub open spec fn trip_time_period_spec(&self, j: int, date: Date) -> Option<TimePeriod> {
        let stop_times = self.vehicle_journeys@[j].stop_times@;
        if !self.trip_exists_spec(j, date) || stop_times.len() == 0 {
            None
        } else {
            let timezone = self.vehicle_journeys@[j].timezone;
            let start = timezoned_datetime(timezone, date, stop_times[0].board_time);
            let end = timezoned_datetime(timezone, date, stop_times.last().debark_time);
            if start <= end {
                Some(TimePeriod { start: start as i64, end: end as i64 })
            } else {
                None
            }
        }
    }

    /// The number of vehicle journeys; they are numbered from 0.
    pub fn nb_of_vehicle_journeys(&self) -> (result: usize)
        ensures
            result == self.vehicle_journeys@.len(),
    {
        self.vehicle_journeys.len()
    }

    /// The first vehicle journey whose identifier is `id`.
    pub fn vehicle_journey_idx(&self, id: &String) -> (result: Option<usize>)
        ensures
            result matches Some(j) ==> self.vehicle_journey_index(id@) == Some(j as int),
            result is None ==> self.vehicle_journey_index(id@) is None,
            result is None ==> forall|k: int| 0 <= k < self.vehicle_journeys@.len()
                ==> (#[trigger] self.vehicle_journeys@[k]).id@ != id@,
    {
        let mut j: usize = 0;
        while j < self.vehicle_journeys.len()
            invariant
                j <= self.vehicle_journeys@.len(),
                forall|k: int| 0 <= k < j ==> (#[trigger] self.vehicle_journeys@[k]).id@ != id@,
            decreases self.vehicle_journeys@.len() - j,
        {
            if self.vehicle_journeys[j].id.eq(id) {
                proof {
                    self.lemma_first_vehicle_journey(j as int, id@);
                }
                return Some(j);
            }
            j = j + 1;
        }
        None
    }

    /// The identifier of a vehicle journey.
    pub fn vehicle_journey_name(&self, j: usize) -> (result: &String)
        requires
            j < self.vehicle_journeys@.len(),
        ensures
            result@ == self.vehicle_journeys@[j as int].id@,
    {
        &self.vehicle_journeys[j].id
    }

    /// The network of a vehicle journey, when it has one.
    pub fn network_name(&self, j: usize) -> (result: Option<&String>)
        requires
            j < self.vehicle_journeys@.len(),
        ensures
            result is None <==> self.vehicle_journeys@[j as int].network is None,
            result matches Some(n) ==> self.vehicle_journeys@[j as int].network matches Some(m) && n@ == m@,
    {
        self.vehicle_journeys[j].network.as_ref()
    }

    /// The line of a vehicle journey, when it has one.
    pub fn line_name(&self, j: usize) -> (result: Option<&String>)
        requires
            j < self.vehicle_journeys@.len(),
        ensures
            result is None <==> self.vehicle_journeys@[j as int].line is None,
            result matches Some(n) ==> self.vehicle_journeys@[j as int].line matches Some(m) && n@ == m@,
    {
        self.vehicle_journeys[j].line.as_ref()
    }

    /// The route of a vehicle journey.
    pub fn route_name(&self, j: usize) -> (result: &String)
        requires
            j < self.vehicle_journeys@.len(),
        ensures
            result@ == self.vehicle_journeys@[j as int].route@,
    {
        &self.vehicle_journeys[j].route
    }

    /// The timezone of a vehicle journey, when it has one.
    pub fn timezone(&self, j: usize) -> (result: &Option<String>)
        requires
            j < self.vehicle_journeys@.len(),
        ensures
            *result == self.vehicle_journeys@[j as int].timezone,
    {
        &self.vehicle_journeys[j].timezone
    }

    /// The stop times of a vehicle journey.
    pub fn stop_times(&self, j: usize) -> (result: &Vec<StopTime>)
        requires
            j < self.vehicle_journeys@.len(),
        ensures
            result@ == self.vehicle_journeys@[j as int].stop_times@,
    {
        &self.vehicle_journeys[j].stop_times
    }

    pub fn contains_network_id(&self, id: &String) -> (result: bool)
        ensures
            result == has_id(self.networks@, id@),
    {
        contains_id(&self.networks, id)
    }

    pub fn contains_line_id(&self, id: &String) -> (result: bool)
        ensures
            result == has_id(self.lines@, id@),
    {
        contains_id(&self.lines, id)
    }

    pub fn contains_route_id(&self, id: &String) -> (result: bool)
        ensures
            result == has_id(self.routes@, id@),
    {
        contains_id(&self.routes, id)
    }

    pub fn contains_stop_area_id(&self, id: &String) -> (result: bool)
        ensures
            result == has_id(self.stop_areas@, id@),
    {
        contains_id(&self.stop_areas, id)
    }

    /// The number of stop points; they are numbered from 0.
    pub fn nb_of_stop_points(&self) -> (result: usize)
        ensures
            result == self.stop_points@.len(),
    {
        self.stop_points.len()
    }

    /// The identifier of a stop point.
    pub fn stop_point_id(&self, s: usize) -> (result: &String)
        requires
            s < self.stop_points@.len(),
        ensures
            result@ == self.stop_points@[s as int].id@,
    {
        &self.stop_points[s].id
    }

    /// The stop area of a stop point.
    pub fn stop_area_name(&self, s: usize) -> (result: &String)
        requires
            s < self.stop_points@.len(),
        ensures
            result@ == self.stop_points@[s as int].stop_area@,
    {
        &self.stop_points[s].stop_area
    }

    /// The first stop point whose identifier is `id`.
    pub fn stop_point_idx(&self, id: &String) -> (result: Option<StopPointIdx>)
        ensures
            result matches Some(s) ==> self.stop_point_index(id@) == Some(s.idx as int),
            result is None ==> self.stop_point_index(id@) is None,
    {
        let mut s: usize = 0;
        while s < self.stop_points.len()
            invariant
                s <= self.stop_points@.len(),
                forall|k: int| 0 <= k < s ==> (#[trigger] self.stop_points@[k]).id@ != id@,
            decreases self.stop_points@.len() - s,
        {
            if self.stop_points[s].id.eq(id) {
                proof {
                    self.lemma_first_stop_point(s as int, id@);
                }
                return Some(StopPointIdx { idx: s });
            }
            s = s + 1;
        }
        None
    }

    /// Whether the vehicle journey runs on `date`.
    pub fn trip_exists(&self, j: usize, date: Date) -> (result: bool)
        requires
            j < self.vehicle_journeys@.len(),
        ensures
            result == self.trip_exists_spec(j as int, date),
    {
        let dates = &self.vehicle_journeys[j].dates;
        let mut i: usize = 0;
        while i < dates.len()
            invariant
                i <= dates@.len(),
                j < self.vehicle_journeys@.len(),
                dates@ == self.vehicle_journeys@[j as int].dates@,
                forall|k: int| 0 <= k < i ==> dates@[k] != date,
            decreases dates@.len() - i,
        {
            if dates[i] == date {
                proof {
                    assert(dates@[i as int] == date);
                }
                return true;
            }
            i = i + 1;
        }
        proof {
            assert(!dates@.contains(date));
        }
        false
    }

    /// When the vehicle journey runs on `date`, the period from its departure from its first stop
    /// to its arrival at its last stop.
    pub fn trip_time_period(&self, j: usize, date: &Date) -> (result: Option<TimePeriod>)
        requires
            j < self.vehicle_journeys@.len(),
        ensures
            result == self.trip_time_period_spec(j as int, *date),
    {
        if !self.trip_exists(j, *date) {
            return None;
        }
        let stop_times = &self.vehicle_journeys[j].stop_times;
        if stop_times.len() == 0 {
            return None;
        }
        let timezone = &self.vehicle_journeys[j].timezone;
        let start = compose_in(timezone, date, &stop_times[0].board_time);
        let end = compose_in(timezone, date, &stop_times[stop_times.len() - 1].debark_time);
        TimePeriod::new(start, end)
    }

    /// The period the base schedule covers.
    pub fn time_period(&self) -> (result: TimePeriod)
        ensures
            result == self.time_period,
    {
        self.time_period
    }
}

} // verus!
