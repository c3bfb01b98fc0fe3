use vstd::prelude::*;

use crate::models::base_model::BaseModel;
use crate::models::real_time_disruption::{self as disruption, Date, Disruption};
use crate::models::{StopPointIdx, StopTime};

verus! {

/// A disruption of the real-time model, by its position among the stored disruptions.
#[derive(Debug, Clone, Copy, PartialEq, Eq, Structural)]
pub struct DisruptionIdx {
    pub idx: usize,
}

/// An impact of a disruption, by its position among the impacts of the disruption.
#[derive(Debug, Clone, Copy, PartialEq, Eq, Structural)]
pub struct ImpactIdx {
    pub idx: usize,
}

/// How the real-time model departs from the base schedule for a trip.
pub enum TripStatus {
    /// The trip does not run.
    Deleted,
    /// The trip of the base schedule, or one added earlier, runs with these stop times.
    Modified(Vec<StopTime>),
    /// A trip that the base schedule lacks runs with these stop times.
    Added(Vec<StopTime>),
}

/// A trip (a vehicle journey on a date) for which the real-time model departs from the base
/// schedule.
pub struct RealTimeTrip {
    pub vehicle_journey: String,
    pub date: Date,
    pub status: TripStatus,
}

/// A trip that an impact of a disruption concerns, for travelers to be informed of it.
pub struct InformedLink {
    pub vehicle_journey: String,
    pub date: Date,
    pub disruption: DisruptionIdx,
    pub impact: ImpactIdx,
}

/// The real-time model: the disruptions received, the trips that depart from the base
/// schedule, the stop points that real-time trips use and the base schedule lacks, and the
/// trips that impacts concern.
pub struct RealTimeModel {
    pub disruptions: Vec<Disruption>,
    pub trips: Vec<RealTimeTrip>,
    pub new_stop_points: Vec<String>,
    pub informed_links: Vec<InformedLink>,
}

/// The kind of an update handed to the transit data.
#[derive(Debug, Clone, Copy, PartialEq, Eq, Structural)]
pub enum DataUpdateKind {
    /// a vehicle is added for the trip
    Insert,
    /// the vehicle of the trip gets new stop times
    Modify,
    /// the vehicle of the trip is removed
    Remove,
}

/// An update handed to the transit data: its kind, the trip (vehicle journey and date), the
/// stop times handed with it (none for a removal), and whether the data took it.
pub type DataUpdateRecord = (DataUpdateKind, Seq<char>, Date, Seq<StopTime>, bool);

/// What the real-time model holds but its disruptions (its trips, its links from trips to
/// impacts, its new stop points), with the updates handed to the transit data so far.
pub type ModelState = (Seq<RealTimeTrip>, Seq<InformedLink>, Seq<String>, Seq<DataUpdateRecord>);

/// The trip at `i` is the vehicle journey `vehicle_journey` on `date`.
pub open spec fn is_trip_at(trips: Seq<RealTimeTrip>, i: int, vehicle_journey: Seq<char>, date: Date) -> bool {
    &&& 0 <= i < trips.len()
    &&& trips[i].vehicle_journey@ == vehicle_journey
    &&& trips[i].date == date
}

/// No trip occurs twice.
pub open spec fn trips_wf(trips: Seq<RealTimeTrip>) -> bool {
    forall|i: int, j: int|
        0 <= i < j < trips.len() ==> !(#[trigger] trips[i].vehicle_journey@ == #[trigger] trips[j].vehicle_journey@
            && trips[i].date == trips[j].date)
}

/// How the real-time model departs from the base schedule for the trip, if it does.
pub open spec fn status_in(trips: Seq<RealTimeTrip>, vehicle_journey: Seq<char>, date: Date) -> Option<TripStatus> {
    if exists|i: int| is_trip_at(trips, i, vehicle_journey, date) {
        Some(trips[choose|i: int| is_trip_at(trips, i, vehicle_journey, date)].status)
    } else {
        None
    }
}

/// In trips where no trip occurs twice, the status of the trip at `i` is its status.
pub proof fn lemma_status_at(trips: Seq<RealTimeTrip>, i: int)
    requires
        trips_wf(trips),
        0 <= i < trips.len(),
    ensures
        status_in(trips, trips[i].vehicle_journey@, trips[i].date) == Some(trips[i].status),
{
    let vehicle_journey = trips[i].vehicle_journey@;
    let date = trips[i].date;
    assert(is_trip_at(trips, i, vehicle_journey, date));
    let c = choose|c: int| is_trip_at(trips, c, vehicle_journey, date);
    if c < i {
        assert(trips[c].vehicle_journey@ == trips[i].vehicle_journey@);
    } else if i < c {
        assert(trips[i].vehicle_journey@ == trips[c].vehicle_journey@);
    }
}

/// The trip runs: it does on the base schedule unless the real-time model departs from it.
pub open spec fn present_in(base: &BaseModel, trips: Seq<RealTimeTrip>, vehicle_journey: Seq<char>, date: Date) -> bool {
    match status_in(trips, vehicle_journey, date) {
        Some(TripStatus::Deleted) => false,
        Some(_) => true,
        None => base.trip_exists_by_id(vehicle_journey, date),
    }
}

/// The real-time model departs from the base schedule with these stop times.
pub open spec fn status_modified_with(status: Option<TripStatus>, stop_times: Seq<StopTime>) -> bool {
    status matches Some(TripStatus::Modified(s)) && s@ == stop_times
}

/// The real-time model adds the trip with these stop times.
pub open spec fn status_added_with(status: Option<TripStatus>, stop_times: Seq<StopTime>) -> bool {
    status matches Some(TripStatus::Added(s)) && s@ == stop_times
}

/// The link at `i` is from the trip to the impact.
pub open spec fn is_link_at(
    links: Seq<InformedLink>,
    i: int,
    vehicle_journey: Seq<char>,
    date: Date,
    disruption_idx: DisruptionIdx,
    impact_idx: ImpactIdx,
) -> bool {
    &&& 0 <= i < links.len()
    &&& links[i].vehicle_journey@ == vehicle_journey
    &&& links[i].date == date
    &&& links[i].disruption == disruption_idx
    &&& links[i].impact == impact_idx
}

/// There is a link from the trip to the impact.
pub open spec fn has_link(
    links: Seq<InformedLink>,
    vehicle_journey: Seq<char>,
    date: Date,
    disruption_idx: DisruptionIdx,
    impact_idx: ImpactIdx,
) -> bool {
    exists|i: int| is_link_at(links, i, vehicle_journey, date, disruption_idx, impact_idx)
}

/// `k` is the first new stop point whose identifier is `id`.
pub open spec fn is_first_new_stop_point(points: Seq<String>, k: int, id: Seq<char>) -> bool {
    &&& 0 <= k < points.len()
    &&& points[k]@ == id
    &&& forall|m: int| 0 <= m < k ==> (#[trigger] points[m])@ != id
}

/// The first new stop point whose identifier is `id`, if there is one.
pub open spec fn new_stop_point_index(points: Seq<String>, id: Seq<char>) -> Option<int> {
    if exists|k: int| is_first_new_stop_point(points, k, id) {
        Some(choose|k: int| is_first_new_stop_point(points, k, id))
    } else {
        None
    }
}

/// The stop point whose identifier is `id`: one of the base schedule if it has one, else a new
/// stop point; new stop points are numbered after those of the base schedule.
pub open spec fn stop_point_of(base: &BaseModel, points: Seq<String>, id: Seq<char>) -> Option<StopPointIdx> {
    match base.stop_point_index(id) {
        Some(s) => Some(StopPointIdx { idx: s as usize }),
        None => match new_stop_point_index(points, id) {
            Some(k) => Some(StopPointIdx { idx: (base.stop_points@.len() + k) as usize }),
            None => None,
        },
    }
}

/// The stop times that `stop_times` of a disruption make, and the new stop points after
/// making them: a stop point that neither the base schedule nor `points` has is added.
pub open spec fn made_stop_times(base: &BaseModel, points: Seq<String>, stop_times: Seq<disruption::StopTime>) -> (Seq<StopTime>, Seq<String>)
    decreases stop_times.len(),
{
    if stop_times.len() == 0 {
        (Seq::empty(), points)
    } else {
        let (previous, points_before) = made_stop_times(base, points, stop_times.drop_last());
        let stop_time = stop_times.last();
        let (stop, points_after) = match stop_point_of(base, points_before, stop_time.stop_id@) {
            Some(s) => (s, points_before),
            None => (
                StopPointIdx { idx: (base.stop_points@.len() + points_before.len()) as usize },
                points_before.push(stop_time.stop_id),
            ),
        };
        (
            previous.push(StopTime {
                stop,
                board_time: stop_time.departure_time,
                debark_time: stop_time.arrival_time,
                flow_direction: stop_time.flow_direction,
            }),
            points_after,
        )
    }
}

/// Making stop times adds at most one new stop point per stop time.
pub proof fn lemma_made_stop_times_len(base: &BaseModel, points: Seq<String>, stop_times: Seq<disruption::StopTime>)
    ensures
        made_stop_times(base, points, stop_times).0.len() == stop_times.len(),
        points.len() <= made_stop_times(base, points, stop_times).1.len() <= points.len() + stop_times.len(),
    decreases stop_times.len(),
{
    if stop_times.len() > 0 {
        lemma_made_stop_times_len(base, points, stop_times.drop_last());
    }
}

/// Where the identifier occurs among the new stop points, it has a first occurrence.
proof fn lemma_first_new_stop_point_exists(points: Seq<String>, k: int, id: Seq<char>)
    requires
        0 <= k < points.len(),
        points[k]@ == id,
    ensures
        exists|m: int| is_first_new_stop_point(points, m, id),
    decreases k,
{
    if exists|m: int| 0 <= m < k && (#[trigger] points[m])@ == id {
        let m = choose|m: int| 0 <= m < k && (#[trigger] points[m])@ == id;
        lemma_first_new_stop_point_exists(points, m, id);
    } else {
        assert(is_first_new_stop_point(points, k, id));
    }
}

/// A new stop point found among `points` is found at the same place after one more is added.
proof fn lemma_stop_point_of_push(base: &BaseModel, points: Seq<String>, point: String, id: Seq<char>)
    requires
        stop_point_of(base, points, id) is Some,
    ensures
        stop_point_of(base, points.push(point), id) == stop_point_of(base, points, id),
{
    if base.stop_point_index(id) is None {
        let k = choose|k: int| is_first_new_stop_point(points, k, id);
        assert(is_first_new_stop_point(points.push(point), k, id));
        let k2 = choose|k2: int| is_first_new_stop_point(points.push(point), k2, id);
        if k2 < k {
            assert(points.push(point)[k2] == points[k2]);
        }
        if k < k2 {
            assert(points.push(point)[k] == points[k]);
        }
    }
}

/// An identifier that names no stop point names, once added, the new stop point just added.
proof fn lemma_stop_point_of_added(base: &BaseModel, points: Seq<String>, id: String)
    requires
        stop_point_of(base, points, id@) is None,
    ensures
        stop_point_of(base, points.push(id), id@) == Some(StopPointIdx { idx: (base.stop_points@.len() + points.len()) as usize }),
{
    let pushed = points.push(id);
    let n = points.len() as int;
    assert forall|m: int| 0 <= m < n implies (#[trigger] pushed[m])@ != id@ by {
        assert(pushed[m] == points[m]);
        if points[m]@ == id@ {
            lemma_first_new_stop_point_exists(points, m, id@);
        }
    }
    assert(is_first_new_stop_point(pushed, n, id@));
    let k = choose|k: int| is_first_new_stop_point(pushed, k, id@);
    if k < n {
        assert(pushed[k]@ != id@);
    }
}

/// Making stop times keeps the new stop points given and adds others after them; each stop time
/// made is at the stop point that its identifier names among the base schedule and the new stop
/// points after making them, and has the departure time of the disruption's stop time as its
/// board time, its arrival time as its debark time, and its flow direction.
pub proof fn lemma_made_stop_times_at(base: &BaseModel, points: Seq<String>, stop_times: Seq<disruption::StopTime>)
    ensures
        made_stop_times(base, points, stop_times).0.len() == stop_times.len(),
        points.len() <= made_stop_times(base, points, stop_times).1.len(),
        made_stop_times(base, points, stop_times).1.subrange(0, points.len() as int) == points,
        forall|k: int| 0 <= k < stop_times.len() ==> {
            let made = #[trigger] made_stop_times(base, points, stop_times).0[k];
            &&& stop_point_of(base, made_stop_times(base, points, stop_times).1, stop_times[k].stop_id@) == Some(made.stop)
            &&& made.board_time == stop_times[k].departure_time
            &&& made.debark_time == stop_times[k].arrival_time
            &&& made.flow_direction == stop_times[k].flow_direction
        },
    decreases stop_times.len(),
{
    lemma_made_stop_times_len(base, points, stop_times);
    if stop_times.len() == 0 {
        assert(points.subrange(0, points.len() as int) =~= points);
    } else {
        let before = stop_times.drop_last();
        lemma_made_stop_times_at(base, points, before);
        let (previous, points_before) = made_stop_times(base, points, before);
        let stop_time = stop_times.last();
        let result = made_stop_times(base, points, stop_times);
        let n = stop_times.len() - 1;
        if stop_point_of(base, points_before, stop_time.stop_id@) is None {
            assert(result.1.subrange(0, points.len() as int) =~= points_before.subrange(0, points.len() as int));
            lemma_stop_point_of_added(base, points_before, stop_time.stop_id);
        }
        assert forall|k: int| 0 <= k < stop_times.len() implies {
            let made = #[trigger] result.0[k];
            &&& stop_point_of(base, result.1, stop_times[k].stop_id@) == Some(made.stop)
            &&& made.board_time == stop_times[k].departure_time
            &&& made.debark_time == stop_times[k].arrival_time
            &&& made.flow_direction == stop_times[k].flow_direction
        } by {
            if k < n {
                assert(result.0[k] == previous[k]);
                assert(stop_times[k] == before[k]);
                if result.1 != points_before {
                    lemma_stop_point_of_push(base, points_before, stop_time.stop_id, stop_times[k].stop_id@);
                }
            }
        }
    }
}

/// A copy of the stop times.
pub fn copy_stop_times(stop_times: &Vec<StopTime>) -> (result: Vec<StopTime>)
    ensures
        result@ == stop_times@,
{
    let mut result: Vec<StopTime> = Vec::new();
    let mut i: usize = 0;
    while i < stop_times.len()
        invariant
            i <= stop_times@.len(),
            result@ == stop_times@.subrange(0, i as int),
        decreases stop_times@.len() - i,
    {
        result.push(stop_times[i]);
        i = i + 1;
        proof {
            assert(result@ =~= stop_times@.subrange(0, i as int));
        }
    }
    proof {
        assert(result@ =~= stop_times@);
    }
    result
}

impl RealTimeModel {
    /// What the model holds but its disruptions, with the updates handed to the transit data.
    pub open spec fn state(&self, updates: Seq<DataUpdateRecord>) -> ModelState {
        (self.trips@, self.informed_links@, self.new_stop_points@, updates)
    }

    /// No trip occurs twice.
    pub open spec fn wf(&self) -> bool {
        trips_wf(self.trips@)
    }

    /// A real-time model that departs from the base schedule in nothing.
    pub fn new() -> (result: RealTimeModel)
        ensures
            result.wf(),
            result.disruptions@.len() == 0,
            result.trips@.len() == 0,
            result.new_stop_points@.len() == 0,
            result.informed_links@.len() == 0,
    {
        RealTimeModel {
            disruptions: Vec::new(),
            trips: Vec::new(),
            new_stop_points: Vec::new(),
            informed_links: Vec::new(),
        }
    }

    /// The position of the trip among the trips of the model, if it is there.
    fn find_trip(&self, vehicle_journey: &String, date: Date) -> (result: Option<usize>)
        ensures
            result matches Some(i) ==> is_trip_at(self.trips@, i as int, vehicle_journey@, date),
            result is None ==> !(exists|i: int| is_trip_at(self.trips@, i, vehicle_journey@, date)),
    {
        let mut i: usize = 0;
        while i < self.trips.len()
            invariant
                i <= self.trips@.len(),
                forall|k: int| 0 <= k < i ==> !is_trip_at(self.trips@, k, vehicle_journey@, date),
            decreases self.trips@.len() - i,
        {
            if self.trips[i].date == date && self.trips[i].vehicle_journey.eq(vehicle_journey) {
                return Some(i);
            }
            i = i + 1;
        }
        None
    }

    /// Whether the trip runs: it does on the base schedule unless the model departs from it.
    pub fn is_present(&self, vehicle_journey: &String, date: &Date, base_model: &BaseModel) -> (result: bool)
        requires
            self.wf(),
        ensures
            result == present_in(base_model, self.trips@, vehicle_journey@, *date),
    {
        match self.find_trip(vehicle_journey, *date) {
            Some(i) => {
                proof {
                    lemma_status_at(self.trips@, i as int);
                }
                match &self.trips[i].status {
                    TripStatus::Deleted => false,
                    _ => true,
                }
            },
            None => match base_model.vehicle_journey_idx(vehicle_journey) {
                Some(j) => base_model.trip_exists(j, *date),
                None => false,
            },
        }
    }

    /// Sets how the model departs from the base schedule for the trip.
    fn set_trip_status(&mut self, vehicle_journey: &String, date: Date, status: TripStatus)
        requires
            old(self).wf(),
        ensures
            final(self).wf(),
            status_in(final(self).trips@, vehicle_journey@, date) == Some(status),
            forall|v: Seq<char>, d: Date| !(v == vehicle_journey@ && d == date)
                ==> #[trigger] status_in(final(self).trips@, v, d) == status_in(old(self).trips@, v, d),
            final(self).informed_links@ == old(self).informed_links@,
            final(self).new_stop_points@ == old(self).new_stop_points@,
            final(self).disruptions@ == old(self).disruptions@,
    {
        let ghost old_trips = self.trips@;
        let trip = RealTimeTrip { vehicle_journey: vehicle_journey.clone(), date, status };
        match self.find_trip(vehicle_journey, date) {
            Some(i) => {
                self.trips.set(i, trip);
                proof {
                    assert(self.trips@ == old_trips.update(i as int, self.trips@[i as int]));
                    lemma_status_at(self.trips@, i as int);
                    assert forall|v: Seq<char>, d: Date| !(v == vehicle_journey@ && d == date)
                        implies #[trigger] status_in(self.trips@, v, d) == status_in(old_trips, v, d) by {
                        if exists|k: int| is_trip_at(old_trips, k, v, d) {
                            let k = choose|k: int| is_trip_at(old_trips, k, v, d);
                            lemma_status_at(old_trips, k);
                            lemma_status_at(self.trips@, k);
                        } else {
                            assert forall|k: int| !is_trip_at(self.trips@, k, v, d) by {
                                if is_trip_at(self.trips@, k, v, d) {
                                    assert(is_trip_at(old_trips, k, v, d));
                                }
                            }
                        }
                    }
                }
            },
            None => {
                self.trips.push(trip);
                proof {
                    let n = old_trips.len() as int;
                    assert(self.trips@ == old_trips.push(self.trips@[n]));
                    assert(trips_wf(self.trips@)) by {
                        assert forall|i: int, j: int| 0 <= i < j < self.trips@.len()
                            implies !(#[trigger] self.trips@[i].vehicle_journey@ == #[trigger] self.trips@[j].vehicle_journey@
                                && self.trips@[i].date == self.trips@[j].date) by {
                            if j == n {
                                assert(!is_trip_at(old_trips, i, vehicle_journey@, date));
                            } else {
                                assert(old_trips[i] == self.trips@[i] && old_trips[j] == self.trips@[j]);
                            }
                        }
                    }
                    lemma_status_at(self.trips@, n);
                    assert forall|v: Seq<char>, d: Date| !(v == vehicle_journey@ && d == date)
                        implies #[trigger] status_in(self.trips@, v, d) == status_in(old_trips, v, d) by {
                        if exists|k: int| is_trip_at(old_trips, k, v, d) {
                            let k = choose|k: int| is_trip_at(old_trips, k, v, d);
                            lemma_status_at(old_trips, k);
                            assert(self.trips@[k] == old_trips[k]);
                            lemma_status_at(self.trips@, k);
                        } else {
                            assert forall|k: int| !is_trip_at(self.trips@, k, v, d) by {
                                if is_trip_at(self.trips@, k, v, d) && k < n {
                                    assert(self.trips@[k] == old_trips[k]);
                                    assert(is_trip_at(old_trips, k, v, d));
                                }
                            }
                        }
                    }
                }
            },
        }
    }

    /// Makes the model follow the base schedule again for the trip.
    fn remove_trip(&mut self, vehicle_journey: &String, date: Date)
        requires
            old(self).wf(),
        ensures
            final(self).wf(),
            status_in(final(self).trips@, vehicle_journey@, date) is None,
            forall|v: Seq<char>, d: Date| !(v == vehicle_journey@ && d == date)
                ==> #[trigger] status_in(final(self).trips@, v, d) == status_in(old(self).trips@, v, d),
            final(self).informed_links@ == old(self).informed_links@,
            final(self).new_stop_points@ == old(self).new_stop_points@,
            final(self).disruptions@ == old(self).disruptions@,
    {
        let ghost old_trips = self.trips@;
        match self.find_trip(vehicle_journey, date) {
            Some(i) => {
                let _removed = self.trips.remove(i);
                proof {
                    let i = i as int;
                    assert(self.trips@ == old_trips.remove(i));
                    assert(trips_wf(self.trips@)) by {
                        assert forall|a: int, b: int| 0 <= a < b < self.trips@.len()
                            implies !(#[trigger] self.trips@[a].vehicle_journey@ == #[trigger] self.trips@[b].vehicle_journey@
                                && self.trips@[a].date == self.trips@[b].date) by {
                            let oa = if a < i { a } else { a + 1 };
                            let ob = if b < i { b } else { b + 1 };
                            assert(self.trips@[a] == old_trips[oa] && self.trips@[b] == old_trips[ob]);
                        }
                    }
                    assert forall|k: int| !is_trip_at(self.trips@, k, vehicle_journey@, date) by {
                        if is_trip_at(self.trips@, k, vehicle_journey@, date) {
                            let ok = if k < i { k } else { k + 1 };
                            assert(self.trips@[k] == old_trips[ok]);
                            assert(old_trips[i].vehicle_journey@ == old_trips[ok].vehicle_journey@);
                        }
                    }
                    assert forall|v: Seq<char>, d: Date| !(v == vehicle_journey@ && d == date)
                        implies #[trigger] status_in(self.trips@, v, d) == status_in(old_trips, v, d) by {
                        if exists|k: int| is_trip_at(old_trips, k, v, d) {
                            let k = choose|k: int| is_trip_at(old_trips, k, v, d);
                            lemma_status_at(old_trips, k);
                            assert(k != i);
                            let nk = if k < i { k } else { k - 1 };
                            assert(self.trips@[nk] == old_trips[k]);
                            lemma_status_at(self.trips@, nk);
                        } else {
                            assert forall|k: int| !is_trip_at(self.trips@, k, v, d) by {
                                if is_trip_at(self.trips@, k, v, d) {
                                    let ok = if k < i { k } else { k + 1 };
                                    assert(self.trips@[k] == old_trips[ok]);
                                    assert(is_trip_at(old_trips, ok, v, d));
                                }
                            }
                        }
                    }
                }
            },
            None => {},
        }
    }

    /// Deletes the trip if it runs; tells whether it did.
    pub fn delete(&mut self, vehicle_journey: &String, date: &Date, base_model: &BaseModel) -> (result: bool)
        requires
            old(self).wf(),
        ensures
            final(self).wf(),
            result == present_in(base_model, old(self).trips@, vehicle_journey@, *date),
            result ==> status_in(final(self).trips@, vehicle_journey@, *date) == Some(TripStatus::Deleted),
            result ==> forall|v: Seq<char>, d: Date| !(v == vehicle_journey@ && d == *date)
                ==> #[trigger] status_in(final(self).trips@, v, d) == status_in(old(self).trips@, v, d),
            !result ==> final(self).trips@ == old(self).trips@,
            final(self).informed_links@ == old(self).informed_links@,
            final(self).new_stop_points@ == old(self).new_stop_points@,
            final(self).disruptions@ == old(self).disruptions@,
    {
        if self.is_present(vehicle_journey, date, base_model) {
            self.set_trip_status(vehicle_journey, *date, TripStatus::Deleted);
            true
        } else {
            false
        }
    }

    /// Gives the trip these stop times if it runs; tells whether it did.
    pub fn modify(&mut self, vehicle_journey: &String, date: &Date, stop_times: Vec<StopTime>, base_model: &BaseModel) -> (result: bool)
        requires
            old(self).wf(),
        ensures
            final(self).wf(),
            result == present_in(base_model, old(self).trips@, vehicle_journey@, *date),
            result ==> status_modified_with(status_in(final(self).trips@, vehicle_journey@, *date), stop_times@),
            result ==> forall|v: Seq<char>, d: Date| !(v == vehicle_journey@ && d == *date)
                ==> #[trigger] status_in(final(self).trips@, v, d) == status_in(old(self).trips@, v, d),
            !result ==> final(self).trips@ == old(self).trips@,
            final(self).informed_links@ == old(self).informed_links@,
            final(self).new_stop_points@ == old(self).new_stop_points@,
            final(self).disruptions@ == old(self).disruptions@,
    {
        if self.is_present(vehicle_journey, date, base_model) {
            self.set_trip_status(vehicle_journey, *date, TripStatus::Modified(stop_times));
            true
        } else {
            false
        }
    }

    /// Adds the trip with these stop times if it does not run; tells whether it did.
    pub fn add(&mut self, vehicle_journey: &String, date: &Date, stop_times: Vec<StopTime>, base_model: &BaseModel) -> (result: bool)
        requires
            old(self).wf(),
        ensures
            final(self).wf(),
            result == !present_in(base_model, old(self).trips@, vehicle_journey@, *date),
            result ==> status_added_with(status_in(final(self).trips@, vehicle_journey@, *date), stop_times@),
            result ==> forall|v: Seq<char>, d: Date| !(v == vehicle_journey@ && d == *date)
                ==> #[trigger] status_in(final(self).trips@, v, d) == status_in(old(self).trips@, v, d),
            !result ==> final(self).trips@ == old(self).trips@,
            final(self).informed_links@ == old(self).informed_links@,
            final(self).new_stop_points@ == old(self).new_stop_points@,
            final(self).disruptions@ == old(self).disruptions@,
    {
        if self.is_present(vehicle_journey, date, base_model) {
            false
        } else {
            self.set_trip_status(vehicle_journey, *date, TripStatus::Added(stop_times));
            true
        }
    }

    /// Makes the trip follow the base schedule again, if the base schedule has it; tells whether
    /// it did.
    pub fn restore_base_vehicle_journey(&mut self, vehicle_journey: &String, date: &Date, base_model: &BaseModel) -> (result: bool)
        requires
            old(self).wf(),
        ensures
            final(self).wf(),
            result == base_model.trip_exists_by_id(vehicle_journey@, *date),
            result ==> status_in(final(self).trips@, vehicle_journey@, *date) is None,
            result ==> forall|v: Seq<char>, d: Date| !(v == vehicle_journey@ && d == *date)
                ==> #[trigger] status_in(final(self).trips@, v, d) == status_in(old(self).trips@, v, d),
            !result ==> final(self).trips@ == old(self).trips@,
            final(self).informed_links@ == old(self).informed_links@,
            final(self).new_stop_points@ == old(self).new_stop_points@,
            final(self).disruptions@ == old(self).disruptions@,
    {
        let exists_in_base = match base_model.vehicle_journey_idx(vehicle_journey) {
            Some(j) => base_model.trip_exists(j, *date),
            None => false,
        };
        if exists_in_base {
            self.remove_trip(vehicle_journey, *date);
            true
        } else {
            false
        }
    }

    /// Links the trip to the impact.
    pub fn insert_informed_linked_disruption(
        &mut self,
        vehicle_journey: &String,
        date: &Date,
        base_model: &BaseModel,
        disruption_idx: DisruptionIdx,
        impact_idx: ImpactIdx,
    )
        ensures
            forall|v: Seq<char>, d: Date, di: DisruptionIdx, ii: ImpactIdx|
                #[trigger] has_link(final(self).informed_links@, v, d, di, ii) <==> (has_link(old(self).informed_links@, v, d, di, ii)
                    || (v == vehicle_journey@ && d == *date && di == disruption_idx && ii == impact_idx)),
            final(self).trips@ == old(self).trips@,
            final(self).new_stop_points@ == old(self).new_stop_points@,
            final(self).disruptions@ == old(self).disruptions@,
    {
        let ghost old_links = self.informed_links@;
        self.informed_links.push(InformedLink {
            vehicle_journey: vehicle_journey.clone(),
            date: *date,
            disruption: disruption_idx,
            impact: impact_idx,
        });
        proof {
            let n = old_links.len() as int;
            assert(self.informed_links@ == old_links.push(self.informed_links@[n]));
            assert(is_link_at(self.informed_links@, n, vehicle_journey@, *date, disruption_idx, impact_idx));
            assert forall|v: Seq<char>, d: Date, di: DisruptionIdx, ii: ImpactIdx|
                #[trigger] has_link(self.informed_links@, v, d, di, ii) <==> (has_link(old_links, v, d, di, ii)
                    || (v == vehicle_journey@ && d == *date && di == disruption_idx && ii == impact_idx)) by {
                if has_link(self.informed_links@, v, d, di, ii) {
                    let k = choose|k: int| is_link_at(self.informed_links@, k, v, d, di, ii);
                    if k < n {
                        assert(is_link_at(old_links, k, v, d, di, ii));
                    }
                }
                if has_link(old_links, v, d, di, ii) {
                    let k = choose|k: int| is_link_at(old_links, k, v, d, di, ii);
                    assert(is_link_at(self.informed_links@, k, v, d, di, ii));
                }
            }
        }
    }

    /// Removes the links from the trip to the impact.
    pub fn cancel_informed_linked_disruption(
        &mut self,
        vehicle_journey: &String,
        date: &Date,
        base_model: &BaseModel,
        disruption_idx: DisruptionIdx,
        impact_idx: ImpactIdx,
    )
        ensures
            forall|v: Seq<char>, d: Date, di: DisruptionIdx, ii: ImpactIdx|
                #[trigger] has_link(final(self).informed_links@, v, d, di, ii) <==> (has_link(old(self).informed_links@, v, d, di, ii)
                    && !(v == vehicle_journey@ && d == *date && di == disruption_idx && ii == impact_idx)),
            final(self).trips@ == old(self).trips@,
            final(self).new_stop_points@ == old(self).new_stop_points@,
            final(self).disruptions@ == old(self).disruptions@,
    {
        let ghost old_links = self.informed_links@;
        let mut kept: Vec<InformedLink> = Vec::new();
        let mut links: Vec<InformedLink> = Vec::new();
        std::mem::swap(&mut links, &mut self.informed_links);
        let ghost all = links@;
        let mut i: usize = 0;
        while i < links.len()
            invariant
                all == old_links,
                links@ == all,
                i <= all.len(),
                forall|v: Seq<char>, d: Date, di: DisruptionIdx, ii: ImpactIdx|
                    #[trigger] has_link(kept@, v, d, di, ii) <==> ((exists|k: int| 0 <= k < i && is_link_at(all, k, v, d, di, ii))
                        && !(v == vehicle_journey@ && d == *date && di == disruption_idx && ii == impact_idx)),
            decreases all.len() - i,
        {
            let link = &links[i];
            let matching = link.date == *date && link.disruption == disruption_idx && link.impact == impact_idx
                && link.vehicle_journey.eq(vehicle_journey);
            let ghost before = kept@;
            if !matching {
                kept.push(InformedLink {
                    vehicle_journey: link.vehicle_journey.clone(),
                    date: link.date,
                    disruption: link.disruption,
                    impact: link.impact,
                });
            }
            proof {
                let n = before.len() as int;
                assert forall|v: Seq<char>, d: Date, di: DisruptionIdx, ii: ImpactIdx|
                    #[trigger] has_link(kept@, v, d, di, ii) <==> ((exists|k: int| 0 <= k < i + 1 && is_link_at(all, k, v, d, di, ii))
                        && !(v == vehicle_journey@ && d == *date && di == disruption_idx && ii == impact_idx)) by {
                    if !matching {
                        assert(kept@ == before.push(kept@[n]));
                        if has_link(kept@, v, d, di, ii) {
                            let k = choose|k: int| is_link_at(kept@, k, v, d, di, ii);
                            if k < n {
                                assert(is_link_at(before, k, v, d, di, ii));
                            } else {
                                assert(is_link_at(all, i as int, v, d, di, ii));
                            }
                        }
                        if has_link(before, v, d, di, ii) {
                            let k = choose|k: int| is_link_at(before, k, v, d, di, ii);
                            assert(is_link_at(kept@, k, v, d, di, ii));
                        }
                        if is_link_at(all, i as int, v, d, di, ii) {
                            assert(is_link_at(kept@, n, v, d, di, ii));
                        }
                    } else {
                        if exists|k: int| 0 <= k < i + 1 && is_link_at(all, k, v, d, di, ii) {
                            let k = choose|k: int| 0 <= k < i + 1 && is_link_at(all, k, v, d, di, ii);
                            if k == i && !(v == vehicle_journey@ && d == *date && di == disruption_idx && ii == impact_idx) {
                                assert(false);
                            }
                        }
                    }
                }
            }
            i = i + 1;
        }
        self.informed_links = kept;
        proof {
            assert forall|v: Seq<char>, d: Date, di: DisruptionIdx, ii: ImpactIdx|
                #[trigger] has_link(old_links, v, d, di, ii) <==> (exists|k: int| 0 <= k < all.len() && is_link_at(all, k, v, d, di, ii)) by {
                if has_link(old_links, v, d, di, ii) {
                    let k = choose|k: int| is_link_at(old_links, k, v, d, di, ii);
                    assert(0 <= k < all.len() && is_link_at(all, k, v, d, di, ii));
                }
            }
        }
    }

    /// The stop point whose identifier is `id`: one of the base schedule if it has one, else a
    /// new stop point of the model.
    pub fn stop_point_idx(&self, id: &String, base_model: &BaseModel) -> (result: Option<StopPointIdx>)
        requires
            base_model.stop_points@.len() + self.new_stop_points@.len() <= usize::MAX,
        ensures
            result == stop_point_of(base_model, self.new_stop_points@, id@),
    {
        match base_model.stop_point_idx(id) {
            Some(s) => Some(s),
            None => {
                let mut k: usize = 0;
                while k < self.new_stop_points.len()
                    invariant
                        k <= self.new_stop_points@.len(),
                        base_model.stop_points@.len() + self.new_stop_points@.len() <= usize::MAX,
                        base_model.stop_point_index(id@) is None,
                        forall|m: int| 0 <= m < k ==> (#[trigger] self.new_stop_points@[m])@ != id@,
                    decreases self.new_stop_points@.len() - k,
                {
                    if self.new_stop_points[k].eq(id) {
                        proof {
                            let points = self.new_stop_points@;
                            assert(is_first_new_stop_point(points, k as int, id@));
                            let c = choose|c: int| is_first_new_stop_point(points, c, id@);
                            if c < k {
                                assert(points[c]@ != id@);
                            } else if k < c {
                                assert(points[k as int]@ != id@);
                            }
                        }
                        return Some(StopPointIdx { idx: base_model.stop_points.len() + k });
                    }
                    k = k + 1;
                }
                None
            },
        }
    }

    /// The stop times that the stop times of a disruption make: each takes the stop point with
    /// the identifier it gives, which the model adds when neither it nor the base schedule has
    /// one; a traveler boards at the departure time and debarks at the arrival time.
    pub fn make_stop_times(&mut self, stop_times: &Vec<disruption::StopTime>, base_model: &BaseModel) -> (result: Vec<StopTime>)
        requires
            base_model.stop_points@.len() + old(self).new_stop_points@.len() + stop_times@.len() <= usize::MAX,
        ensures
            (result@, final(self).new_stop_points@) == made_stop_times(base_model, old(self).new_stop_points@, stop_times@),
            final(self).trips@ == old(self).trips@,
            final(self).informed_links@ == old(self).informed_links@,
            final(self).disruptions@ == old(self).disruptions@,
    {
        let ghost points = self.new_stop_points@;
        let mut result: Vec<StopTime> = Vec::new();
        let mut i: usize = 0;
        while i < stop_times.len()
            invariant
                i <= stop_times@.len(),
                base_model.stop_points@.len() + points.len() + stop_times@.len() <= usize::MAX,
                (result@, self.new_stop_points@) == made_stop_times(base_model, points, stop_times@.subrange(0, i as int)),
                self.trips@ == old(self).trips@,
                self.informed_links@ == old(self).informed_links@,
                self.disruptions@ == old(self).disruptions@,
            decreases stop_times@.len() - i,
        {
            let stop_time = &stop_times[i];
            proof {
                let prefix = stop_times@.subrange(0, i + 1);
                assert(prefix.drop_last() =~= stop_times@.subrange(0, i as int));
                assert(prefix.last() == stop_times@[i as int]);
                lemma_made_stop_times_len(base_model, points, stop_times@.subrange(0, i as int));
            }
            let stop = match self.stop_point_idx(&stop_time.stop_id, base_model) {
                Some(s) => s,
                None => {
                    let s = StopPointIdx { idx: base_model.stop_points.len() + self.new_stop_points.len() };
                    self.new_stop_points.push(stop_time.stop_id.clone());
                    s
                },
            };
            result.push(StopTime {
                stop,
                board_time: stop_time.departure_time,
                debark_time: stop_time.arrival_time,
                flow_direction: stop_time.flow_direction,
            });
            i = i + 1;
        }
        proof {
            assert(stop_times@.subrange(0, i as int) =~= stop_times@);
        }
        result
    }
}

} // verus!
