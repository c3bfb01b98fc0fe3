use vstd::prelude::*;

use crate::models::base_model::{compose_in, has_id, timezoned_datetime, BaseModel, BaseStopPoint};
use crate::models::real_time_disruption::{
    first_date_concerned, intersection, intersection_spec, last_date_concerned, periods_contain,
    periods_intersect, within_limit, Date, Disruption, Impact, Impacted, Informed, LineId, NetworkId,
    RouteId, StopAreaId, StopPointId, TimePeriod, TimePeriods, TripDisruption, VehicleJourneyId,
};
use crate::models::real_time_model::{
    copy_stop_times, has_link, DataUpdateKind, DataUpdateRecord, made_stop_times, lemma_made_stop_times_len, present_in, status_added_with,
    status_in, status_modified_with, stop_point_of, DisruptionIdx, ImpactIdx, ModelState, RealTimeModel,
    TripStatus,
};
use crate::models::{StopPointIdx, StopTime};

verus! {

/// What to do with the objects of an impact.
#[derive(Debug, Clone, Copy, PartialEq, Eq, Structural)]
pub enum ActionType {
    /// Delete (or cut) the trips that the impact concerns, and link them to it.
    ApplyImpact,
    /// Link the trips that the impact concerns to it.
    ApplyInform,
    /// Make the trips that the impact concerns follow the base schedule again, and unlink them.
    CancelImpact,
    /// Unlink the trips that the impact concerns.
    CancelInform,
}

/// Why an object of a disruption could not be applied.
#[derive(Debug, Clone, PartialEq, Eq)]
pub enum DisruptionError {
    StopPointAbsent(StopPointId),
    StopAreaAbsent(StopAreaId),
    VehicleJourneyAbsent(VehicleJourneyId),
    NetworkAbsent(NetworkId),
    LineAbsent(LineId),
    RouteAbsent(RouteId),
    DeleteAbsentTrip(VehicleJourneyId, Date),
    ModifyAbsentTrip(VehicleJourneyId, Date),
    AddPresentTrip(VehicleJourneyId, Date),
    NewTripWithBaseId(VehicleJourneyId, Date),
}

/// The transit data that the real-time model feeds: each method tells whether the data took
/// the change, and the updates handed so far are recorded, in order, with that answer.
pub trait DataUpdate {
    /// The updates handed to the data so far, in order.
    spec fn updates(&self) -> Seq<DataUpdateRecord>;

    /// Adds a vehicle for the trip, with these stop times.
    fn insert_real_time_vehicle(&mut self, vehicle_journey: &String, date: &Date, stop_times: &Vec<StopTime>) -> (accepted: bool)
        ensures
            final(self).updates() == old(self).updates().push((DataUpdateKind::Insert, vehicle_journey@, *date, stop_times@, accepted));

    /// Gives the vehicle of the trip these stop times.
    fn modify_real_time_vehicle(&mut self, vehicle_journey: &String, date: &Date, stop_times: &Vec<StopTime>) -> (accepted: bool)
        ensures
            final(self).updates() == old(self).updates().push((DataUpdateKind::Modify, vehicle_journey@, *date, stop_times@, accepted));

    /// Removes the vehicle of the trip.
    fn remove_real_time_vehicle(&mut self, vehicle_journey: &String, date: &Date) -> (accepted: bool)
        ensures
            final(self).updates() == old(self).updates().push(
                (DataUpdateKind::Remove, vehicle_journey@, *date, Seq::<StopTime>::empty(), accepted),
            );
}

/// An update handed to the transit data, as recorded.
pub struct RecordedUpdate {
    pub kind: DataUpdateKind,
    pub vehicle_journey: String,
    pub date: Date,
    pub stop_times: Vec<StopTime>,
    pub accepted: bool,
}

/// Transit data that records the updates it is handed, and takes them all or refuses them all.
pub struct RecordedUpdates {
    pub records: Vec<RecordedUpdate>,
    pub accepts: bool,
}

/// The view of a recorded update.
pub open spec fn record_view(record: RecordedUpdate) -> DataUpdateRecord {
    (record.kind, record.vehicle_journey@, record.date, record.stop_times@, record.accepted)
}

impl RecordedUpdates {
    /// No update yet; the data takes updates when `accepts`.
    pub fn new(accepts: bool) -> (result: RecordedUpdates)
        ensures
            result.records@.len() == 0,
            result.accepts == accepts,
    {
        RecordedUpdates { records: Vec::new(), accepts }
    }

    fn record(&mut self, kind: DataUpdateKind, vehicle_journey: &String, date: &Date, stop_times: Vec<StopTime>) -> (accepted: bool)
        ensures
            accepted == old(self).accepts,
            final(self).accepts == old(self).accepts,
            final(self).updates() == old(self).updates().push((kind, vehicle_journey@, *date, stop_times@, accepted)),
    {
        let ghost before = self.records@;
        self.records.push(RecordedUpdate {
            kind,
            vehicle_journey: vehicle_journey.clone(),
            date: *date,
            stop_times,
            accepted: self.accepts,
        });
        proof {
            assert(self.records@ == before.push(self.records@.last()));
            assert(self.records@.map_values(|r: RecordedUpdate| record_view(r))
                =~= before.map_values(|r: RecordedUpdate| record_view(r)).push(record_view(self.records@.last())));
        }
        self.accepts
    }
}

impl DataUpdate for RecordedUpdates {
    open spec fn updates(&self) -> Seq<DataUpdateRecord> {
        self.records@.map_values(|r: RecordedUpdate| record_view(r))
    }

    fn insert_real_time_vehicle(&mut self, vehicle_journey: &String, date: &Date, stop_times: &Vec<StopTime>) -> (accepted: bool) {
        self.record(DataUpdateKind::Insert, vehicle_journey, date, copy_stop_times(stop_times))
    }

    fn modify_real_time_vehicle(&mut self, vehicle_journey: &String, date: &Date, stop_times: &Vec<StopTime>) -> (accepted: bool) {
        self.record(DataUpdateKind::Modify, vehicle_journey, date, copy_stop_times(stop_times))
    }

    fn remove_real_time_vehicle(&mut self, vehicle_journey: &String, date: &Date) -> (accepted: bool) {
        self.record(DataUpdateKind::Remove, vehicle_journey, date, Vec::new())
    }
}

/// A set of trips, each given by the identifier of its vehicle journey and its date.
pub type TripSet = spec_fn(Seq<char>, Date) -> bool;

/// Stop times for each trip.
pub type TripStopTimes = spec_fn(Seq<char>, Date) -> Seq<StopTime>;

/// The one trip of `vehicle_journey` on `date`.
pub open spec fn single_trip(vehicle_journey: Seq<char>, date: Date) -> TripSet {
    |v: Seq<char>, d: Date| v == vehicle_journey && d == date
}

/// Every trip of `targets` is deleted in `b`; `b` has the status of `a` for the other trips.
pub open spec fn trips_deleted_on(a: ModelState, b: ModelState, targets: TripSet) -> bool {
    forall|v: Seq<char>, d: Date|
        #[trigger] status_in(b.0, v, d) == (if targets(v, d) { Some(TripStatus::Deleted) } else { status_in(a.0, v, d) })
}

/// Every trip of `targets` follows the base schedule in `b`; `b` has the status of `a` for the
/// other trips.
pub open spec fn trips_restored_on(a: ModelState, b: ModelState, targets: TripSet) -> bool {
    forall|v: Seq<char>, d: Date|
        #[trigger] status_in(b.0, v, d) == (if targets(v, d) { None::<TripStatus> } else { status_in(a.0, v, d) })
}

/// Every trip of `targets` that runs in `a` runs in `b` with its stop times of `stop_times`;
/// `b` has the status of `a` for the other trips.
pub open spec fn trips_modified_on(base: &BaseModel, a: ModelState, b: ModelState, targets: TripSet, stop_times: TripStopTimes) -> bool {
    forall|v: Seq<char>, d: Date|
        #![trigger status_in(b.0, v, d)]
        if targets(v, d) && present_in(base, a.0, v, d) {
            status_modified_with(status_in(b.0, v, d), stop_times(v, d))
        } else {
            status_in(b.0, v, d) == status_in(a.0, v, d)
        }
}

/// `b` links each trip of `targets` to the impact, and keeps the links of `a`.
pub open spec fn links_added(a: ModelState, b: ModelState, targets: TripSet, disruption_idx: DisruptionIdx, impact_idx: ImpactIdx) -> bool {
    forall|v: Seq<char>, d: Date, di: DisruptionIdx, ii: ImpactIdx|
        #[trigger] has_link(b.1, v, d, di, ii) <==> (has_link(a.1, v, d, di, ii)
            || (di == disruption_idx && ii == impact_idx && targets(v, d)))
}

/// `b` keeps the links of `a` but those from a trip of `targets` to the impact.
pub open spec fn links_removed(a: ModelState, b: ModelState, targets: TripSet, disruption_idx: DisruptionIdx, impact_idx: ImpactIdx) -> bool {
    forall|v: Seq<char>, d: Date, di: DisruptionIdx, ii: ImpactIdx|
        #[trigger] has_link(b.1, v, d, di, ii) <==> (has_link(a.1, v, d, di, ii)
            && !(di == disruption_idx && ii == impact_idx && targets(v, d)))
}

/// An update of this kind on the trip, handed after the updates `a` and before the end of `b`,
/// was taken by the data.
pub open spec fn accepted_between(a: Seq<DataUpdateRecord>, b: Seq<DataUpdateRecord>, kind: DataUpdateKind, vehicle_journey: Seq<char>, date: Date) -> bool {
    exists|i: int| #![trigger b[i]] a.len() <= i < b.len() && b[i].0 == kind && b[i].1 == vehicle_journey && b[i].2 == date && b[i].4
}

/// No stop times.
pub open spec fn no_stop_times() -> TripStopTimes {
    |v: Seq<char>, d: Date| Seq::<StopTime>::empty()
}

/// The stop times of the trips in the base schedule.
pub open spec fn base_stop_times(base: &BaseModel) -> TripStopTimes {
    |v: Seq<char>, d: Date| match base.vehicle_journey_index(v) {
        Some(j) => base.vehicle_journeys@[j].stop_times@,
        None => Seq::<StopTime>::empty(),
    }
}

/// The updates of `b` are those of `a` followed by updates of `kind`, each on a trip of `targets`
/// and handed its stop times of `stop_times`.
pub open spec fn updates_on(a: ModelState, b: ModelState, targets: TripSet, kind: DataUpdateKind, stop_times: TripStopTimes) -> bool {
    &&& a.3.len() <= b.3.len()
    &&& b.3.subrange(0, a.3.len() as int) == a.3
    &&& forall|i: int| a.3.len() <= i < b.3.len() ==> (#[trigger] b.3[i]).0 == kind && targets(b.3[i].1, b.3[i].2)
        && b.3[i].3 == stop_times(b.3[i].1, b.3[i].2)
}

/// `b` keeps the links of `a`, and links to the impact exactly the trips whose update of `kind`,
/// handed in between, the data took.
pub open spec fn links_added_where_accepted(a: ModelState, b: ModelState, kind: DataUpdateKind, disruption_idx: DisruptionIdx, impact_idx: ImpactIdx) -> bool {
    forall|v: Seq<char>, d: Date, di: DisruptionIdx, ii: ImpactIdx|
        #[trigger] has_link(b.1, v, d, di, ii) <==> (has_link(a.1, v, d, di, ii)
            || (di == disruption_idx && ii == impact_idx && accepted_between(a.3, b.3, kind, v, d)))
}

/// `b` keeps the links of `a` but those to the impact from the trips whose update of `kind`,
/// handed in between, the data took.
pub open spec fn links_removed_where_accepted(a: ModelState, b: ModelState, kind: DataUpdateKind, disruption_idx: DisruptionIdx, impact_idx: ImpactIdx) -> bool {
    forall|v: Seq<char>, d: Date, di: DisruptionIdx, ii: ImpactIdx|
        #[trigger] has_link(b.1, v, d, di, ii) <==> (has_link(a.1, v, d, di, ii)
            && !(di == disruption_idx && ii == impact_idx && accepted_between(a.3, b.3, kind, v, d)))
}

/// `b` is `a` after the action on the trips of `targets` for the impact: applying the impact
/// deletes them and removes their vehicles from the data; cancelling it makes them follow the
/// base schedule again and puts back their base vehicles in the data; the links to the impact
/// follow what the data took. Informing links them to the impact, cancelling the information
/// unlinks them; neither hands anything to the data.
pub open spec fn applied(
    base: &BaseModel,
    a: ModelState,
    b: ModelState,
    targets: TripSet,
    disruption_idx: DisruptionIdx,
    impact_idx: ImpactIdx,
    action: ActionType,
) -> bool {
    &&& b.2 == a.2
    &&& match action {
        ActionType::ApplyImpact => trips_deleted_on(a, b, targets)
            && updates_on(a, b, targets, DataUpdateKind::Remove, no_stop_times())
            && links_added_where_accepted(a, b, DataUpdateKind::Remove, disruption_idx, impact_idx),
        ActionType::ApplyInform => b.0 == a.0 && b.3 == a.3 && links_added(a, b, targets, disruption_idx, impact_idx),
        ActionType::CancelImpact => trips_restored_on(a, b, targets)
            && updates_on(a, b, targets, DataUpdateKind::Insert, base_stop_times(base))
            && links_removed_where_accepted(a, b, DataUpdateKind::Insert, disruption_idx, impact_idx),
        ActionType::CancelInform => b.0 == a.0 && b.3 == a.3 && links_removed(a, b, targets, disruption_idx, impact_idx),
    }
}

/// Like `applied`, but applying the impact gives each trip of `targets` that runs its stop times
/// of `stop_times`, and hands them to the data, in place of deleting it.
pub open spec fn applied_on_stop_times(
    base: &BaseModel,
    a: ModelState,
    b: ModelState,
    targets: TripSet,
    stop_times: TripStopTimes,
    disruption_idx: DisruptionIdx,
    impact_idx: ImpactIdx,
    action: ActionType,
) -> bool {
    match action {
        ActionType::ApplyImpact => b.2 == a.2 && trips_modified_on(base, a, b, targets, stop_times)
            && updates_on(a, b, targets, DataUpdateKind::Modify, stop_times)
            && links_added_where_accepted(a, b, DataUpdateKind::Modify, disruption_idx, impact_idx),
        _ => applied(base, a, b, targets, disruption_idx, impact_idx, action),
    }
}

/// Acting on no trip changes nothing.
pub proof fn lemma_applied_none(
    base: &BaseModel,
    a: ModelState,
    targets: TripSet,
    stop_times: TripStopTimes,
    disruption_idx: DisruptionIdx,
    impact_idx: ImpactIdx,
    action: ActionType,
)
    requires
        forall|v: Seq<char>, d: Date| !#[trigger] targets(v, d),
    ensures
        applied(base, a, a, targets, disruption_idx, impact_idx, action),
        applied_on_stop_times(base, a, a, targets, stop_times, disruption_idx, impact_idx, action),
{
    assert(a.3.subrange(0, a.3.len() as int) =~= a.3);
}

/// Updates handed one after the other: an update taken between `a` and `c` was taken between
/// `a` and `b` or between `b` and `c`.
pub proof fn lemma_accepted_between_compose(a: Seq<DataUpdateRecord>, b: Seq<DataUpdateRecord>, c: Seq<DataUpdateRecord>)
    requires
        a.len() <= b.len() <= c.len(),
        b.subrange(0, a.len() as int) == a,
        c.subrange(0, b.len() as int) == b,
    ensures
        c.subrange(0, a.len() as int) == a,
        forall|kind: DataUpdateKind, v: Seq<char>, d: Date| #[trigger] accepted_between(a, c, kind, v, d)
            == (accepted_between(a, b, kind, v, d) || accepted_between(b, c, kind, v, d)),
{
    assert forall|i: int| 0 <= i < b.len() implies c[i] == b[i] by {
        assert(c.subrange(0, b.len() as int)[i] == c[i]);
    }
    assert(c.subrange(0, a.len() as int) =~= a) by {
        assert forall|i: int| 0 <= i < a.len() implies c.subrange(0, a.len() as int)[i] == a[i] by {
            assert(b.subrange(0, a.len() as int)[i] == b[i]);
        }
    }
    assert forall|kind: DataUpdateKind, v: Seq<char>, d: Date| #[trigger] accepted_between(a, c, kind, v, d)
        == (accepted_between(a, b, kind, v, d) || accepted_between(b, c, kind, v, d)) by {
        if accepted_between(a, c, kind, v, d) {
            let i = choose|i: int| #![trigger c[i]] a.len() <= i < c.len() && c[i].0 == kind && c[i].1 == v && c[i].2 == d && c[i].4;
            if i < b.len() {
                assert(b[i] == c[i]);
            } else {
                assert(c[i] == c[i]);
            }
        }
        if accepted_between(a, b, kind, v, d) {
            let i = choose|i: int| #![trigger b[i]] a.len() <= i < b.len() && b[i].0 == kind && b[i].1 == v && b[i].2 == d && b[i].4;
            assert(c[i] == b[i]);
        }
        if accepted_between(b, c, kind, v, d) {
            let i = choose|i: int| #![trigger c[i]] b.len() <= i < c.len() && c[i].0 == kind && c[i].1 == v && c[i].2 == d && c[i].4;
            assert(c[i] == c[i]);
        }
    }
}

/// Updates on the trips of `t1`, then on those of `t2`, are updates on those of either.
pub proof fn lemma_updates_on_compose(
    a: ModelState,
    b: ModelState,
    c: ModelState,
    t1: TripSet,
    t2: TripSet,
    t: TripSet,
    kind: DataUpdateKind,
    stop_times: TripStopTimes,
)
    requires
        updates_on(a, b, t1, kind, stop_times),
        updates_on(b, c, t2, kind, stop_times),
        forall|v: Seq<char>, d: Date| #[trigger] t(v, d) == (t1(v, d) || t2(v, d)),
    ensures
        updates_on(a, c, t, kind, stop_times),
        forall|k: DataUpdateKind, v: Seq<char>, d: Date| #[trigger] accepted_between(a.3, c.3, k, v, d)
            == (accepted_between(a.3, b.3, k, v, d) || accepted_between(b.3, c.3, k, v, d)),
{
    lemma_accepted_between_compose(a.3, b.3, c.3);
    assert forall|i: int| a.3.len() <= i < c.3.len() implies (#[trigger] c.3[i]).0 == kind && t(c.3[i].1, c.3[i].2)
        && c.3[i].3 == stop_times(c.3[i].1, c.3[i].2) by {
        if i < b.3.len() {
            assert(c.3.subrange(0, b.3.len() as int)[i] == c.3[i]);
            assert(b.3[i] == c.3[i]);
            assert(t1(b.3[i].1, b.3[i].2));
        } else {
            assert(t2(c.3[i].1, c.3[i].2));
        }
    }
}

/// Acting on the trips of `t1`, then on those of `t2`, acts on those of either.
pub proof fn lemma_applied_compose(
    base: &BaseModel,
    a: ModelState,
    b: ModelState,
    c: ModelState,
    t1: TripSet,
    t2: TripSet,
    t: TripSet,
    disruption_idx: DisruptionIdx,
    impact_idx: ImpactIdx,
    action: ActionType,
)
    requires
        applied(base, a, b, t1, disruption_idx, impact_idx, action),
        applied(base, b, c, t2, disruption_idx, impact_idx, action),
        forall|v: Seq<char>, d: Date| #[trigger] t(v, d) == (t1(v, d) || t2(v, d)),
    ensures
        applied(base, a, c, t, disruption_idx, impact_idx, action),
{
    match action {
        ActionType::ApplyImpact => {
            lemma_updates_on_compose(a, b, c, t1, t2, t, DataUpdateKind::Remove, no_stop_times());
            assert forall|v: Seq<char>, d: Date|
                #[trigger] status_in(c.0, v, d) == (if t(v, d) { Some(TripStatus::Deleted) } else { status_in(a.0, v, d) }) by {
                assert(status_in(c.0, v, d) == (if t2(v, d) { Some(TripStatus::Deleted) } else { status_in(b.0, v, d) }));
                assert(status_in(b.0, v, d) == (if t1(v, d) { Some(TripStatus::Deleted) } else { status_in(a.0, v, d) }));
            }
            assert forall|v: Seq<char>, d: Date, di: DisruptionIdx, ii: ImpactIdx|
                #[trigger] has_link(c.1, v, d, di, ii) <==> (has_link(a.1, v, d, di, ii)
                    || (di == disruption_idx && ii == impact_idx && accepted_between(a.3, c.3, DataUpdateKind::Remove, v, d))) by {
                assert(has_link(b.1, v, d, di, ii) == has_link(b.1, v, d, di, ii));
                assert(accepted_between(a.3, c.3, DataUpdateKind::Remove, v, d)
                    == (accepted_between(a.3, b.3, DataUpdateKind::Remove, v, d) || accepted_between(b.3, c.3, DataUpdateKind::Remove, v, d)));
            }
        },
        ActionType::ApplyInform => {
            assert forall|v: Seq<char>, d: Date, di: DisruptionIdx, ii: ImpactIdx|
                #[trigger] has_link(c.1, v, d, di, ii) <==> (has_link(a.1, v, d, di, ii)
                    || (di == disruption_idx && ii == impact_idx && t(v, d))) by {
                assert(has_link(b.1, v, d, di, ii) == has_link(b.1, v, d, di, ii));
                assert(t(v, d) == (t1(v, d) || t2(v, d)));
            }
        },
        ActionType::CancelImpact => {
            lemma_updates_on_compose(a, b, c, t1, t2, t, DataUpdateKind::Insert, base_stop_times(base));
            assert forall|v: Seq<char>, d: Date|
                #[trigger] status_in(c.0, v, d) == (if t(v, d) { None::<TripStatus> } else { status_in(a.0, v, d) }) by {
                assert(status_in(c.0, v, d) == (if t2(v, d) { None::<TripStatus> } else { status_in(b.0, v, d) }));
                assert(status_in(b.0, v, d) == (if t1(v, d) { None::<TripStatus> } else { status_in(a.0, v, d) }));
            }
            assert forall|v: Seq<char>, d: Date, di: DisruptionIdx, ii: ImpactIdx|
                #[trigger] has_link(c.1, v, d, di, ii) <==> (has_link(a.1, v, d, di, ii)
                    && !(di == disruption_idx && ii == impact_idx && accepted_between(a.3, c.3, DataUpdateKind::Insert, v, d))) by {
                assert(has_link(b.1, v, d, di, ii) == has_link(b.1, v, d, di, ii));
                assert(accepted_between(a.3, c.3, DataUpdateKind::Insert, v, d)
                    == (accepted_between(a.3, b.3, DataUpdateKind::Insert, v, d) || accepted_between(b.3, c.3, DataUpdateKind::Insert, v, d)));
            }
        },
        ActionType::CancelInform => {
            assert forall|v: Seq<char>, d: Date, di: DisruptionIdx, ii: ImpactIdx|
                #[trigger] has_link(c.1, v, d, di, ii) <==> (has_link(a.1, v, d, di, ii)
                    && !(di == disruption_idx && ii == impact_idx && t(v, d))) by {
                assert(has_link(b.1, v, d, di, ii) == has_link(b.1, v, d, di, ii));
                assert(t(v, d) == (t1(v, d) || t2(v, d)));
            }
        },
    }
}

/// Acting with stop times on the trips of `t1`, then on those of `t2`, acts on those of either.
pub proof fn lemma_applied_on_stop_times_compose(
    base: &BaseModel,
    a: ModelState,
    b: ModelState,
    c: ModelState,
    t1: TripSet,
    t2: TripSet,
    t: TripSet,
    stop_times: TripStopTimes,
    disruption_idx: DisruptionIdx,
    impact_idx: ImpactIdx,
    action: ActionType,
)
    requires
        applied_on_stop_times(base, a, b, t1, stop_times, disruption_idx, impact_idx, action),
        applied_on_stop_times(base, b, c, t2, stop_times, disruption_idx, impact_idx, action),
        forall|v: Seq<char>, d: Date| #[trigger] t(v, d) == (t1(v, d) || t2(v, d)),
    ensures
        applied_on_stop_times(base, a, c, t, stop_times, disruption_idx, impact_idx, action),
{
    if action == ActionType::ApplyImpact {
        lemma_updates_on_compose(a, b, c, t1, t2, t, DataUpdateKind::Modify, stop_times);
        assert forall|v: Seq<char>, d: Date|
            if t(v, d) && present_in(base, a.0, v, d) {
                status_modified_with(#[trigger] status_in(c.0, v, d), stop_times(v, d))
            } else {
                status_in(c.0, v, d) == status_in(a.0, v, d)
            } by {
            assert(status_in(b.0, v, d) == status_in(b.0, v, d));
            assert(status_in(c.0, v, d) == status_in(c.0, v, d));
            assert(t(v, d) == (t1(v, d) || t2(v, d)));
        }
        assert forall|v: Seq<char>, d: Date, di: DisruptionIdx, ii: ImpactIdx|
            #[trigger] has_link(c.1, v, d, di, ii) <==> (has_link(a.1, v, d, di, ii)
                || (di == disruption_idx && ii == impact_idx && accepted_between(a.3, c.3, DataUpdateKind::Modify, v, d))) by {
            assert(has_link(b.1, v, d, di, ii) == has_link(b.1, v, d, di, ii));
            assert(accepted_between(a.3, c.3, DataUpdateKind::Modify, v, d)
                == (accepted_between(a.3, b.3, DataUpdateKind::Modify, v, d) || accepted_between(b.3, c.3, DataUpdateKind::Modify, v, d)));
        }
    } else {
        lemma_applied_compose(base, a, b, c, t1, t2, t, disruption_idx, impact_idx, action);
    }
}

/// `b` is `a` after deleting the trip if it runs, which may then be linked to the impact.
pub open spec fn trip_deleted(
    base: &BaseModel,
    a: ModelState,
    b: ModelState,
    vehicle_journey: Seq<char>,
    date: Date,
    disruption_idx: DisruptionIdx,
    impact_idx: ImpactIdx,
) -> bool {
    if present_in(base, a.0, vehicle_journey, date) {
        applied(base, a, b, single_trip(vehicle_journey, date), disruption_idx, impact_idx, ActionType::ApplyImpact)
    } else {
        b == a
    }
}

/// The updates of `b` are those of `a` followed by one update of `kind` on the trip, handed these
/// stop times.
pub open spec fn one_update(a: ModelState, b: ModelState, kind: DataUpdateKind, vehicle_journey: Seq<char>, date: Date, stop_times: Seq<StopTime>) -> bool {
    &&& b.3.len() == a.3.len() + 1
    &&& b.3 == a.3.push((kind, vehicle_journey, date, stop_times, b.3.last().4))
}

/// `b` is `a` after giving the trip these stop times if it runs, and the same to its vehicle in
/// the data (the trip is linked to the impact when the data took it), or after adding it with
/// them, and a vehicle for it in the data, if it does not; the new stop points are `points`.
pub open spec fn trip_upserted(
    base: &BaseModel,
    a: ModelState,
    b: ModelState,
    vehicle_journey: Seq<char>,
    date: Date,
    stop_times: Seq<StopTime>,
    points: Seq<String>,
    disruption_idx: DisruptionIdx,
    impact_idx: ImpactIdx,
) -> bool {
    let targets = single_trip(vehicle_journey, date);
    &&& b.2 == points
    &&& if present_in(base, a.0, vehicle_journey, date) {
        &&& trips_modified_on(base, a, b, targets, |v: Seq<char>, d: Date| stop_times)
        &&& one_update(a, b, DataUpdateKind::Modify, vehicle_journey, date, stop_times)
        &&& links_added_where_accepted(a, b, DataUpdateKind::Modify, disruption_idx, impact_idx)
    } else {
        &&& status_added_with(status_in(b.0, vehicle_journey, date), stop_times)
        &&& one_update(a, b, DataUpdateKind::Insert, vehicle_journey, date, stop_times)
        &&& forall|v: Seq<char>, d: Date| !(v == vehicle_journey && d == date)
            ==> #[trigger] status_in(b.0, v, d) == status_in(a.0, v, d)
        &&& b.1 == a.1
    }
}

/// `b` is `a` after a new trip's stop times: refused when the base schedule has the trip,
/// else the trip gets them (added when it does not run).
pub open spec fn new_trip_updated(
    base: &BaseModel,
    a: ModelState,
    b: ModelState,
    trip: TripDisruption,
    disruption_idx: DisruptionIdx,
    impact_idx: ImpactIdx,
) -> bool {
    let vehicle_journey = trip.trip_id.id@;
    let made = made_stop_times(base, a.2, trip.stop_times@);
    if base.trip_exists_by_id(vehicle_journey, trip.trip_date) {
        b == a
    } else {
        trip_upserted(base, a, b, vehicle_journey, trip.trip_date, made.0, made.1, disruption_idx, impact_idx)
    }
}

/// `b` is `a` after a base trip's stop times: the stop points they need are added, then the
/// trip gets them when the base schedule has it (added when it does not run).
pub open spec fn base_trip_updated(
    base: &BaseModel,
    a: ModelState,
    b: ModelState,
    trip: TripDisruption,
    disruption_idx: DisruptionIdx,
    impact_idx: ImpactIdx,
) -> bool {
    let vehicle_journey = trip.trip_id.id@;
    let made = made_stop_times(base, a.2, trip.stop_times@);
    if base.trip_exists_by_id(vehicle_journey, trip.trip_date) {
        trip_upserted(base, a, b, vehicle_journey, trip.trip_date, made.0, made.1, disruption_idx, impact_idx)
    } else {
        b == (a.0, a.1, made.1, a.3)
    }
}

/// The trip of the base vehicle journey `j` on `date` may run during the periods: `date` is one
/// of the dates they concern, and the vehicle journey runs on it during one of them.
pub open spec fn trip_concerned(base: &BaseModel, j: int, date: Date, periods: Seq<TimePeriod>) -> bool {
    &&& first_date_concerned(periods) <= date <= last_date_concerned(periods)
    &&& base.trip_time_period_spec(j, date) matches Some(p) && periods_intersect(periods, p)
}

/// The trips of the vehicle journey `vehicle_journey` that may run during the periods.
pub open spec fn vehicle_journey_targets(base: &BaseModel, vehicle_journey: Seq<char>, periods: Seq<TimePeriod>) -> TripSet {
    |v: Seq<char>, d: Date| v == vehicle_journey && match base.vehicle_journey_index(vehicle_journey) {
        Some(j) => trip_concerned(base, j, d, periods),
        None => false,
    }
}

/// Which vehicle journeys of the base schedule an impact on a network, a line or a route
/// concerns.
pub enum Selection {
    Network(String),
    Line(String),
    Route(String),
}

/// The base vehicle journey `j` belongs to the selection.
pub open spec fn selects(base: &BaseModel, j: int, selection: Selection) -> bool {
    let vehicle_journey = base.vehicle_journeys@[j];
    match selection {
        Selection::Network(id) => vehicle_journey.network matches Some(n) && n@ == id@,
        Selection::Line(id) => vehicle_journey.line matches Some(l) && l@ == id@,
        Selection::Route(id) => vehicle_journey.route@ == id@,
    }
}

/// The trips of the base vehicle journeys before `end` of the selection that may run during the
/// periods.
pub open spec fn selected_targets_before(base: &BaseModel, selection: Selection, periods: Seq<TimePeriod>, end: int) -> TripSet {
    |v: Seq<char>, d: Date| exists|j: int|
        0 <= j < end && j < base.vehicle_journeys@.len() && #[trigger] selects(base, j, selection)
            && base.vehicle_journeys@[j].id@ == v && trip_concerned(base, j, d, periods)
}

/// The trips of the base vehicle journeys of the selection that may run during the periods.
pub open spec fn selected_targets(base: &BaseModel, selection: Selection, periods: Seq<TimePeriod>) -> TripSet {
    selected_targets_before(base, selection, periods, base.vehicle_journeys@.len() as int)
}

/// An impact on a network concerns exactly the trips, among those that may run during the
/// periods, of the base vehicle journeys whose network is that network.
pub proof fn lemma_network_targets(base: &BaseModel, network_id: String, periods: Seq<TimePeriod>, v: Seq<char>, d: Date)
    ensures
        selected_targets(base, Selection::Network(network_id), periods)(v, d) <==> exists|j: int|
            0 <= j < base.vehicle_journeys@.len() && (#[trigger] base.vehicle_journeys@[j].network matches Some(n)
                && n@ == network_id@) && base.vehicle_journeys@[j].id@ == v && trip_concerned(base, j, d, periods),
{
    let selection = Selection::Network(network_id);
    if selected_targets(base, selection, periods)(v, d) {
        let w = choose|w: int| 0 <= w < base.vehicle_journeys@.len() && w < base.vehicle_journeys@.len()
            && #[trigger] selects(base, w, selection) && base.vehicle_journeys@[w].id@ == v && trip_concerned(base, w, d, periods);
        assert(base.vehicle_journeys@[w].network is Some);
    }
    if exists|j: int| 0 <= j < base.vehicle_journeys@.len() && (#[trigger] base.vehicle_journeys@[j].network matches Some(n)
        && n@ == network_id@) && base.vehicle_journeys@[j].id@ == v && trip_concerned(base, j, d, periods) {
        let w = choose|j: int| 0 <= j < base.vehicle_journeys@.len() && (#[trigger] base.vehicle_journeys@[j].network matches Some(n)
            && n@ == network_id@) && base.vehicle_journeys@[j].id@ == v && trip_concerned(base, j, d, periods);
        assert(selects(base, w, selection));
    }
}

/// An impact on a line concerns exactly the trips, among those that may run during the periods,
/// of the base vehicle journeys whose line is that line.
pub proof fn lemma_line_targets(base: &BaseModel, line_id: String, periods: Seq<TimePeriod>, v: Seq<char>, d: Date)
    ensures
        selected_targets(base, Selection::Line(line_id), periods)(v, d) <==> exists|j: int|
            0 <= j < base.vehicle_journeys@.len() && (#[trigger] base.vehicle_journeys@[j].line matches Some(l)
                && l@ == line_id@) && base.vehicle_journeys@[j].id@ == v && trip_concerned(base, j, d, periods),
{
    let selection = Selection::Line(line_id);
    if selected_targets(base, selection, periods)(v, d) {
        let w = choose|w: int| 0 <= w < base.vehicle_journeys@.len() && w < base.vehicle_journeys@.len()
            && #[trigger] selects(base, w, selection) && base.vehicle_journeys@[w].id@ == v && trip_concerned(base, w, d, periods);
        assert(base.vehicle_journeys@[w].line is Some);
    }
    if exists|j: int| 0 <= j < base.vehicle_journeys@.len() && (#[trigger] base.vehicle_journeys@[j].line matches Some(l)
        && l@ == line_id@) && base.vehicle_journeys@[j].id@ == v && trip_concerned(base, j, d, periods) {
        let w = choose|j: int| 0 <= j < base.vehicle_journeys@.len() && (#[trigger] base.vehicle_journeys@[j].line matches Some(l)
            && l@ == line_id@) && base.vehicle_journeys@[j].id@ == v && trip_concerned(base, j, d, periods);
        assert(selects(base, w, selection));
    }
}

/// An impact on a route concerns exactly the trips, among those that may run during the
/// periods, of the base vehicle journeys whose route is that route.
pub proof fn lemma_route_targets(base: &BaseModel, route_id: String, periods: Seq<TimePeriod>, v: Seq<char>, d: Date)
    ensures
        selected_targets(base, Selection::Route(route_id), periods)(v, d) <==> exists|j: int|
            0 <= j < base.vehicle_journeys@.len() && (#[trigger] base.vehicle_journeys@[j].route)@ == route_id@
                && base.vehicle_journeys@[j].id@ == v && trip_concerned(base, j, d, periods),
{
    let selection = Selection::Route(route_id);
    if exists|j: int| 0 <= j < base.vehicle_journeys@.len() && (#[trigger] base.vehicle_journeys@[j].route)@ == route_id@
        && base.vehicle_journeys@[j].id@ == v && trip_concerned(base, j, d, periods) {
        let w = choose|j: int| 0 <= j < base.vehicle_journeys@.len() && (#[trigger] base.vehicle_journeys@[j].route)@ == route_id@
            && base.vehicle_journeys@[j].id@ == v && trip_concerned(base, j, d, periods);
        assert(selects(base, w, selection));
    }
}

/// Acting on the same trips, with stop times that agree on them, is the same.
pub proof fn lemma_applied_on_stop_times_with(
    base: &BaseModel,
    a: ModelState,
    b: ModelState,
    targets: TripSet,
    f1: TripStopTimes,
    f2: TripStopTimes,
    disruption_idx: DisruptionIdx,
    impact_idx: ImpactIdx,
    action: ActionType,
)
    requires
        applied_on_stop_times(base, a, b, targets, f1, disruption_idx, impact_idx, action),
        forall|v: Seq<char>, d: Date| #[trigger] targets(v, d) ==> f1(v, d) == f2(v, d),
    ensures
        applied_on_stop_times(base, a, b, targets, f2, disruption_idx, impact_idx, action),
{
    if action == ActionType::ApplyImpact {
        assert forall|v: Seq<char>, d: Date|
            if targets(v, d) && present_in(base, a.0, v, d) {
                status_modified_with(#[trigger] status_in(b.0, v, d), f2(v, d))
            } else {
                status_in(b.0, v, d) == status_in(a.0, v, d)
            } by {
            assert(status_in(b.0, v, d) == status_in(b.0, v, d));
        }
    }
}

/// The stop time is at one of the stops and a traveler boards or debarks there, on `date` in
/// the timezone, during one of the periods.
pub open spec fn stop_time_concerned(timezone: Option<String>, stop_time: StopTime, stops: Seq<StopPointIdx>, date: Date, periods: Seq<TimePeriod>) -> bool {
    &&& stops.contains(stop_time.stop)
    &&& (periods_contain(periods, timezoned_datetime(timezone, date, stop_time.board_time))
        || periods_contain(periods, timezoned_datetime(timezone, date, stop_time.debark_time)))
}

/// The stop times, in order, but those concerned on `date`.
pub open spec fn kept_stop_times(timezone: Option<String>, stop_times: Seq<StopTime>, stops: Seq<StopPointIdx>, date: Date, periods: Seq<TimePeriod>) -> Seq<StopTime>
    decreases stop_times.len(),
{
    if stop_times.len() == 0 {
        Seq::empty()
    } else {
        let kept = kept_stop_times(timezone, stop_times.drop_last(), stops, date, periods);
        if stop_time_concerned(timezone, stop_times.last(), stops, date, periods) {
            kept
        } else {
            kept.push(stop_times.last())
        }
    }
}

/// When none of the stop times is at one of the stops, all are kept.
pub proof fn lemma_kept_all(timezone: Option<String>, stop_times: Seq<StopTime>, stops: Seq<StopPointIdx>, date: Date, periods: Seq<TimePeriod>)
    requires
        forall|k: int| 0 <= k < stop_times.len() ==> !stops.contains(#[trigger] stop_times[k].stop),
    ensures
        kept_stop_times(timezone, stop_times, stops, date, periods) == stop_times,
    decreases stop_times.len(),
{
    if stop_times.len() > 0 {
        let prefix = stop_times.drop_last();
        assert forall|k: int| 0 <= k < prefix.len() implies !stops.contains(#[trigger] prefix[k].stop) by {
            assert(prefix[k] == stop_times[k]);
        }
        lemma_kept_all(timezone, prefix, stops, date, periods);
        assert(!stops.contains(stop_times[stop_times.len() - 1].stop));
        assert(prefix.push(stop_times.last()) =~= stop_times);
    }
}

/// The trips of the base vehicle journeys before `end` that may run during the periods and
/// lose stop times at the stops.
pub open spec fn stop_points_targets_before(base: &BaseModel, stops: Seq<StopPointIdx>, periods: Seq<TimePeriod>, end: int) -> TripSet {
    |v: Seq<char>, d: Date| exists|j: int|
        0 <= j < end && j < base.vehicle_journeys@.len() && #[trigger] base.vehicle_journeys@[j].id@ == v
            && trip_concerned(base, j, d, periods)
            && kept_stop_times(base.vehicle_journeys@[j].timezone, base.vehicle_journeys@[j].stop_times@, stops, d, periods).len()
                != base.vehicle_journeys@[j].stop_times@.len()
}

/// The trips of the base schedule that may run during the periods and lose stop times at the
/// stops.
pub open spec fn stop_points_targets(base: &BaseModel, stops: Seq<StopPointIdx>, periods: Seq<TimePeriod>) -> TripSet {
    stop_points_targets_before(base, stops, periods, base.vehicle_journeys@.len() as int)
}

/// The stop times that each trip keeps.
pub open spec fn stop_points_kept(base: &BaseModel, stops: Seq<StopPointIdx>, periods: Seq<TimePeriod>) -> TripStopTimes {
    |v: Seq<char>, d: Date| match base.vehicle_journey_index(v) {
        Some(j) => kept_stop_times(base.vehicle_journeys@[j].timezone, base.vehicle_journeys@[j].stop_times@, stops, d, periods),
        None => Seq::empty(),
    }
}

/// The trips of the base vehicle journey `j` on dates before `end` that may run during the
/// periods and lose stop times at the stops.
pub open spec fn stop_dates_targets_before(base: &BaseModel, stops: Seq<StopPointIdx>, j: int, periods: Seq<TimePeriod>, end: int) -> TripSet {
    |v: Seq<char>, d: Date| v == base.vehicle_journeys@[j].id@ && d < end && trip_concerned(base, j, d, periods)
        && kept_stop_times(base.vehicle_journeys@[j].timezone, base.vehicle_journeys@[j].stop_times@, stops, d, periods).len()
            != base.vehicle_journeys@[j].stop_times@.len()
}

/// The trips of the base vehicle journey `j` that may run during the periods and lose stop
/// times at the stops.
pub open spec fn stop_vehicle_journey_targets(base: &BaseModel, stops: Seq<StopPointIdx>, j: int, periods: Seq<TimePeriod>) -> TripSet {
    |v: Seq<char>, d: Date| v == base.vehicle_journeys@[j].id@ && trip_concerned(base, j, d, periods)
        && kept_stop_times(base.vehicle_journeys@[j].timezone, base.vehicle_journeys@[j].stop_times@, stops, d, periods).len()
            != base.vehicle_journeys@[j].stop_times@.len()
}

/// The stop points that the identifiers name, in order; identifiers that name none are left out.
pub open spec fn resolved_stop_points(base: &BaseModel, points: Seq<String>, ids: Seq<String>) -> Seq<StopPointIdx>
    decreases ids.len(),
{
    if ids.len() == 0 {
        Seq::empty()
    } else {
        let resolved = resolved_stop_points(base, points, ids.drop_last());
        match stop_point_of(base, points, ids.last()@) {
            Some(s) => resolved.push(s),
            None => resolved,
        }
    }
}

/// The identifiers of the stop points before `end` of the stop area, in order.
pub open spec fn stop_area_point_ids(base: &BaseModel, stop_area: Seq<char>, end: int) -> Seq<String>
    decreases end,
{
    if end <= 0 {
        Seq::empty()
    } else {
        let ids = stop_area_point_ids(base, stop_area, end - 1);
        if base.stop_points@[end - 1].stop_area@ == stop_area {
            ids.push(base.stop_points@[end - 1].id)
        } else {
            ids
        }
    }
}

/// A trip keeps exactly its stop times that are not concerned, in order: the kept stop times
/// are the stop times filtered by that condition.
pub proof fn lemma_kept_stop_times_filter(
    timezone: Option<String>,
    stop_times: Seq<StopTime>,
    stops: Seq<StopPointIdx>,
    date: Date,
    periods: Seq<TimePeriod>,
)
    ensures
        kept_stop_times(timezone, stop_times, stops, date, periods)
            == stop_times.filter(|st: StopTime| !stop_time_concerned(timezone, st, stops, date, periods)),
    decreases stop_times.len(),
{
    reveal(Seq::filter);
    if stop_times.len() > 0 {
        lemma_kept_stop_times_filter(timezone, stop_times.drop_last(), stops, date, periods);
    }
}

/// The identifiers that name a stop point, each turned into that stop point, in order, and no
/// other: the resolved stop points are the identifiers filtered by that condition and mapped.
pub proof fn lemma_resolved_stop_points_filter(base: &BaseModel, points: Seq<String>, ids: Seq<String>)
    ensures
        resolved_stop_points(base, points, ids) == ids.filter(|id: String| stop_point_of(base, points, id@) is Some).map_values(
            |id: String| stop_point_of(base, points, id@)->Some_0,
        ),
    decreases ids.len(),
{
    reveal(Seq::filter);
    if ids.len() > 0 {
        lemma_resolved_stop_points_filter(base, points, ids.drop_last());
        let filtered = ids.drop_last().filter(|id: String| stop_point_of(base, points, id@) is Some);
        if stop_point_of(base, points, ids.last()@) is Some {
            assert(filtered.push(ids.last()).map_values(|id: String| stop_point_of(base, points, id@)->Some_0)
                =~= filtered.map_values(|id: String| stop_point_of(base, points, id@)->Some_0).push(
                stop_point_of(base, points, ids.last()@)->Some_0));
        }
    }
}

/// The identifiers of the stop points of a stop area are those of exactly the stop points of
/// the base schedule whose stop area it is, in their order.
pub proof fn lemma_stop_area_point_ids_filter(base: &BaseModel, stop_area: Seq<char>, end: int)
    requires
        0 <= end <= base.stop_points@.len(),
    ensures
        stop_area_point_ids(base, stop_area, end) == base.stop_points@.subrange(0, end).filter(
            |sp: BaseStopPoint| sp.stop_area@ == stop_area,
        ).map_values(|sp: BaseStopPoint| sp.id),
    decreases end,
{
    reveal(Seq::filter);
    if end > 0 {
        lemma_stop_area_point_ids_filter(base, stop_area, end - 1);
        let prefix = base.stop_points@.subrange(0, end);
        assert(prefix.drop_last() =~= base.stop_points@.subrange(0, end - 1));
        let filtered = prefix.drop_last().filter(|sp: BaseStopPoint| sp.stop_area@ == stop_area);
        if prefix.last().stop_area@ == stop_area {
            assert(filtered.push(prefix.last()).map_values(|sp: BaseStopPoint| sp.id)
                =~= filtered.map_values(|sp: BaseStopPoint| sp.id).push(prefix.last().id));
        }
    }
}

/// Whether the stop is one of the stops.
fn contains_stop(stops: &Vec<StopPointIdx>, stop: StopPointIdx) -> (result: bool)
    ensures
        result == stops@.contains(stop),
{
    let mut i: usize = 0;
    while i < stops.len()
        invariant
            i <= stops@.len(),
            forall|k: int| 0 <= k < i ==> stops@[k] != stop,
        decreases stops@.len() - i,
    {
        if stops[i] == stop {
            proof {
                assert(stops@[i as int] == stop);
            }
            return true;
        }
        i = i + 1;
    }
    false
}

/// The stop times but those concerned on `date`.
fn keep_stop_times(timezone: &Option<String>, stop_times: &Vec<StopTime>, stops: &Vec<StopPointIdx>, date: &Date, periods: &TimePeriods) -> (result: Vec<StopTime>)
    ensures
        result@ == kept_stop_times(*timezone, stop_times@, stops@, *date, periods@),
{
    let mut kept: Vec<StopTime> = Vec::new();
    let mut k: usize = 0;
    while k < stop_times.len()
        invariant
            k <= stop_times@.len(),
            kept@ == kept_stop_times(*timezone, stop_times@.subrange(0, k as int), stops@, *date, periods@),
        decreases stop_times@.len() - k,
    {
        let stop_time = stop_times[k];
        proof {
            let prefix = stop_times@.subrange(0, k + 1);
            assert(prefix.drop_last() =~= stop_times@.subrange(0, k as int));
            assert(prefix.last() == stop_time);
        }
        let concerned = contains_stop(stops, stop_time.stop) && (periods.contains(&compose_in(timezone, date, &stop_time.board_time))
            || periods.contains(&compose_in(timezone, date, &stop_time.debark_time)));
        if !concerned {
            kept.push(stop_time);
        }
        k = k + 1;
    }
    proof {
        assert(stop_times@.subrange(0, k as int) =~= stop_times@);
    }
    kept
}

/// The application periods, each cut to the period of the base schedule; those that do not meet
/// it are left out.
pub open spec fn periods_within(periods: Seq<TimePeriod>, model_period: TimePeriod) -> Seq<TimePeriod>
    decreases periods.len(),
{
    if periods.len() == 0 {
        Seq::empty()
    } else {
        let within = periods_within(periods.drop_last(), model_period);
        match intersection_spec(periods.last(), model_period) {
            Some(p) => within.push(p),
            None => within,
        }
    }
}

/// The periods cut to the period of the base schedule are exactly the cuts of the periods that
/// meet it, in order.
pub proof fn lemma_periods_within_filter(periods: Seq<TimePeriod>, model_period: TimePeriod)
    ensures
        periods_within(periods, model_period) == periods.filter(|p: TimePeriod| intersection_spec(p, model_period) is Some).map_values(
            |p: TimePeriod| intersection_spec(p, model_period)->Some_0,
        ),
    decreases periods.len(),
{
    reveal(Seq::filter);
    if periods.len() > 0 {
        lemma_periods_within_filter(periods.drop_last(), model_period);
        let filtered = periods.drop_last().filter(|p: TimePeriod| intersection_spec(p, model_period) is Some);
        if intersection_spec(periods.last(), model_period) is Some {
            assert(filtered.push(periods.last()).map_values(|p: TimePeriod| intersection_spec(p, model_period)->Some_0)
                =~= filtered.map_values(|p: TimePeriod| intersection_spec(p, model_period)->Some_0).push(
                intersection_spec(periods.last(), model_period)->Some_0));
        }
    }
}

/// The impact holds no object that the library cannot apply yet: rail sections, line sections,
/// and informed objects of unknown kind.
pub open spec fn supported_impact(impact: Impact) -> bool {
    &&& forall|k: int| 0 <= k < impact.impacted_pt_objects@.len()
        ==> !(#[trigger] impact.impacted_pt_objects@[k] is RailSection) && !(impact.impacted_pt_objects@[k] is LineSection)
    &&& forall|k: int| 0 <= k < impact.informed_pt_objects@.len()
        ==> !(#[trigger] impact.informed_pt_objects@[k] is Unknown)
}

/// The impact holds no object that the library cannot apply yet, when its application periods
/// meet the period of the base schedule (an impact whose periods miss it is not looked into).
pub open spec fn supported_where_applied(base: &BaseModel, impact: Impact) -> bool {
    periods_within(impact.application_periods@, base.time_period).len() > 0 ==> supported_impact(impact)
}

/// The number of stop times that the updated trips among the objects give.
pub open spec fn updated_stop_times_count(objects: Seq<Impacted>) -> int
    decreases objects.len(),
{
    if objects.len() == 0 {
        0
    } else {
        updated_stop_times_count(objects.drop_last()) + match objects.last() {
            Impacted::BaseTripUpdated(trip) => trip.stop_times@.len() as int,
            Impacted::NewTripUpdated(trip) => trip.stop_times@.len() as int,
            _ => 0,
        }
    }
}

/// The number of stop times that the updated trips of the impacts give.
pub open spec fn impacts_stop_times_count(impacts: Seq<Impact>) -> int
    decreases impacts.len(),
{
    if impacts.len() == 0 {
        0
    } else {
        impacts_stop_times_count(impacts.drop_last()) + updated_stop_times_count(impacts.last().impacted_pt_objects@)
    }
}

/// Counting over a prefix counts no more.
pub proof fn lemma_updated_stop_times_count_prefix(objects: Seq<Impacted>, k: int)
    requires
        0 <= k <= objects.len(),
    ensures
        0 <= updated_stop_times_count(objects.subrange(0, k)) <= updated_stop_times_count(objects),
    decreases objects.len(),
{
    if objects.len() > 0 {
        if k == objects.len() {
            assert(objects.subrange(0, k) =~= objects);
            lemma_updated_stop_times_count_prefix(objects.drop_last(), k - 1);
        } else {
            assert(objects.drop_last().subrange(0, k) =~= objects.subrange(0, k));
            lemma_updated_stop_times_count_prefix(objects.drop_last(), k);
        }
    }
}

/// Counting over a prefix counts no more.
pub proof fn lemma_impacts_stop_times_count_prefix(impacts: Seq<Impact>, k: int)
    requires
        0 <= k <= impacts.len(),
    ensures
        0 <= impacts_stop_times_count(impacts.subrange(0, k)) <= impacts_stop_times_count(impacts),
    decreases impacts.len(),
{
    if impacts.len() > 0 {
        lemma_updated_stop_times_count_prefix(impacts.last().impacted_pt_objects@, impacts.last().impacted_pt_objects@.len() as int);
        assert(impacts.last().impacted_pt_objects@.subrange(0, impacts.last().impacted_pt_objects@.len() as int)
            =~= impacts.last().impacted_pt_objects@);
        if k == impacts.len() {
            assert(impacts.subrange(0, k) =~= impacts);
            lemma_impacts_stop_times_count_prefix(impacts.drop_last(), k - 1);
        } else {
            assert(impacts.drop_last().subrange(0, k) =~= impacts.subrange(0, k));
            lemma_impacts_stop_times_count_prefix(impacts.drop_last(), k);
        }
    }
}

/// `b` is `a` after the action on one impacted object, during the periods.
pub open spec fn impacted_effect(
    base: &BaseModel,
    a: ModelState,
    b: ModelState,
    object: Impacted,
    periods: Seq<TimePeriod>,
    disruption_idx: DisruptionIdx,
    impact_idx: ImpactIdx,
    action: ActionType,
) -> bool {
    match object {
        Impacted::NetworkDeleted(network) => if has_id(base.networks@, network.id@) {
            applied(base, a, b, selected_targets(base, Selection::Network(network.id), periods), disruption_idx, impact_idx, action)
        } else {
            b == a
        },
        Impacted::LineDeleted(line) => if has_id(base.lines@, line.id@) {
            applied(base, a, b, selected_targets(base, Selection::Line(line.id), periods), disruption_idx, impact_idx, action)
        } else {
            b == a
        },
        Impacted::RouteDeleted(route) => if has_id(base.routes@, route.id@) {
            applied(base, a, b, selected_targets(base, Selection::Route(route.id), periods), disruption_idx, impact_idx, action)
        } else {
            b == a
        },
        Impacted::BaseTripDeleted(trip) => if base.vehicle_journey_index(trip.id@) is Some {
            applied(base, a, b, vehicle_journey_targets(base, trip.id@, periods), disruption_idx, impact_idx, action)
        } else {
            b == a
        },
        Impacted::StopAreaDeleted(stop_area) => if has_id(base.stop_areas@, stop_area.id@) {
            let stops = resolved_stop_points(base, a.2, stop_area_point_ids(base, stop_area.id@, base.stop_points@.len() as int));
            applied_on_stop_times(base, a, b, stop_points_targets(base, stops, periods), stop_points_kept(base, stops, periods),
                disruption_idx, impact_idx, action)
        } else {
            b == a
        },
        Impacted::StopPointDeleted(stop_point) => {
            let stops = resolved_stop_points(base, a.2, seq![stop_point.id]);
            applied_on_stop_times(base, a, b, stop_points_targets(base, stops, periods), stop_points_kept(base, stops, periods),
                disruption_idx, impact_idx, action)
        },
        Impacted::RailSection(_) => false,
        Impacted::LineSection(_) => false,
        Impacted::TripDeleted(trip, date) => trip_deleted(base, a, b, trip.id@, date, disruption_idx, impact_idx),
        Impacted::BaseTripUpdated(trip) => base_trip_updated(base, a, b, trip, disruption_idx, impact_idx),
        Impacted::NewTripUpdated(trip) => new_trip_updated(base, a, b, trip, disruption_idx, impact_idx),
    }
}

/// `b` is `a` after the action on one informed object, during the periods.
pub open spec fn informed_effect(
    base: &BaseModel,
    a: ModelState,
    b: ModelState,
    object: Informed,
    periods: Seq<TimePeriod>,
    disruption_idx: DisruptionIdx,
    impact_idx: ImpactIdx,
    action: ActionType,
) -> bool {
    match object {
        Informed::Network(network) => if has_id(base.networks@, network.id@) {
            applied(base, a, b, selected_targets(base, Selection::Network(network.id), periods), disruption_idx, impact_idx, action)
        } else {
            b == a
        },
        Informed::Route(route) => if has_id(base.routes@, route.id@) {
            applied(base, a, b, selected_targets(base, Selection::Route(route.id), periods), disruption_idx, impact_idx, action)
        } else {
            b == a
        },
        Informed::Line(line) => if has_id(base.lines@, line.id@) {
            applied(base, a, b, selected_targets(base, Selection::Line(line.id), periods), disruption_idx, impact_idx, action)
        } else {
            b == a
        },
        Informed::Trip(trip) => if base.vehicle_journey_index(trip.id@) is Some {
            applied(base, a, b, vehicle_journey_targets(base, trip.id@, periods), disruption_idx, impact_idx, action)
        } else {
            b == a
        },
        Informed::StopArea(stop_area) => if has_id(base.stop_areas@, stop_area.id@) {
            let stops = resolved_stop_points(base, a.2, stop_area_point_ids(base, stop_area.id@, base.stop_points@.len() as int));
            applied_on_stop_times(base, a, b, stop_points_targets(base, stops, periods), stop_points_kept(base, stops, periods),
                disruption_idx, impact_idx, action)
        } else {
            b == a
        },
        Informed::StopPoint(stop_point) => {
            let stops = resolved_stop_points(base, a.2, seq![stop_point.id]);
            applied_on_stop_times(base, a, b, stop_points_targets(base, stops, periods), stop_points_kept(base, stops, periods),
                disruption_idx, impact_idx, action)
        },
        Informed::Unknown => false,
    }
}

/// Each state of `states` comes from the previous one by the action on the next impacted object.
pub open spec fn impacted_chain(
    base: &BaseModel,
    states: Seq<ModelState>,
    objects: Seq<Impacted>,
    periods: Seq<TimePeriod>,
    disruption_idx: DisruptionIdx,
    impact_idx: ImpactIdx,
    action: ActionType,
) -> bool {
    &&& states.len() == objects.len() + 1
    &&& forall|k: int| 0 <= k < objects.len()
        ==> #[trigger] impacted_effect(base, states[k], states[k + 1], objects[k], periods, disruption_idx, impact_idx, action)
}

/// Each state of `states` comes from the previous one by the action on the next informed object.
pub open spec fn informed_chain(
    base: &BaseModel,
    states: Seq<ModelState>,
    objects: Seq<Informed>,
    periods: Seq<TimePeriod>,
    disruption_idx: DisruptionIdx,
    impact_idx: ImpactIdx,
    action: ActionType,
) -> bool {
    &&& states.len() == objects.len() + 1
    &&& forall|k: int| 0 <= k < objects.len()
        ==> #[trigger] informed_effect(base, states[k], states[k + 1], objects[k], periods, disruption_idx, impact_idx, action)
}

/// What applying, or cancelling, an impact does to its impacted objects.
pub open spec fn impacted_action(cancel: bool) -> ActionType {
    if cancel { ActionType::CancelImpact } else { ActionType::ApplyImpact }
}

/// What applying, or cancelling, an impact does to its informed objects.
pub open spec fn informed_action(cancel: bool) -> ActionType {
    if cancel { ActionType::CancelInform } else { ActionType::ApplyInform }
}

/// `b` is `a` after applying (or cancelling) the impact: during its application periods within
/// the period of the base schedule, on each impacted object in turn, then on each informed
/// object in turn; an impact whose periods miss the base schedule changes nothing.
pub open spec fn impact_applied(
    base: &BaseModel,
    a: ModelState,
    b: ModelState,
    impact: Impact,
    disruption_idx: DisruptionIdx,
    impact_idx: ImpactIdx,
    cancel: bool,
) -> bool {
    let periods = periods_within(impact.application_periods@, base.time_period);
    let impact_action = impacted_action(cancel);
    let inform_action = informed_action(cancel);
    if periods.len() == 0 {
        b == a
    } else {
        exists|impacted: Seq<ModelState>, informed: Seq<ModelState>|
            #![trigger impacted_chain(base, impacted, impact.impacted_pt_objects@, periods, disruption_idx, impact_idx, impact_action),
                informed_chain(base, informed, impact.informed_pt_objects@, periods, disruption_idx, impact_idx, inform_action)]
            impacted[0] == a && impacted_chain(base, impacted, impact.impacted_pt_objects@, periods, disruption_idx, impact_idx, impact_action)
                && informed[0] == impacted.last()
                && informed_chain(base, informed, impact.informed_pt_objects@, periods, disruption_idx, impact_idx, inform_action)
                && informed.last() == b
    }
}

/// Each state of `states` comes from the previous one by applying (or cancelling) the next impact.
pub open spec fn impacts_chain(
    base: &BaseModel,
    states: Seq<ModelState>,
    impacts: Seq<Impact>,
    disruption_idx: DisruptionIdx,
    cancel: bool,
) -> bool {
    &&& states.len() == impacts.len() + 1
    &&& forall|k: int| 0 <= k < impacts.len()
        ==> #[trigger] impact_applied(base, states[k], states[k + 1], impacts[k], disruption_idx, ImpactIdx { idx: k as usize }, cancel)
}

/// `b` is `a` after applying (or cancelling) each impact of the disruption in turn.
pub open spec fn disruption_applied(
    base: &BaseModel,
    a: ModelState,
    b: ModelState,
    impacts: Seq<Impact>,
    disruption_idx: DisruptionIdx,
    cancel: bool,
) -> bool {
    exists|states: Seq<ModelState>| #![trigger impacts_chain(base, states, impacts, disruption_idx, cancel)]
        states[0] == a && impacts_chain(base, states, impacts, disruption_idx, cancel) && states.last() == b
}

/// `i` is the first of the disruptions with identifier `id`.
pub open spec fn is_first_disruption_with_id(disruptions: Seq<Disruption>, i: int, id: Seq<char>) -> bool {
    &&& 0 <= i < disruptions.len()
    &&& disruptions[i].id@ == id
    &&& forall|k: int| 0 <= k < i ==> (#[trigger] disruptions[k]).id@ != id
}

/// The first of the disruptions with identifier `id`, if there is one.
pub open spec fn disruption_index(disruptions: Seq<Disruption>, id: Seq<char>) -> Option<int> {
    if exists|i: int| is_first_disruption_with_id(disruptions, i, id) {
        Some(choose|i: int| is_first_disruption_with_id(disruptions, i, id))
    } else {
        None
    }
}

/// The trips of the base vehicle journey `j`, with identifier `vehicle_journey`, that may run
/// during the periods on a date before `end`.
pub open spec fn dates_targets_before(base: &BaseModel, vehicle_journey: Seq<char>, j: int, periods: Seq<TimePeriod>, end: int) -> TripSet {
    |v: Seq<char>, d: Date| v == vehicle_journey && d < end && trip_concerned(base, j, d, periods)
}

/// After one update, the updates taken in between are that one, when the data took it.
pub proof fn lemma_one_update(a: ModelState, b: ModelState, kind: DataUpdateKind, vehicle_journey: Seq<char>, date: Date, stop_times: Seq<StopTime>)
    requires
        one_update(a, b, kind, vehicle_journey, date, stop_times),
    ensures
        b.3.subrange(0, a.3.len() as int) == a.3,
        forall|k: DataUpdateKind, v: Seq<char>, d: Date| #[trigger] accepted_between(a.3, b.3, k, v, d)
            == (k == kind && v == vehicle_journey && d == date && b.3.last().4),
{
    assert(b.3.subrange(0, a.3.len() as int) =~= a.3);
    let n = a.3.len() as int;
    assert forall|k: DataUpdateKind, v: Seq<char>, d: Date| #[trigger] accepted_between(a.3, b.3, k, v, d)
        == (k == kind && v == vehicle_journey && d == date && b.3.last().4) by {
        if k == kind && v == vehicle_journey && d == date && b.3.last().4 {
            assert(b.3[n] == b.3.last());
        }
    }
}

impl RealTimeModel {
    /// Deletes the trip if it runs, removes its vehicle from the transit data, and links it to
    /// the impact when the data took the removal.
    fn delete_trip<Data: DataUpdate>(
        &mut self,
        base_model: &BaseModel,
        data: &mut Data,
        vehicle_journey_id: &String,
        date: &Date,
        disruption_idx: &DisruptionIdx,
        impact_idx: &ImpactIdx,
    ) -> (result: Result<(), DisruptionError>)
        requires
            old(self).wf(),
        ensures
            final(self).wf(),
            final(self).disruptions@ == old(self).disruptions@,
            trip_deleted(base_model, old(self).state(old(data).updates()), final(self).state(final(data).updates()), vehicle_journey_id@, *date, *disruption_idx, *impact_idx),
            result is Ok <==> present_in(base_model, old(self).trips@, vehicle_journey_id@, *date),
            result matches Err(e) ==> (e matches DisruptionError::DeleteAbsentTrip(id, d) && id.id@ == vehicle_journey_id@ && d == *date),
            result is Ok ==> one_update(old(self).state(old(data).updates()), final(self).state(final(data).updates()),
                DataUpdateKind::Remove, vehicle_journey_id@, *date, Seq::empty()),
    {
        let ghost a = self.state(data.updates());
        if !self.delete(vehicle_journey_id, date, base_model) {
            return Err(DisruptionError::DeleteAbsentTrip(VehicleJourneyId { id: vehicle_journey_id.clone() }, *date));
        }
        let ghost b = self.state(data.updates());
        let removed = data.remove_real_time_vehicle(vehicle_journey_id, date);
        if removed {
            self.insert_informed_linked_disruption(vehicle_journey_id, date, base_model, *disruption_idx, *impact_idx);
        }
        proof {
            let targets = single_trip(vehicle_journey_id@, *date);
            assert forall|v: Seq<char>, d: Date|
                #[trigger] status_in(self.trips@, v, d) == (if targets(v, d) { Some(TripStatus::Deleted) } else { status_in(a.0, v, d) }) by {
                if !targets(v, d) {
                    assert(!(v == vehicle_journey_id@ && d == *date));
                }
            }
            let c = self.state(data.updates());
            lemma_one_update(a, c, DataUpdateKind::Remove, vehicle_journey_id@, *date, Seq::empty());
            assert forall|i: int| a.3.len() <= i < c.3.len() implies (#[trigger] c.3[i]).0 == DataUpdateKind::Remove
                && targets(c.3[i].1, c.3[i].2) && c.3[i].3 == no_stop_times()(c.3[i].1, c.3[i].2) by {
                assert(i == a.3.len());
            }
        }
        Ok(())
    }

    /// Gives the trip these stop times if it runs, gives its vehicle in the transit data the
    /// same, and links the trip to the impact when the data took the change.
    pub fn modify_trip<Data: DataUpdate>(
        &mut self,
        base_model: &BaseModel,
        data: &mut Data,
        vehicle_journey_id: &String,
        date: &Date,
        stop_times: Vec<StopTime>,
        disruption_idx: &DisruptionIdx,
        impact_idx: &ImpactIdx,
    ) -> (result: Result<(), DisruptionError>)
        requires
            old(self).wf(),
        ensures
            final(self).wf(),
            final(self).disruptions@ == old(self).disruptions@,
            result is Ok <==> present_in(base_model, old(self).trips@, vehicle_journey_id@, *date),
            result matches Err(e) ==> (e matches DisruptionError::ModifyAbsentTrip(id, d) && id.id@ == vehicle_journey_id@ && d == *date),
            result is Err ==> final(self).state(final(data).updates()) == old(self).state(old(data).updates()),
            result is Ok ==> final(self).state(final(data).updates()).2 == old(self).state(old(data).updates()).2,
            result is Ok ==> trips_modified_on(base_model, old(self).state(old(data).updates()), final(self).state(final(data).updates()),
                single_trip(vehicle_journey_id@, *date), |v: Seq<char>, d: Date| stop_times@),
            result is Ok ==> one_update(old(self).state(old(data).updates()), final(self).state(final(data).updates()),
                DataUpdateKind::Modify, vehicle_journey_id@, *date, stop_times@),
            result is Ok ==> links_added_where_accepted(old(self).state(old(data).updates()), final(self).state(final(data).updates()),
                DataUpdateKind::Modify, *disruption_idx, *impact_idx),
    {
        let ghost a = self.state(data.updates());
        let ghost expected = stop_times@;
        let copy = copy_stop_times(&stop_times);
        if !self.modify(vehicle_journey_id, date, stop_times, base_model) {
            return Err(DisruptionError::ModifyAbsentTrip(VehicleJourneyId { id: vehicle_journey_id.clone() }, *date));
        }
        let modified = data.modify_real_time_vehicle(vehicle_journey_id, date, &copy);
        if modified {
            self.insert_informed_linked_disruption(vehicle_journey_id, date, base_model, *disruption_idx, *impact_idx);
        }
        proof {
            let targets = single_trip(vehicle_journey_id@, *date);
            let f = |v: Seq<char>, d: Date| expected;
            assert forall|v: Seq<char>, d: Date|
                if targets(v, d) && present_in(base_model, a.0, v, d) {
                    status_modified_with(#[trigger] status_in(self.trips@, v, d), f(v, d))
                } else {
                    status_in(self.trips@, v, d) == status_in(a.0, v, d)
                } by {
                if !targets(v, d) {
                    assert(!(v == vehicle_journey_id@ && d == *date));
                }
            }
            lemma_one_update(a, self.state(data.updates()), DataUpdateKind::Modify, vehicle_journey_id@, *date, expected);
        }
        Ok(())
    }

    /// Adds the trip with these stop times if it does not run, and adds its vehicle to the
    /// transit data.
    fn add_trip<Data: DataUpdate>(
        &mut self,
        base_model: &BaseModel,
        data: &mut Data,
        vehicle_journey_id: &String,
        date: &Date,
        stop_times: Vec<StopTime>,
    ) -> (result: Result<(), DisruptionError>)
        requires
            old(self).wf(),
        ensures
            final(self).wf(),
            final(self).disruptions@ == old(self).disruptions@,
            final(self).informed_links@ == old(self).informed_links@,
            final(self).new_stop_points@ == old(self).new_stop_points@,
            result is Ok <==> !present_in(base_model, old(self).trips@, vehicle_journey_id@, *date),
            result matches Err(e) ==> (e matches DisruptionError::AddPresentTrip(id, d) && id.id@ == vehicle_journey_id@ && d == *date),
            result is Err ==> final(self).trips@ == old(self).trips@,
            result is Err ==> final(data).updates() == old(data).updates(),
            result is Ok ==> final(data).updates() == old(data).updates().push(
                (DataUpdateKind::Insert, vehicle_journey_id@, *date, stop_times@, final(data).updates().last().4)),
            result is Ok ==> status_added_with(status_in(final(self).trips@, vehicle_journey_id@, *date), stop_times@),
            result is Ok ==> forall|v: Seq<char>, d: Date| !(v == vehicle_journey_id@ && d == *date)
                ==> #[trigger] status_in(final(self).trips@, v, d) == status_in(old(self).trips@, v, d),
    {
        let copy = copy_stop_times(&stop_times);
        if !self.add(vehicle_journey_id, date, stop_times, base_model) {
            return Err(DisruptionError::AddPresentTrip(VehicleJourneyId { id: vehicle_journey_id.clone() }, *date));
        }
        let _inserted = data.insert_real_time_vehicle(vehicle_journey_id, date, &copy);
        Ok(())
    }

    /// Makes the trip follow the base schedule again if the base schedule has it, puts back its
    /// vehicle in the transit data, and unlinks the trip from the impact when the data took it.
    fn restore_base_trip<Data: DataUpdate>(
        &mut self,
        base_model: &BaseModel,
        data: &mut Data,
        vehicle_journey_id: &String,
        date: &Date,
        disruption_idx: &DisruptionIdx,
        impact_idx: &ImpactIdx,
    ) -> (result: Result<(), DisruptionError>)
        requires
            old(self).wf(),
        ensures
            final(self).wf(),
            final(self).disruptions@ == old(self).disruptions@,
            result is Ok <==> base_model.trip_exists_by_id(vehicle_journey_id@, *date),
            result matches Err(e) ==> (e matches DisruptionError::ModifyAbsentTrip(id, d) && id.id@ == vehicle_journey_id@ && d == *date),
            result is Err ==> final(self).state(final(data).updates()) == old(self).state(old(data).updates()),
            result is Ok ==> applied(base_model, old(self).state(old(data).updates()), final(self).state(final(data).updates()),
                single_trip(vehicle_journey_id@, *date), *disruption_idx, *impact_idx, ActionType::CancelImpact),
            result is Ok ==> one_update(old(self).state(old(data).updates()), final(self).state(final(data).updates()),
                DataUpdateKind::Insert, vehicle_journey_id@, *date, base_stop_times(base_model)(vehicle_journey_id@, *date)),
    {
        let ghost a = self.state(data.updates());
        if !self.restore_base_vehicle_journey(vehicle_journey_id, date, base_model) {
            return Err(DisruptionError::ModifyAbsentTrip(VehicleJourneyId { id: vehicle_journey_id.clone() }, *date));
        }
        let j = match base_model.vehicle_journey_idx(vehicle_journey_id) {
            Some(j) => j,
            None => {
                return Ok(());
            },
        };
        let inserted = data.insert_real_time_vehicle(vehicle_journey_id, date, base_model.stop_times(j));
        if inserted {
            self.cancel_informed_linked_disruption(vehicle_journey_id, date, base_model, *disruption_idx, *impact_idx);
        }
        proof {
            let targets = single_trip(vehicle_journey_id@, *date);
            assert forall|v: Seq<char>, d: Date|
                #[trigger] status_in(self.trips@, v, d) == (if targets(v, d) { None::<TripStatus> } else { status_in(a.0, v, d) }) by {
                if !targets(v, d) {
                    assert(!(v == vehicle_journey_id@ && d == *date));
                }
            }
            let c = self.state(data.updates());
            lemma_one_update(a, c, DataUpdateKind::Insert, vehicle_journey_id@, *date, base_stop_times(base_model)(vehicle_journey_id@, *date));
            assert forall|i: int| a.3.len() <= i < c.3.len() implies (#[trigger] c.3[i]).0 == DataUpdateKind::Insert
                && targets(c.3[i].1, c.3[i].2) && c.3[i].3 == base_stop_times(base_model)(c.3[i].1, c.3[i].2) by {
                assert(i == a.3.len());
            }
        }
        Ok(())
    }

    /// Acts on the trip for the impact: applying deletes it, informing links it, cancelling
    /// restores it, cancelling the information unlinks it. A trip that is absent (from the
    /// model for a deletion, from the base schedule for a restoration) is left as it is.
    fn dispatch_on_base_vehicle_journey<Data: DataUpdate>(
        &mut self,
        base_model: &BaseModel,
        data: &mut Data,
        vehicle_journey_id: &String,
        date: &Date,
        disruption_idx: &DisruptionIdx,
        impact_idx: &ImpactIdx,
        action_type: &ActionType,
    )
        requires
            old(self).wf(),
        ensures
            final(self).wf(),
            final(self).disruptions@ == old(self).disruptions@,
            base_model.trip_exists_by_id(vehicle_journey_id@, *date) ==> applied(base_model, old(self).state(old(data).updates()),
                final(self).state(final(data).updates()), single_trip(vehicle_journey_id@, *date), *disruption_idx, *impact_idx,
                *action_type),
            !base_model.trip_exists_by_id(vehicle_journey_id@, *date) ==> match *action_type {
                ActionType::ApplyImpact => trip_deleted(base_model, old(self).state(old(data).updates()),
                    final(self).state(final(data).updates()), vehicle_journey_id@, *date, *disruption_idx, *impact_idx),
                ActionType::CancelImpact => final(self).state(final(data).updates()) == old(self).state(old(data).updates()),
                _ => applied(base_model, old(self).state(old(data).updates()), final(self).state(final(data).updates()),
                    single_trip(vehicle_journey_id@, *date), *disruption_idx, *impact_idx, *action_type),
            },
    {
        let ghost a = self.state(data.updates());
        let targets = Ghost(single_trip(vehicle_journey_id@, *date));
        proof {
            assert(a.3.subrange(0, a.3.len() as int) =~= a.3);
        }
        match action_type {
            ActionType::ApplyImpact => {
                // an error (the trip does not run) is left as it is
                let _result = self.delete_trip(base_model, data, vehicle_journey_id, date, disruption_idx, impact_idx);
                proof {
                    if !present_in(base_model, a.0, vehicle_journey_id@, *date) && base_model.trip_exists_by_id(vehicle_journey_id@, *date) {
                        assert forall|v: Seq<char>, d: Date|
                            #[trigger] status_in(a.0, v, d) == (if targets@(v, d) { Some(TripStatus::Deleted) } else { status_in(a.0, v, d) }) by {
                            if targets@(v, d) {
                                assert(v == vehicle_journey_id@ && d == *date);
                            }
                        }
                    }
                }
            },
            ActionType::ApplyInform => {
                self.insert_informed_linked_disruption(vehicle_journey_id, date, base_model, *disruption_idx, *impact_idx);
            },
            ActionType::CancelImpact => {
                // an error (the base schedule lacks the trip) is left as it is
                let _result = self.restore_base_trip(base_model, data, vehicle_journey_id, date, disruption_idx, impact_idx);
            },
            ActionType::CancelInform => {
                self.cancel_informed_linked_disruption(vehicle_journey_id, date, base_model, *disruption_idx, *impact_idx);
            },
        }
    }

    /// Acts for the impact on the trips of the vehicle journey that may run during the periods;
    /// fails when the base schedule has no vehicle journey with this identifier.
    fn apply_on_base_vehicle_journey<Data: DataUpdate>(
        &mut self,
        base_model: &BaseModel,
        data: &mut Data,
        vehicle_journey_id: &String,
        application_periods: &TimePeriods,
        disruption_idx: &DisruptionIdx,
        impact_idx: &ImpactIdx,
        action_type: &ActionType,
    ) -> (result: Result<(), DisruptionError>)
        requires
            old(self).wf(),
            application_periods.wf(),
            application_periods.within_limit(),
        ensures
            final(self).wf(),
            final(self).disruptions@ == old(self).disruptions@,
            result is Ok <==> base_model.vehicle_journey_index(vehicle_journey_id@) is Some,
            result matches Err(e) ==> (e matches DisruptionError::VehicleJourneyAbsent(id) && id.id@ == vehicle_journey_id@),
            result is Err ==> final(self).state(final(data).updates()) == old(self).state(old(data).updates()),
            result is Ok ==> applied(base_model, old(self).state(old(data).updates()), final(self).state(final(data).updates()),
                vehicle_journey_targets(base_model, vehicle_journey_id@, application_periods@),
                *disruption_idx, *impact_idx, *action_type),
    {
        let j = match base_model.vehicle_journey_idx(vehicle_journey_id) {
            Some(j) => j,
            None => {
                return Err(DisruptionError::VehicleJourneyAbsent(VehicleJourneyId { id: vehicle_journey_id.clone() }));
            },
        };
        let ghost a = self.state(data.updates());
        let ghost periods = application_periods@;
        let ghost first = first_date_concerned(periods);
        let dates = application_periods.dates_possibly_concerned();
        proof {
            lemma_applied_none(base_model, a, dates_targets_before(base_model, vehicle_journey_id@, j as int, periods, first + 0), |v: Seq<char>, d: Date| Seq::empty(),
                *disruption_idx, *impact_idx, *action_type);
        }
        let mut i: usize = 0;
        while i < dates.len()
            invariant
                i <= dates@.len(),
                self.wf(),
                self.disruptions@ == old(self).disruptions@,
                a == old(self).state(old(data).updates()),
                j < base_model.vehicle_journeys@.len(),
                base_model.vehicle_journey_index(vehicle_journey_id@) == Some(j as int),
                periods == application_periods@,
                first == first_date_concerned(periods),
                forall|k: int| 0 <= k < dates@.len() ==> #[trigger] dates@[k] == first + k,
                dates@.len() == (if first <= last_date_concerned(periods) { last_date_concerned(periods) - first + 1 } else { 0 }),
                applied(base_model, a, self.state(data.updates()), dates_targets_before(base_model, vehicle_journey_id@, j as int, periods, first + i as int), *disruption_idx, *impact_idx, *action_type),
            decreases dates@.len() - i,
        {
            let date = dates[i];
            let ghost before = self.state(data.updates());
            let concerned = match base_model.trip_time_period(j, &date) {
                Some(trip_period) => application_periods.intersects(&trip_period),
                None => false,
            };
            if concerned {
                proof {
                    assert(base_model.trip_exists_spec(j as int, date));
                }
                self.dispatch_on_base_vehicle_journey(base_model, data, vehicle_journey_id, &date,
                    disruption_idx, impact_idx, action_type);
                proof {
                    lemma_applied_compose(base_model, a, before, self.state(data.updates()), dates_targets_before(base_model, vehicle_journey_id@, j as int, periods, first + i as int),
                        single_trip(vehicle_journey_id@, date), dates_targets_before(base_model, vehicle_journey_id@, j as int, periods, first + i + 1), *disruption_idx, *impact_idx, *action_type);
                }
            } else {
                proof {
                    lemma_applied_none(base_model, before, |v: Seq<char>, d: Date| false,
                        |v: Seq<char>, d: Date| Seq::empty(), *disruption_idx, *impact_idx, *action_type);
                    assert forall|v: Seq<char>, d: Date| #[trigger] dates_targets_before(base_model, vehicle_journey_id@, j as int, periods, first + i + 1)(v, d)
                        == (dates_targets_before(base_model, vehicle_journey_id@, j as int, periods, first + i as int)(v, d) || false) by {
                        if d == date {
                            assert(!trip_concerned(base_model, j as int, d, periods));
                        }
                    }
                    lemma_applied_compose(base_model, a, before, self.state(data.updates()), dates_targets_before(base_model, vehicle_journey_id@, j as int, periods, first + i as int),
                        |v: Seq<char>, d: Date| false, dates_targets_before(base_model, vehicle_journey_id@, j as int, periods, first + i + 1), *disruption_idx, *impact_idx, *action_type);
                }
            }
            i = i + 1;
        }
        proof {
            let targets = vehicle_journey_targets(base_model, vehicle_journey_id@, periods);
            assert forall|v: Seq<char>, d: Date| #[trigger] targets(v, d) == (dates_targets_before(base_model, vehicle_journey_id@, j as int, periods, first + i as int)(v, d) || false) by {}
            lemma_applied_none(base_model, self.state(data.updates()), |v: Seq<char>, d: Date| false,
                |v: Seq<char>, d: Date| Seq::empty(), *disruption_idx, *impact_idx, *action_type);
            lemma_applied_compose(base_model, a, self.state(data.updates()), self.state(data.updates()), dates_targets_before(base_model, vehicle_journey_id@, j as int, periods, first + i as int),
                |v: Seq<char>, d: Date| false, targets, *disruption_idx, *impact_idx, *action_type);
        }
        Ok(())
    }
}

impl RealTimeModel {
    /// Acts for the impact on the trips of the selected base vehicle journeys that may run
    /// during the periods.
    fn apply_on_selected_vehicle_journeys<Data: DataUpdate>(
        &mut self,
        base_model: &BaseModel,
        data: &mut Data,
        selection: &Selection,
        application_periods: &TimePeriods,
        disruption_idx: &DisruptionIdx,
        impact_idx: &ImpactIdx,
        action_type: &ActionType,
    )
        requires
            old(self).wf(),
            base_model.wf(),
            application_periods.wf(),
            application_periods.within_limit(),
        ensures
            final(self).wf(),
            final(self).disruptions@ == old(self).disruptions@,
            applied(base_model, old(self).state(old(data).updates()), final(self).state(final(data).updates()),
                selected_targets(base_model, *selection, application_periods@), *disruption_idx, *impact_idx, *action_type),
    {
        let ghost a = self.state(data.updates());
        let ghost periods = application_periods@;
        proof {
            lemma_applied_none(base_model, a, selected_targets_before(base_model, *selection, periods, 0),
                |v: Seq<char>, d: Date| Seq::empty(), *disruption_idx, *impact_idx, *action_type);
        }
        let n = base_model.nb_of_vehicle_journeys();
        let mut j: usize = 0;
        while j < n
            invariant
                j <= n,
                n == base_model.vehicle_journeys@.len(),
                self.wf(),
                base_model.wf(),
                application_periods.wf(),
                application_periods.within_limit(),
                periods == application_periods@,
                self.disruptions@ == old(self).disruptions@,
                a == old(self).state(old(data).updates()),
                applied(base_model, a, self.state(data.updates()), selected_targets_before(base_model, *selection, periods, j as int),
                    *disruption_idx, *impact_idx, *action_type),
            decreases n - j,
        {
            let is_selected = match selection {
                Selection::Network(id) => match base_model.network_name(j) {
                    Some(network) => network.eq(id),
                    None => false,
                },
                Selection::Line(id) => match base_model.line_name(j) {
                    Some(line) => line.eq(id),
                    None => false,
                },
                Selection::Route(id) => base_model.route_name(j).eq(id),
            };
            let ghost before = self.state(data.updates());
            let ghost t_before = selected_targets_before(base_model, *selection, periods, j as int);
            let ghost t_after = selected_targets_before(base_model, *selection, periods, j + 1);
            proof {
                assert(is_selected == selects(base_model, j as int, *selection));
                base_model.lemma_unique_vehicle_journey(j as int);
            }
            if is_selected {
                let vehicle_journey_id = base_model.vehicle_journey_name(j);
                // the vehicle journey has this identifier, so this finds it
                let _result = self.apply_on_base_vehicle_journey(base_model, data, vehicle_journey_id,
                    application_periods, disruption_idx, impact_idx, action_type);
                proof {
                    let t_j = vehicle_journey_targets(base_model, vehicle_journey_id@, periods);
                    assert forall|v: Seq<char>, d: Date| #[trigger] t_after(v, d) == (t_before(v, d) || t_j(v, d)) by {
                        if t_after(v, d) {
                            let w = choose|w: int| 0 <= w < j + 1 && w < base_model.vehicle_journeys@.len()
                                && #[trigger] selects(base_model, w, *selection) && base_model.vehicle_journeys@[w].id@ == v
                                && trip_concerned(base_model, w, d, periods);
                            if w < j {
                                assert(t_before(v, d));
                            }
                        }
                        if t_before(v, d) {
                            let w = choose|w: int| 0 <= w < j && w < base_model.vehicle_journeys@.len()
                                && #[trigger] selects(base_model, w, *selection) && base_model.vehicle_journeys@[w].id@ == v
                                && trip_concerned(base_model, w, d, periods);
                            assert(selects(base_model, w, *selection));
                        }
                        if t_j(v, d) {
                            assert(selects(base_model, j as int, *selection));
                        }
                    }
                    lemma_applied_compose(base_model, a, before, self.state(data.updates()), t_before, t_j, t_after,
                        *disruption_idx, *impact_idx, *action_type);
                }
            } else {
                proof {
                    lemma_applied_none(base_model, before, |v: Seq<char>, d: Date| false,
                        |v: Seq<char>, d: Date| Seq::empty(), *disruption_idx, *impact_idx, *action_type);
                    assert forall|v: Seq<char>, d: Date| #[trigger] t_after(v, d) == (t_before(v, d) || false) by {
                        if t_after(v, d) {
                            let w = choose|w: int| 0 <= w < j + 1 && w < base_model.vehicle_journeys@.len()
                                && #[trigger] selects(base_model, w, *selection) && base_model.vehicle_journeys@[w].id@ == v
                                && trip_concerned(base_model, w, d, periods);
                            assert(w != j);
                            assert(t_before(v, d));
                        }
                        if t_before(v, d) {
                            let w = choose|w: int| 0 <= w < j && w < base_model.vehicle_journeys@.len()
                                && #[trigger] selects(base_model, w, *selection) && base_model.vehicle_journeys@[w].id@ == v
                                && trip_concerned(base_model, w, d, periods);
                            assert(selects(base_model, w, *selection));
                        }
                    }
                    lemma_applied_compose(base_model, a, before, self.state(data.updates()), t_before, |v: Seq<char>, d: Date| false,
                        t_after, *disruption_idx, *impact_idx, *action_type);
                }
            }
            j = j + 1;
        }
    }

    /// Acts for the impact on the trips of the vehicle journeys of the network that may run
    /// during the periods; fails when the base schedule has no such network.
    fn apply_on_network<Data: DataUpdate>(
        &mut self,
        base_model: &BaseModel,
        data: &mut Data,
        network_id: &String,
        application_periods: &TimePeriods,
        disruption_idx: &DisruptionIdx,
        impact_idx: &ImpactIdx,
        action_type: &ActionType,
    ) -> (result: Result<(), DisruptionError>)
        requires
            old(self).wf(),
            base_model.wf(),
            application_periods.wf(),
            application_periods.within_limit(),
        ensures
            final(self).wf(),
            final(self).disruptions@ == old(self).disruptions@,
            result is Ok <==> has_id(base_model.networks@, network_id@),
            result matches Err(e) ==> (e matches DisruptionError::NetworkAbsent(id) && id.id@ == network_id@),
            result is Err ==> final(self).state(final(data).updates()) == old(self).state(old(data).updates()),
            result is Ok ==> applied(base_model, old(self).state(old(data).updates()), final(self).state(final(data).updates()),
                selected_targets(base_model, Selection::Network(*network_id), application_periods@),
                *disruption_idx, *impact_idx, *action_type),
    {
        if !base_model.contains_network_id(network_id) {
            return Err(DisruptionError::NetworkAbsent(NetworkId { id: network_id.clone() }));
        }
        let selection = Selection::Network(network_id.clone());
        self.apply_on_selected_vehicle_journeys(base_model, data, &selection, application_periods,
            disruption_idx, impact_idx, action_type);
        Ok(())
    }

    /// Acts for the impact on the trips of the vehicle journeys of the line that may run during
    /// the periods; fails when the base schedule has no such line.
    fn apply_on_line<Data: DataUpdate>(
        &mut self,
        base_model: &BaseModel,
        data: &mut Data,
        line_id: &String,
        application_periods: &TimePeriods,
        disruption_idx: &DisruptionIdx,
        impact_idx: &ImpactIdx,
        action_type: &ActionType,
    ) -> (result: Result<(), DisruptionError>)
        requires
            old(self).wf(),
            base_model.wf(),
            application_periods.wf(),
            application_periods.within_limit(),
        ensures
            final(self).wf(),
            final(self).disruptions@ == old(self).disruptions@,
            result is Ok <==> has_id(base_model.lines@, line_id@),
            result matches Err(e) ==> (e matches DisruptionError::LineAbsent(id) && id.id@ == line_id@),
            result is Err ==> final(self).state(final(data).updates()) == old(self).state(old(data).updates()),
            result is Ok ==> applied(base_model, old(self).state(old(data).updates()), final(self).state(final(data).updates()),
                selected_targets(base_model, Selection::Line(*line_id), application_periods@),
                *disruption_idx, *impact_idx, *action_type),
    {
        if !base_model.contains_line_id(line_id) {
            return Err(DisruptionError::LineAbsent(LineId { id: line_id.clone() }));
        }
        let selection = Selection::Line(line_id.clone());
        self.apply_on_selected_vehicle_journeys(base_model, data, &selection, application_periods,
            disruption_idx, impact_idx, action_type);
        Ok(())
    }

    /// Acts for the impact on the trips of the vehicle journeys of the route that may run during
    /// the periods; fails when the base schedule has no such route.
    fn apply_on_route<Data: DataUpdate>(
        &mut self,
        base_model: &BaseModel,
        data: &mut Data,
        route_id: &String,
        application_periods: &TimePeriods,
        disruption_idx: &DisruptionIdx,
        impact_idx: &ImpactIdx,
        action_type: &ActionType,
    ) -> (result: Result<(), DisruptionError>)
        requires
            old(self).wf(),
            base_model.wf(),
            application_periods.wf(),
            application_periods.within_limit(),
        ensures
            final(self).wf(),
            final(self).disruptions@ == old(self).disruptions@,
            result is Ok <==> has_id(base_model.routes@, route_id@),
            result matches Err(e) ==> (e matches DisruptionError::RouteAbsent(id) && id.id@ == route_id@),
            result is Err ==> final(self).state(final(data).updates()) == old(self).state(old(data).updates()),
            result is Ok ==> applied(base_model, old(self).state(old(data).updates()), final(self).state(final(data).updates()),
                selected_targets(base_model, Selection::Route(*route_id), application_periods@),
                *disruption_idx, *impact_idx, *action_type),
    {
        if !base_model.contains_route_id(route_id) {
            return Err(DisruptionError::RouteAbsent(RouteId { id: route_id.clone() }));
        }
        let selection = Selection::Route(route_id.clone());
        self.apply_on_selected_vehicle_journeys(base_model, data, &selection, application_periods,
            disruption_idx, impact_idx, action_type);
        Ok(())
    }
}

impl RealTimeModel {
    /// Acts for the impact on the trip, which keeps `stop_times` when the impact applies: applying
    /// gives it those stop times, informing links it, cancelling restores it, cancelling the
    /// information unlinks it. A trip that is absent (from the model for a change, from the base
    /// schedule for a restoration) is left as it is.
    fn dispatch_for_stop_point<Data: DataUpdate>(
        &mut self,
        base_model: &BaseModel,
        data: &mut Data,
        vehicle_journey_id: &String,
        date: &Date,
        stop_times: Vec<StopTime>,
        disruption_idx: &DisruptionIdx,
        impact_idx: &ImpactIdx,
        action_type: &ActionType,
    )
        requires
            old(self).wf(),
        ensures
            final(self).wf(),
            final(self).disruptions@ == old(self).disruptions@,
            base_model.trip_exists_by_id(vehicle_journey_id@, *date) || *action_type != ActionType::CancelImpact
                ==> applied_on_stop_times(base_model, old(self).state(old(data).updates()), final(self).state(final(data).updates()),
                    single_trip(vehicle_journey_id@, *date), |v: Seq<char>, d: Date| stop_times@, *disruption_idx, *impact_idx,
                    *action_type),
            !base_model.trip_exists_by_id(vehicle_journey_id@, *date) && *action_type == ActionType::CancelImpact
                ==> final(self).state(final(data).updates()) == old(self).state(old(data).updates()),
    {
        let ghost a = self.state(data.updates());
        let ghost kept = stop_times@;
        proof {
            assert(a.3.subrange(0, a.3.len() as int) =~= a.3);
        }
        match action_type {
            ActionType::ApplyImpact => {
                // an error (the trip does not run) is left as it is
                let result = self.modify_trip(base_model, data, vehicle_journey_id, date, stop_times, disruption_idx, impact_idx);
                proof {
                    if result is Ok {
                        let c = self.state(data.updates());
                        lemma_one_update(a, c, DataUpdateKind::Modify, vehicle_journey_id@, *date, kept);
                        let targets = single_trip(vehicle_journey_id@, *date);
                        assert forall|i: int| a.3.len() <= i < c.3.len() implies (#[trigger] c.3[i]).0 == DataUpdateKind::Modify
                            && targets(c.3[i].1, c.3[i].2) && c.3[i].3 == (|v: Seq<char>, d: Date| kept)(c.3[i].1, c.3[i].2) by {
                            assert(i == a.3.len());
                        }
                    }
                }
            },
            ActionType::ApplyInform => {
                self.insert_informed_linked_disruption(vehicle_journey_id, date, base_model, *disruption_idx, *impact_idx);
            },
            ActionType::CancelImpact => {
                // an error (the base schedule lacks the trip) is left as it is
                let _result = self.restore_base_trip(base_model, data, vehicle_journey_id, date, disruption_idx, impact_idx);
            },
            ActionType::CancelInform => {
                self.cancel_informed_linked_disruption(vehicle_journey_id, date, base_model, *disruption_idx, *impact_idx);
            },
        }
    }

    /// Acts for the impact on the trips of the base vehicle journey `j` that may run during the
    /// periods and lose stop times at the stops.
    fn apply_on_stop_point_for_vehicle_journey<Data: DataUpdate>(
        &mut self,
        base_model: &BaseModel,
        data: &mut Data,
        j: usize,
        stops: &Vec<StopPointIdx>,
        application_periods: &TimePeriods,
        disruption_idx: &DisruptionIdx,
        impact_idx: &ImpactIdx,
        action_type: &ActionType,
    )
        requires
            old(self).wf(),
            base_model.wf(),
            j < base_model.vehicle_journeys@.len(),
            application_periods.wf(),
            application_periods.within_limit(),
        ensures
            final(self).wf(),
            final(self).disruptions@ == old(self).disruptions@,
            applied_on_stop_times(base_model, old(self).state(old(data).updates()), final(self).state(final(data).updates()),
                stop_vehicle_journey_targets(base_model, stops@, j as int, application_periods@),
                stop_points_kept(base_model, stops@, application_periods@), *disruption_idx, *impact_idx, *action_type),
    {
        let ghost a = self.state(data.updates());
        let ghost periods = application_periods@;
        let ghost f = stop_points_kept(base_model, stops@, periods);
        let ghost first = first_date_concerned(periods);
        let vehicle_journey_id = base_model.vehicle_journey_name(j);
        let base_stop_times = base_model.stop_times(j);
        proof {
            base_model.lemma_unique_vehicle_journey(j as int);
        }
        let mut contains_stop_point = false;
        let mut k: usize = 0;
        while k < base_stop_times.len()
            invariant
                k <= base_stop_times@.len(),
                !contains_stop_point ==> forall|m: int| 0 <= m < k ==> !stops@.contains(#[trigger] base_stop_times@[m].stop),
            decreases base_stop_times@.len() - k,
        {
            if contains_stop(stops, base_stop_times[k].stop) {
                contains_stop_point = true;
            }
            k = k + 1;
        }
        if !contains_stop_point {
            proof {
                assert forall|v: Seq<char>, d: Date| !#[trigger] stop_vehicle_journey_targets(base_model, stops@, j as int, periods)(v, d) by {
                    lemma_kept_all(base_model.vehicle_journeys@[j as int].timezone, base_stop_times@, stops@, d, periods);
                }
                lemma_applied_none(base_model, a, stop_vehicle_journey_targets(base_model, stops@, j as int, periods), f,
                    *disruption_idx, *impact_idx, *action_type);
            }
            return;
        }
        let dates = application_periods.dates_possibly_concerned();
        proof {
            lemma_applied_none(base_model, a, stop_dates_targets_before(base_model, stops@, j as int, periods, first),
                f, *disruption_idx, *impact_idx, *action_type);
        }
        let mut i: usize = 0;
        while i < dates.len()
            invariant
                i <= dates@.len(),
                self.wf(),
                base_model.wf(),
                j < base_model.vehicle_journeys@.len(),
                base_model.vehicle_journey_index(vehicle_journey_id@) == Some(j as int),
                vehicle_journey_id@ == base_model.vehicle_journeys@[j as int].id@,
                base_stop_times@ == base_model.vehicle_journeys@[j as int].stop_times@,
                self.disruptions@ == old(self).disruptions@,
                a == old(self).state(old(data).updates()),
                periods == application_periods@,
                f == stop_points_kept(base_model, stops@, periods),
                first == first_date_concerned(periods),
                forall|m: int| 0 <= m < dates@.len() ==> #[trigger] dates@[m] == first + m,
                dates@.len() == (if first <= last_date_concerned(periods) { last_date_concerned(periods) - first + 1 } else { 0 }),
                applied_on_stop_times(base_model, a, self.state(data.updates()), stop_dates_targets_before(base_model, stops@, j as int, periods, first + i),
                    f, *disruption_idx, *impact_idx, *action_type),
            decreases dates@.len() - i,
        {
            let date = dates[i];
            let ghost before = self.state(data.updates());
            let ghost t_before = stop_dates_targets_before(base_model, stops@, j as int, periods, first + i);
            let ghost t_after = stop_dates_targets_before(base_model, stops@, j as int, periods, first + i + 1);
            let concerned = match base_model.trip_time_period(j, &date) {
                Some(trip_period) => application_periods.intersects(&trip_period),
                None => false,
            };
            let mut dispatched = false;
            if concerned {
                let stop_times = keep_stop_times(base_model.timezone(j), base_stop_times, stops, &date, application_periods);
                if stop_times.len() != base_stop_times.len() {
                    proof {
                        assert(base_model.trip_exists_spec(j as int, date));
                    }
                    let ghost kept = stop_times@;
                    self.dispatch_for_stop_point(base_model, data, vehicle_journey_id, &date, stop_times,
                        disruption_idx, impact_idx, action_type);
                    dispatched = true;
                    proof {
                        let single = single_trip(vehicle_journey_id@, date);
                        lemma_applied_on_stop_times_with(base_model, before, self.state(data.updates()), single,
                            |v: Seq<char>, d: Date| kept, f, *disruption_idx, *impact_idx, *action_type);
                        assert forall|v: Seq<char>, d: Date| #[trigger] t_after(v, d) == (t_before(v, d) || single(v, d)) by {}
                        lemma_applied_on_stop_times_compose(base_model, a, before, self.state(data.updates()), t_before, single, t_after,
                            f, *disruption_idx, *impact_idx, *action_type);
                    }
                }
            }
            if !dispatched {
                proof {
                    lemma_applied_none(base_model, before, |v: Seq<char>, d: Date| false, f,
                        *disruption_idx, *impact_idx, *action_type);
                    assert forall|v: Seq<char>, d: Date| #[trigger] t_after(v, d) == (t_before(v, d) || false) by {}
                    lemma_applied_on_stop_times_compose(base_model, a, before, self.state(data.updates()), t_before, |v: Seq<char>, d: Date| false,
                        t_after, f, *disruption_idx, *impact_idx, *action_type);
                }
            }
            i = i + 1;
        }
        proof {
            let targets = stop_vehicle_journey_targets(base_model, stops@, j as int, periods);
            let t_end = stop_dates_targets_before(base_model, stops@, j as int, periods, first + i);
            assert forall|v: Seq<char>, d: Date| #[trigger] targets(v, d) == (t_end(v, d) || false) by {}
            lemma_applied_none(base_model, self.state(data.updates()), |v: Seq<char>, d: Date| false, f,
                *disruption_idx, *impact_idx, *action_type);
            lemma_applied_on_stop_times_compose(base_model, a, self.state(data.updates()), self.state(data.updates()), t_end,
                |v: Seq<char>, d: Date| false, targets, f, *disruption_idx, *impact_idx, *action_type);
        }
    }

    /// Acts for the impact on the trips of the base schedule that may run during the periods
    /// and lose stop times at the stop points with these identifiers: applying the impact
    /// takes those stop times out of the trips.
    fn apply_on_stop_point<Data: DataUpdate>(
        &mut self,
        base_model: &BaseModel,
        data: &mut Data,
        stop_point_id: &Vec<String>,
        application_periods: &TimePeriods,
        disruption_idx: &DisruptionIdx,
        impact_idx: &ImpactIdx,
        action_type: &ActionType,
    ) -> (result: Result<(), DisruptionError>)
        requires
            old(self).wf(),
            base_model.wf(),
            base_model.stop_points@.len() + old(self).new_stop_points@.len() <= usize::MAX,
            application_periods.wf(),
            application_periods.within_limit(),
        ensures
            final(self).wf(),
            final(self).disruptions@ == old(self).disruptions@,
            result is Ok,
            applied_on_stop_times(base_model, old(self).state(old(data).updates()), final(self).state(final(data).updates()),
                stop_points_targets(base_model, resolved_stop_points(base_model, old(self).new_stop_points@, stop_point_id@), application_periods@),
                stop_points_kept(base_model, resolved_stop_points(base_model, old(self).new_stop_points@, stop_point_id@), application_periods@),
                *disruption_idx, *impact_idx, *action_type),
    {
        let ghost a = self.state(data.updates());
        let ghost periods = application_periods@;
        let mut stops: Vec<StopPointIdx> = Vec::new();
        let mut i: usize = 0;
        while i < stop_point_id.len()
            invariant
                i <= stop_point_id@.len(),
                base_model.stop_points@.len() + self.new_stop_points@.len() <= usize::MAX,
                self.new_stop_points@ == a.2,
                stops@ == resolved_stop_points(base_model, a.2, stop_point_id@.subrange(0, i as int)),
            decreases stop_point_id@.len() - i,
        {
            proof {
                let prefix = stop_point_id@.subrange(0, i + 1);
                assert(prefix.drop_last() =~= stop_point_id@.subrange(0, i as int));
                assert(prefix.last() == stop_point_id@[i as int]);
            }
            match self.stop_point_idx(&stop_point_id[i], base_model) {
                Some(stop) => {
                    stops.push(stop);
                },
                None => {},
            }
            i = i + 1;
        }
        proof {
            assert(stop_point_id@.subrange(0, i as int) =~= stop_point_id@);
        }
        let ghost f = stop_points_kept(base_model, stops@, periods);
        proof {
            lemma_applied_none(base_model, a, stop_points_targets_before(base_model, stops@, periods, 0), f,
                *disruption_idx, *impact_idx, *action_type);
        }
        let n = base_model.nb_of_vehicle_journeys();
        let mut j: usize = 0;
        while j < n
            invariant
                j <= n,
                n == base_model.vehicle_journeys@.len(),
                self.wf(),
                base_model.wf(),
                application_periods.wf(),
                application_periods.within_limit(),
                periods == application_periods@,
                f == stop_points_kept(base_model, stops@, periods),
                self.disruptions@ == old(self).disruptions@,
                a == old(self).state(old(data).updates()),
                applied_on_stop_times(base_model, a, self.state(data.updates()), stop_points_targets_before(base_model, stops@, periods, j as int),
                    f, *disruption_idx, *impact_idx, *action_type),
            decreases n - j,
        {
            let ghost before = self.state(data.updates());
            let ghost t_before = stop_points_targets_before(base_model, stops@, periods, j as int);
            let ghost t_after = stop_points_targets_before(base_model, stops@, periods, j + 1);
            let ghost t_j = stop_vehicle_journey_targets(base_model, stops@, j as int, periods);
            self.apply_on_stop_point_for_vehicle_journey(base_model, data, j, &stops, application_periods,
                disruption_idx, impact_idx, action_type);
            proof {
                assert forall|v: Seq<char>, d: Date| #[trigger] t_after(v, d) == (t_before(v, d) || t_j(v, d)) by {
                    if t_after(v, d) {
                        let w = choose|w: int| 0 <= w < j + 1 && w < base_model.vehicle_journeys@.len()
                            && #[trigger] base_model.vehicle_journeys@[w].id@ == v
                            && trip_concerned(base_model, w, d, periods)
                            && kept_stop_times(base_model.vehicle_journeys@[w].timezone, base_model.vehicle_journeys@[w].stop_times@, stops@, d, periods).len()
                                != base_model.vehicle_journeys@[w].stop_times@.len();
                        if w < j {
                            assert(t_before(v, d));
                        }
                    }
                    if t_before(v, d) {
                        let w = choose|w: int| 0 <= w < j && w < base_model.vehicle_journeys@.len()
                            && #[trigger] base_model.vehicle_journeys@[w].id@ == v
                            && trip_concerned(base_model, w, d, periods)
                            && kept_stop_times(base_model.vehicle_journeys@[w].timezone, base_model.vehicle_journeys@[w].stop_times@, stops@, d, periods).len()
                                != base_model.vehicle_journeys@[w].stop_times@.len();
                        assert(base_model.vehicle_journeys@[w].id@ == v);
                    }
                    if t_j(v, d) {
                        assert(base_model.vehicle_journeys@[j as int].id@ == v);
                    }
                }
                lemma_applied_on_stop_times_compose(base_model, a, before, self.state(data.updates()), t_before, t_j, t_after,
                    f, *disruption_idx, *impact_idx, *action_type);
            }
            j = j + 1;
        }
        Ok(())
    }

    /// Acts for the impact as on the stop points of the stop area; fails when the base schedule
    /// has no such stop area.
    fn apply_on_stop_area<Data: DataUpdate>(
        &mut self,
        base_model: &BaseModel,
        data: &mut Data,
        stop_area_id: &String,
        application_periods: &TimePeriods,
        disruption_idx: &DisruptionIdx,
        impact_idx: &ImpactIdx,
        action_type: &ActionType,
    ) -> (result: Result<(), DisruptionError>)
        requires
            old(self).wf(),
            base_model.wf(),
            base_model.stop_points@.len() + old(self).new_stop_points@.len() <= usize::MAX,
            application_periods.wf(),
            application_periods.within_limit(),
        ensures
            final(self).wf(),
            final(self).disruptions@ == old(self).disruptions@,
            result is Ok <==> has_id(base_model.stop_areas@, stop_area_id@),
            result matches Err(e) ==> (e matches DisruptionError::StopAreaAbsent(id) && id.id@ == stop_area_id@),
            result is Err ==> final(self).state(final(data).updates()) == old(self).state(old(data).updates()),
            result is Ok ==> applied_on_stop_times(base_model, old(self).state(old(data).updates()), final(self).state(final(data).updates()),
                stop_points_targets(base_model, resolved_stop_points(base_model, old(self).new_stop_points@,
                    stop_area_point_ids(base_model, stop_area_id@, base_model.stop_points@.len() as int)), application_periods@),
                stop_points_kept(base_model, resolved_stop_points(base_model, old(self).new_stop_points@,
                    stop_area_point_ids(base_model, stop_area_id@, base_model.stop_points@.len() as int)), application_periods@),
                *disruption_idx, *impact_idx, *action_type),
    {
        if !base_model.contains_stop_area_id(stop_area_id) {
            return Err(DisruptionError::StopAreaAbsent(StopAreaId { id: stop_area_id.clone() }));
        }
        let mut concerned_stop_point: Vec<String> = Vec::new();
        let n = base_model.nb_of_stop_points();
        let mut s: usize = 0;
        while s < n
            invariant
                s <= n,
                n == base_model.stop_points@.len(),
                concerned_stop_point@ == stop_area_point_ids(base_model, stop_area_id@, s as int),
            decreases n - s,
        {
            let stop_area_of_stop_point = base_model.stop_area_name(s);
            if stop_area_id.eq(stop_area_of_stop_point) {
                concerned_stop_point.push(base_model.stop_points[s].id.clone());
            }
            s = s + 1;
        }
        let _result = self.apply_on_stop_point(base_model, data, &concerned_stop_point, application_periods,
            disruption_idx, impact_idx, action_type);
        Ok(())
    }
}

impl RealTimeModel {
    /// Gives a trip that the base schedule lacks the stop times of the disruption: modifies it
    /// if it runs already, adds it else; refused when the base schedule has the trip.
    fn update_new_trip<Data: DataUpdate>(
        &mut self,
        base_model: &BaseModel,
        data: &mut Data,
        trip_disruption: &TripDisruption,
        disruption_idx: &DisruptionIdx,
        impact_idx: &ImpactIdx,
    ) -> (result: Result<(), DisruptionError>)
        requires
            old(self).wf(),
            base_model.stop_points@.len() + old(self).new_stop_points@.len() + trip_disruption.stop_times@.len() <= usize::MAX,
        ensures
            final(self).wf(),
            final(self).disruptions@ == old(self).disruptions@,
            new_trip_updated(base_model, old(self).state(old(data).updates()), final(self).state(final(data).updates()), *trip_disruption, *disruption_idx, *impact_idx),
            result is Err <==> base_model.trip_exists_by_id(trip_disruption.trip_id.id@, trip_disruption.trip_date),
            result matches Err(e) ==> (e matches DisruptionError::NewTripWithBaseId(id, d)
                && id.id@ == trip_disruption.trip_id.id@ && d == trip_disruption.trip_date),
    {
        let ghost a = self.state(data.updates());
        let vehicle_journey_id = &trip_disruption.trip_id.id;
        let date = trip_disruption.trip_date;
        let trip_exists_in_base = match base_model.vehicle_journey_idx(vehicle_journey_id) {
            None => false,
            Some(j) => base_model.trip_exists(j, date),
        };
        if trip_exists_in_base {
            return Err(DisruptionError::NewTripWithBaseId(VehicleJourneyId { id: vehicle_journey_id.clone() }, date));
        }
        let stop_times = self.make_stop_times(&trip_disruption.stop_times, base_model);
        let ghost made = stop_times@;
        let ghost m = self.state(data.updates());
        let result = if self.is_present(vehicle_journey_id, &date, base_model) {
            self.modify_trip(base_model, data, vehicle_journey_id, &date, stop_times, disruption_idx, impact_idx)
        } else {
            self.add_trip(base_model, data, vehicle_journey_id, &date, stop_times)
        };
        proof {
            let targets = single_trip(vehicle_journey_id@, date);
            if present_in(base_model, a.0, vehicle_journey_id@, date) {
                assert forall|v: Seq<char>, d: Date|
                    if targets(v, d) && present_in(base_model, a.0, v, d) {
                        status_modified_with(#[trigger] status_in(self.trips@, v, d), made)
                    } else {
                        status_in(self.trips@, v, d) == status_in(a.0, v, d)
                    } by {
                    assert(status_in(self.trips@, v, d) == status_in(self.trips@, v, d));
                }
                assert(links_added_where_accepted(a, self.state(data.updates()), DataUpdateKind::Modify, *disruption_idx, *impact_idx)) by {
                    assert(links_added_where_accepted(m, self.state(data.updates()), DataUpdateKind::Modify, *disruption_idx, *impact_idx));
                }
            }
        }
        result
    }

    /// Gives a trip of the base schedule the stop times of the disruption: modifies it if it
    /// runs, adds it back else; fails when the base schedule lacks the trip.
    fn update_base_trip<Data: DataUpdate>(
        &mut self,
        base_model: &BaseModel,
        data: &mut Data,
        trip_disruption: &TripDisruption,
        disruption_idx: &DisruptionIdx,
        impact_idx: &ImpactIdx,
    ) -> (result: Result<(), DisruptionError>)
        requires
            old(self).wf(),
            base_model.stop_points@.len() + old(self).new_stop_points@.len() + trip_disruption.stop_times@.len() <= usize::MAX,
        ensures
            final(self).wf(),
            final(self).disruptions@ == old(self).disruptions@,
            base_trip_updated(base_model, old(self).state(old(data).updates()), final(self).state(final(data).updates()), *trip_disruption, *disruption_idx, *impact_idx),
            result is Err <==> !base_model.trip_exists_by_id(trip_disruption.trip_id.id@, trip_disruption.trip_date),
            result matches Err(e) ==> (if base_model.vehicle_journey_index(trip_disruption.trip_id.id@) is Some {
                e matches DisruptionError::ModifyAbsentTrip(id, d) && id.id@ == trip_disruption.trip_id.id@
                    && d == trip_disruption.trip_date
            } else {
                e matches DisruptionError::VehicleJourneyAbsent(id) && id.id@ == trip_disruption.trip_id.id@
            }),
    {
        let ghost a = self.state(data.updates());
        let vehicle_journey_id = &trip_disruption.trip_id.id;
        let stop_times = self.make_stop_times(&trip_disruption.stop_times, base_model);
        let ghost made = stop_times@;
        let ghost m = self.state(data.updates());
        match base_model.vehicle_journey_idx(vehicle_journey_id) {
            Some(base_vj_idx) => {
                let date = trip_disruption.trip_date;
                if !base_model.trip_exists(base_vj_idx, date) {
                    return Err(DisruptionError::ModifyAbsentTrip(VehicleJourneyId { id: vehicle_journey_id.clone() }, date));
                }
                let result = if self.is_present(vehicle_journey_id, &date, base_model) {
                    self.modify_trip(base_model, data, vehicle_journey_id, &date, stop_times, disruption_idx, impact_idx)
                } else {
                    self.add_trip(base_model, data, vehicle_journey_id, &date, stop_times)
                };
                proof {
                    let targets = single_trip(vehicle_journey_id@, date);
                    if present_in(base_model, a.0, vehicle_journey_id@, date) {
                        assert forall|v: Seq<char>, d: Date|
                            if targets(v, d) && present_in(base_model, a.0, v, d) {
                                status_modified_with(#[trigger] status_in(self.trips@, v, d), made)
                            } else {
                                status_in(self.trips@, v, d) == status_in(a.0, v, d)
                            } by {
                            assert(status_in(self.trips@, v, d) == status_in(self.trips@, v, d));
                        }
                        assert(links_added_where_accepted(a, self.state(data.updates()), DataUpdateKind::Modify, *disruption_idx, *impact_idx)) by {
                            assert(links_added_where_accepted(m, self.state(data.updates()), DataUpdateKind::Modify, *disruption_idx, *impact_idx));
                        }
                    }
                }
                result
            },
            None => Err(DisruptionError::VehicleJourneyAbsent(VehicleJourneyId { id: vehicle_journey_id.clone() })),
        }
    }
}

impl RealTimeModel {
    /// Applies the impact, or cancels it: during its application periods within the period of
    /// the base schedule, acts on each impacted object, then on each informed object.
    fn act_on_impact<Data: DataUpdate>(
        &mut self,
        impact: &Impact,
        base_model: &BaseModel,
        data: &mut Data,
        disruption_idx: &DisruptionIdx,
        impact_idx: &ImpactIdx,
        cancel: bool,
    )
        requires
            old(self).wf(),
            base_model.wf(),
            supported_where_applied(base_model, *impact),
            base_model.stop_points@.len() + old(self).new_stop_points@.len()
                + updated_stop_times_count(impact.impacted_pt_objects@) <= usize::MAX,
        ensures
            final(self).wf(),
            final(self).disruptions@ == old(self).disruptions@,
            impact_applied(base_model, old(self).state(old(data).updates()), final(self).state(final(data).updates()), *impact, *disruption_idx, *impact_idx, cancel),
            final(self).new_stop_points@.len() <= old(self).new_stop_points@.len()
                + updated_stop_times_count(impact.impacted_pt_objects@),
    {
        let ghost a = self.state(data.updates());
        let model_period = base_model.time_period();
        let mut application_periods: Vec<TimePeriod> = Vec::new();
        let mut i: usize = 0;
        while i < impact.application_periods.len()
            invariant
                i <= impact.application_periods@.len(),
                model_period == base_model.time_period,
                base_model.wf(),
                application_periods@ == periods_within(impact.application_periods@.subrange(0, i as int), model_period),
                forall|k: int| 0 <= k < application_periods@.len() ==> within_limit((#[trigger] application_periods@[k]).start as int)
                    && within_limit(application_periods@[k].end as int),
            decreases impact.application_periods@.len() - i,
        {
            proof {
                let prefix = impact.application_periods@.subrange(0, i + 1);
                assert(prefix.drop_last() =~= impact.application_periods@.subrange(0, i as int));
                assert(prefix.last() == impact.application_periods@[i as int]);
            }
            match intersection(&impact.application_periods[i], &model_period) {
                Some(period) => {
                    application_periods.push(period);
                },
                None => {},
            }
            i = i + 1;
        }
        proof {
            assert(impact.application_periods@.subrange(0, i as int) =~= impact.application_periods@);
        }
        if application_periods.len() == 0 {
            proof {
                lemma_updated_stop_times_count_prefix(impact.impacted_pt_objects@, 0);
            }
            return;
        }
        let ghost within = application_periods@;
        let periods = TimePeriods { periods: application_periods };
        let ghost pv = periods@;
        let impact_action = if cancel { ActionType::CancelImpact } else { ActionType::ApplyImpact };
        let inform_action = if cancel { ActionType::CancelInform } else { ActionType::ApplyInform };
        let objects = &impact.impacted_pt_objects;
        let ghost mut impacted_states: Seq<ModelState> = seq![a];
        proof {
            assert(objects@.subrange(0, 0) =~= Seq::<Impacted>::empty());
        }
        let mut k: usize = 0;
        while k < objects.len()
            invariant
                k <= objects@.len(),
                objects@ == impact.impacted_pt_objects@,
                self.wf(),
                base_model.wf(),
                periods.wf(),
                periods.within_limit(),
                pv == periods@,
                pv == within,
                within == periods_within(impact.application_periods@, base_model.time_period),
                supported_impact(*impact),
                self.disruptions@ == old(self).disruptions@,
                a == old(self).state(old(data).updates()),
                impacted_states.len() > 0,
                impacted_states[0] == a,
                impacted_states.last() == self.state(data.updates()),
                impacted_chain(base_model, impacted_states, objects@.subrange(0, k as int), pv, *disruption_idx, *impact_idx, impact_action),
                self.new_stop_points@.len() <= a.2.len() + updated_stop_times_count(objects@.subrange(0, k as int)),
                base_model.stop_points@.len() + a.2.len() + updated_stop_times_count(objects@) <= usize::MAX,
            decreases objects@.len() - k,
        {
            let ghost before = self.state(data.updates());
            let ghost object = objects@[k as int];
            proof {
                let prefix = objects@.subrange(0, k + 1);
                assert(prefix.drop_last() =~= objects@.subrange(0, k as int));
                assert(prefix.last() == object);
                lemma_updated_stop_times_count_prefix(objects@, k + 1);
                assert(!(impact.impacted_pt_objects@[k as int] is RailSection));
            }
            match &objects[k] {
                Impacted::NetworkDeleted(network) => {
                    let _result = self.apply_on_network(base_model, data, &network.id, &periods, disruption_idx, impact_idx, &impact_action);
                },
                Impacted::LineDeleted(line) => {
                    let _result = self.apply_on_line(base_model, data, &line.id, &periods, disruption_idx, impact_idx, &impact_action);
                },
                Impacted::RouteDeleted(route) => {
                    let _result = self.apply_on_route(base_model, data, &route.id, &periods, disruption_idx, impact_idx, &impact_action);
                },
                Impacted::BaseTripDeleted(trip) => {
                    let _result = self.apply_on_base_vehicle_journey(base_model, data, &trip.id, &periods, disruption_idx,
                        impact_idx, &impact_action);
                },
                Impacted::StopAreaDeleted(stop_area) => {
                    let _result = self.apply_on_stop_area(base_model, data, &stop_area.id, &periods, disruption_idx,
                        impact_idx, &impact_action);
                },
                Impacted::StopPointDeleted(stop_point) => {
                    let mut ids: Vec<String> = Vec::new();
                    ids.push(stop_point.id.clone());
                    proof {
                        assert(ids@ =~= seq![stop_point.id]);
                    }
                    let _result = self.apply_on_stop_point(base_model, data, &ids, &periods, disruption_idx, impact_idx, &impact_action);
                },
                Impacted::RailSection(_) => {},
                Impacted::LineSection(_) => {},
                Impacted::TripDeleted(trip, date) => {
                    let _result = self.delete_trip(base_model, data, &trip.id, date, disruption_idx, impact_idx);
                },
                Impacted::BaseTripUpdated(trip_disruption) => {
                    let _result = self.update_base_trip(base_model, data, trip_disruption, disruption_idx, impact_idx);
                    proof {
                        lemma_made_stop_times_len(base_model, before.2, trip_disruption.stop_times@);
                    }
                },
                Impacted::NewTripUpdated(trip_disruption) => {
                    let _result = self.update_new_trip(base_model, data, trip_disruption, disruption_idx, impact_idx);
                    proof {
                        lemma_made_stop_times_len(base_model, before.2, trip_disruption.stop_times@);
                    }
                },
            }
            proof {
                assert(impacted_effect(base_model, before, self.state(data.updates()), object, pv, *disruption_idx, *impact_idx, impact_action));
                let states = impacted_states.push(self.state(data.updates()));
                let prefix = objects@.subrange(0, k + 1);
                assert forall|m: int| 0 <= m < prefix.len() implies #[trigger] impacted_effect(base_model, states[m], states[m + 1],
                    prefix[m], pv, *disruption_idx, *impact_idx, impact_action) by {
                    if m < k {
                        assert(states[m] == impacted_states[m] && states[m + 1] == impacted_states[m + 1]);
                        assert(prefix[m] == objects@.subrange(0, k as int)[m]);
                    }
                }
                impacted_states = states;
            }
            k = k + 1;
        }
        proof {
            assert(objects@.subrange(0, k as int) =~= impact.impacted_pt_objects@);
        }
        let ghost middle = self.state(data.updates());
        let informed = &impact.informed_pt_objects;
        let ghost mut informed_states: Seq<ModelState> = seq![middle];
        proof {
            assert(informed@.subrange(0, 0) =~= Seq::<Informed>::empty());
        }
        let mut k: usize = 0;
        while k < informed.len()
            invariant
                k <= informed@.len(),
                informed@ == impact.informed_pt_objects@,
                self.wf(),
                base_model.wf(),
                periods.wf(),
                periods.within_limit(),
                pv == periods@,
                pv == within,
                within == periods_within(impact.application_periods@, base_model.time_period),
                supported_impact(*impact),
                self.disruptions@ == old(self).disruptions@,
                impacted_states.len() > 0,
                impacted_states[0] == old(self).state(old(data).updates()),
                impacted_states.last() == middle,
                impacted_chain(base_model, impacted_states, impact.impacted_pt_objects@, pv, *disruption_idx, *impact_idx, impact_action),
                informed_states.len() > 0,
                informed_states[0] == middle,
                informed_states.last() == self.state(data.updates()),
                self.new_stop_points@ == middle.2,
                informed_chain(base_model, informed_states, informed@.subrange(0, k as int), pv, *disruption_idx, *impact_idx, inform_action),
                base_model.stop_points@.len() + middle.2.len() <= usize::MAX,
            decreases informed@.len() - k,
        {
            let ghost before = self.state(data.updates());
            let ghost object = informed@[k as int];
            proof {
                let prefix = informed@.subrange(0, k + 1);
                assert(prefix.drop_last() =~= informed@.subrange(0, k as int));
                assert(prefix.last() == object);
                assert(!(impact.informed_pt_objects@[k as int] is Unknown));
            }
            match &informed[k] {
                Informed::Network(network) => {
                    let _result = self.apply_on_network(base_model, data, &network.id, &periods, disruption_idx, impact_idx, &inform_action);
                },
                Informed::Route(route) => {
                    let _result = self.apply_on_route(base_model, data, &route.id, &periods, disruption_idx, impact_idx, &inform_action);
                },
                Informed::Line(line) => {
                    let _result = self.apply_on_line(base_model, data, &line.id, &periods, disruption_idx, impact_idx, &inform_action);
                },
                Informed::Trip(trip) => {
                    let _result = self.apply_on_base_vehicle_journey(base_model, data, &trip.id, &periods, disruption_idx,
                        impact_idx, &inform_action);
                },
                Informed::StopArea(stop_area) => {
                    let _result = self.apply_on_stop_area(base_model, data, &stop_area.id, &periods, disruption_idx,
                        impact_idx, &inform_action);
                },
                Informed::StopPoint(stop_point) => {
                    let mut ids: Vec<String> = Vec::new();
                    ids.push(stop_point.id.clone());
                    proof {
                        assert(ids@ =~= seq![stop_point.id]);
                    }
                    let _result = self.apply_on_stop_point(base_model, data, &ids, &periods, disruption_idx, impact_idx, &inform_action);
                },
                Informed::Unknown => {},
            }
            proof {
                assert(informed_effect(base_model, before, self.state(data.updates()), object, pv, *disruption_idx, *impact_idx, inform_action));
                let states = informed_states.push(self.state(data.updates()));
                let prefix = informed@.subrange(0, k + 1);
                assert forall|m: int| 0 <= m < prefix.len() implies #[trigger] informed_effect(base_model, states[m], states[m + 1],
                    prefix[m], pv, *disruption_idx, *impact_idx, inform_action) by {
                    if m < k {
                        assert(states[m] == informed_states[m] && states[m + 1] == informed_states[m + 1]);
                        assert(prefix[m] == informed@.subrange(0, k as int)[m]);
                    }
                }
                informed_states = states;
            }
            k = k + 1;
        }
        proof {
            assert(informed@.subrange(0, k as int) =~= impact.informed_pt_objects@);
            assert(impacted_chain(base_model, impacted_states, impact.impacted_pt_objects@, pv, *disruption_idx, *impact_idx, impact_action));
            assert(informed_chain(base_model, informed_states, impact.informed_pt_objects@, pv, *disruption_idx, *impact_idx, inform_action));
            assert(pv == periods_within(impact.application_periods@, base_model.time_period));
            assert(impacted_states[0] == old(self).state(old(data).updates()));
            assert(informed_states[0] == impacted_states.last());
            assert(informed_states.last() == self.state(data.updates()));
        }
    }

    /// Applies the impact: during its application periods within the period of the base
    /// schedule, deletes (or cuts) the trips of its impacted objects and links the trips of its
    /// informed objects to it.
    fn apply_impact<Data: DataUpdate>(
        &mut self,
        impact: &Impact,
        base_model: &BaseModel,
        data: &mut Data,
        disruption_idx: &DisruptionIdx,
        impact_idx: &ImpactIdx,
    )
        requires
            old(self).wf(),
            base_model.wf(),
            supported_where_applied(base_model, *impact),
            base_model.stop_points@.len() + old(self).new_stop_points@.len()
                + updated_stop_times_count(impact.impacted_pt_objects@) <= usize::MAX,
        ensures
            final(self).wf(),
            final(self).disruptions@ == old(self).disruptions@,
            impact_applied(base_model, old(self).state(old(data).updates()), final(self).state(final(data).updates()), *impact, *disruption_idx, *impact_idx, false),
            final(self).new_stop_points@.len() <= old(self).new_stop_points@.len()
                + updated_stop_times_count(impact.impacted_pt_objects@),
    {
        self.act_on_impact(impact, base_model, data, disruption_idx, impact_idx, false);
    }

    /// Cancels the impact: during its application periods within the period of the base
    /// schedule, makes the trips of its impacted objects follow the base schedule again and
    /// unlinks the trips of its informed objects from it.
    fn cancel_impact<Data: DataUpdate>(
        &mut self,
        impact: &Impact,
        base_model: &BaseModel,
        data: &mut Data,
        disruption_idx: &DisruptionIdx,
        impact_idx: &ImpactIdx,
    )
        requires
            old(self).wf(),
            base_model.wf(),
            supported_where_applied(base_model, *impact),
            base_model.stop_points@.len() + old(self).new_stop_points@.len()
                + updated_stop_times_count(impact.impacted_pt_objects@) <= usize::MAX,
        ensures
            final(self).wf(),
            final(self).disruptions@ == old(self).disruptions@,
            impact_applied(base_model, old(self).state(old(data).updates()), final(self).state(final(data).updates()), *impact, *disruption_idx, *impact_idx, true),
            final(self).new_stop_points@.len() <= old(self).new_stop_points@.len()
                + updated_stop_times_count(impact.impacted_pt_objects@),
    {
        self.act_on_impact(impact, base_model, data, disruption_idx, impact_idx, true);
    }
}

impl RealTimeModel {
    /// Applies each impact of the disruption in turn, then stores the disruption.
    pub fn store_and_apply_disruption<Data: DataUpdate>(
        &mut self,
        disruption: Disruption,
        base_model: &BaseModel,
        data: &mut Data,
    )
        requires
            old(self).wf(),
            base_model.wf(),
            forall|k: int| 0 <= k < disruption.impacts@.len() ==> supported_where_applied(base_model, #[trigger] disruption.impacts@[k]),
            base_model.stop_points@.len() + old(self).new_stop_points@.len()
                + impacts_stop_times_count(disruption.impacts@) <= usize::MAX,
        ensures
            final(self).wf(),
            final(self).disruptions@ == old(self).disruptions@.push(disruption),
            disruption_applied(base_model, old(self).state(old(data).updates()), final(self).state(final(data).updates()), disruption.impacts@,
                DisruptionIdx { idx: old(self).disruptions@.len() as usize }, false),
    {
        let disruption_idx = DisruptionIdx { idx: self.disruptions.len() };
        let ghost a = self.state(data.updates());
        let ghost mut states: Seq<ModelState> = seq![a];
        proof {
            assert(disruption.impacts@.subrange(0, 0) =~= Seq::<Impact>::empty());
        }
        let mut k: usize = 0;
        while k < disruption.impacts.len()
            invariant
                k <= disruption.impacts@.len(),
                self.wf(),
                base_model.wf(),
                forall|m: int| 0 <= m < disruption.impacts@.len() ==> supported_where_applied(base_model, #[trigger] disruption.impacts@[m]),
                self.disruptions@ == old(self).disruptions@,
                disruption_idx.idx == old(self).disruptions@.len(),
                a == old(self).state(old(data).updates()),
                states.len() > 0,
                states[0] == a,
                states.last() == self.state(data.updates()),
                impacts_chain(base_model, states, disruption.impacts@.subrange(0, k as int), disruption_idx, false),
                self.new_stop_points@.len() <= a.2.len() + impacts_stop_times_count(disruption.impacts@.subrange(0, k as int)),
                base_model.stop_points@.len() + a.2.len() + impacts_stop_times_count(disruption.impacts@) <= usize::MAX,
            decreases disruption.impacts@.len() - k,
        {
            let ghost before = self.state(data.updates());
            proof {
                let prefix = disruption.impacts@.subrange(0, k + 1);
                assert(prefix.drop_last() =~= disruption.impacts@.subrange(0, k as int));
                assert(prefix.last() == disruption.impacts@[k as int]);
                lemma_impacts_stop_times_count_prefix(disruption.impacts@, k + 1);
                lemma_updated_stop_times_count_prefix(disruption.impacts@[k as int].impacted_pt_objects@, 0);
            }
            let impact_idx = ImpactIdx { idx: k };
            self.apply_impact(&disruption.impacts[k], base_model, data, &disruption_idx, &impact_idx);
            proof {
                let next = states.push(self.state(data.updates()));
                let prefix = disruption.impacts@.subrange(0, k + 1);
                assert forall|m: int| 0 <= m < prefix.len() implies #[trigger] impact_applied(base_model, next[m], next[m + 1],
                    prefix[m], disruption_idx, ImpactIdx { idx: m as usize }, false) by {
                    if m < k {
                        assert(next[m] == states[m] && next[m + 1] == states[m + 1]);
                        assert(prefix[m] == disruption.impacts@.subrange(0, k as int)[m]);
                    }
                }
                states = next;
            }
            k = k + 1;
        }
        self.disruptions.push(disruption);
        proof {
            assert(disruption.impacts@.subrange(0, k as int) =~= disruption.impacts@);
            assert(impacts_chain(base_model, states, disruption.impacts@, disruption_idx, false));
        }
    }

    /// The position of the first stored disruption with this identifier.
    fn disruption_position(&self, disruption_id: &String) -> (result: Option<usize>)
        ensures
            result matches Some(i) ==> is_first_disruption_with_id(self.disruptions@, i as int, disruption_id@),
            result is None ==> disruption_index(self.disruptions@, disruption_id@) is None,
    {
        let mut i: usize = 0;
        while i < self.disruptions.len()
            invariant
                i <= self.disruptions@.len(),
                forall|k: int| 0 <= k < i ==> (#[trigger] self.disruptions@[k]).id@ != disruption_id@,
            decreases self.disruptions@.len() - i,
        {
            if self.disruptions[i].id.eq(disruption_id) {
                return Some(i);
            }
            i = i + 1;
        }
        None
    }

    /// Cancels each impact of the first stored disruption with this identifier, in turn; changes
    /// nothing when no stored disruption has it.
    pub fn cancel_disruption_by_id<Data: DataUpdate>(
        &mut self,
        disruption_id: &String,
        base_model: &BaseModel,
        data: &mut Data,
    )
        requires
            old(self).wf(),
            base_model.wf(),
            match disruption_index(old(self).disruptions@, disruption_id@) {
                Some(i) => {
                    &&& forall|k: int| 0 <= k < old(self).disruptions@[i].impacts@.len()
                        ==> supported_where_applied(base_model, #[trigger] old(self).disruptions@[i].impacts@[k])
                    &&& base_model.stop_points@.len() + old(self).new_stop_points@.len()
                        + impacts_stop_times_count(old(self).disruptions@[i].impacts@) <= usize::MAX
                },
                None => true,
            },
        ensures
            final(self).wf(),
            final(self).disruptions@ == old(self).disruptions@,
            match disruption_index(old(self).disruptions@, disruption_id@) {
                Some(i) => disruption_applied(base_model, old(self).state(old(data).updates()), final(self).state(final(data).updates()),
                    old(self).disruptions@[i].impacts@, DisruptionIdx { idx: i as usize }, true),
                None => final(self).state(final(data).updates()) == old(self).state(old(data).updates()),
            },
    {
        let ghost a = self.state(data.updates());
        let idx = match self.disruption_position(disruption_id) {
            Some(idx) => idx,
            None => {
                return;
            },
        };
        proof {
            let disruptions = self.disruptions@;
            assert(is_first_disruption_with_id(disruptions, idx as int, disruption_id@));
            let c = choose|c: int| is_first_disruption_with_id(disruptions, c, disruption_id@);
            if c < idx {
                assert(disruptions[c].id@ != disruption_id@);
            } else if idx < c {
                assert(disruptions[idx as int].id@ != disruption_id@);
            }
        }
        let mut disruptions: Vec<Disruption> = Vec::new();
        std::mem::swap(&mut disruptions, &mut self.disruptions);
        let ghost impacts = disruptions@[idx as int].impacts@;
        let disruption_idx = DisruptionIdx { idx };
        let ghost mut states: Seq<ModelState> = seq![a];
        proof {
            assert(impacts.subrange(0, 0) =~= Seq::<Impact>::empty());
        }
        let mut k: usize = 0;
        while k < disruptions[idx].impacts.len()
            invariant
                idx < disruptions@.len(),
                disruptions@ == old(self).disruptions@,
                impacts == disruptions@[idx as int].impacts@,
                k <= impacts.len(),
                self.wf(),
                base_model.wf(),
                forall|m: int| 0 <= m < impacts.len() ==> supported_where_applied(base_model, #[trigger] impacts[m]),
                disruption_idx.idx == idx,
                a == old(self).state(old(data).updates()),
                states.len() > 0,
                states[0] == a,
                states.last() == self.state(data.updates()),
                impacts_chain(base_model, states, impacts.subrange(0, k as int), disruption_idx, true),
                self.new_stop_points@.len() <= a.2.len() + impacts_stop_times_count(impacts.subrange(0, k as int)),
                base_model.stop_points@.len() + a.2.len() + impacts_stop_times_count(impacts) <= usize::MAX,
            decreases impacts.len() - k,
        {
            proof {
                let prefix = impacts.subrange(0, k + 1);
                assert(prefix.drop_last() =~= impacts.subrange(0, k as int));
                assert(prefix.last() == impacts[k as int]);
                lemma_impacts_stop_times_count_prefix(impacts, k + 1);
                lemma_updated_stop_times_count_prefix(impacts[k as int].impacted_pt_objects@, 0);
            }
            let impact_idx = ImpactIdx { idx: k };
            self.cancel_impact(&disruptions[idx].impacts[k], base_model, data, &disruption_idx, &impact_idx);
            proof {
                let next = states.push(self.state(data.updates()));
                let prefix = impacts.subrange(0, k + 1);
                assert forall|m: int| 0 <= m < prefix.len() implies #[trigger] impact_applied(base_model, next[m], next[m + 1],
                    prefix[m], disruption_idx, ImpactIdx { idx: m as usize }, true) by {
                    if m < k {
                        assert(next[m] == states[m] && next[m + 1] == states[m + 1]);
                        assert(prefix[m] == impacts.subrange(0, k as int)[m]);
                    }
                }
                states = next;
            }
            k = k + 1;
        }
        std::mem::swap(&mut disruptions, &mut self.disruptions);
        proof {
            assert(impacts.subrange(0, k as int) =~= impacts);
            assert(impacts_chain(base_model, states, impacts, disruption_idx, true));
        }
    }
}

/// The impacted object acts on trips of the base schedule: those of a network, a line, a route,
/// a vehicle journey, a stop area or a stop point (and not on one trip given by the disruption).
pub open spec fn acts_on_base_trips(object: Impacted) -> bool {
    ||| object is NetworkDeleted
    ||| object is LineDeleted
    ||| object is RouteDeleted
    ||| object is BaseTripDeleted
    ||| object is StopAreaDeleted
    ||| object is StopPointDeleted
}

/// The trips that an object acting on trips of the base schedule concerns during the periods,
/// the model having the new stop points `points`.
pub open spec fn object_targets(base: &BaseModel, points: Seq<String>, object: Impacted, periods: Seq<TimePeriod>) -> TripSet {
    match object {
        Impacted::NetworkDeleted(network) => if has_id(base.networks@, network.id@) {
            selected_targets(base, Selection::Network(network.id), periods)
        } else {
            |v: Seq<char>, d: Date| false
        },
        Impacted::LineDeleted(line) => if has_id(base.lines@, line.id@) {
            selected_targets(base, Selection::Line(line.id), periods)
        } else {
            |v: Seq<char>, d: Date| false
        },
        Impacted::RouteDeleted(route) => if has_id(base.routes@, route.id@) {
            selected_targets(base, Selection::Route(route.id), periods)
        } else {
            |v: Seq<char>, d: Date| false
        },
        Impacted::BaseTripDeleted(trip) => if base.vehicle_journey_index(trip.id@) is Some {
            vehicle_journey_targets(base, trip.id@, periods)
        } else {
            |v: Seq<char>, d: Date| false
        },
        Impacted::StopAreaDeleted(stop_area) => if has_id(base.stop_areas@, stop_area.id@) {
            stop_points_targets(base, resolved_stop_points(base, points,
                stop_area_point_ids(base, stop_area.id@, base.stop_points@.len() as int)), periods)
        } else {
            |v: Seq<char>, d: Date| false
        },
        Impacted::StopPointDeleted(stop_point) =>
            stop_points_targets(base, resolved_stop_points(base, points, seq![stop_point.id]), periods),
        _ => |v: Seq<char>, d: Date| false,
    }
}

/// The trips that the objects concern during the periods.
pub open spec fn objects_targets(base: &BaseModel, points: Seq<String>, objects: Seq<Impacted>, periods: Seq<TimePeriod>) -> TripSet
    decreases objects.len(),
{
    if objects.len() == 0 {
        |v: Seq<char>, d: Date| false
    } else {
        let previous = objects_targets(base, points, objects.drop_last(), periods);
        let last = object_targets(base, points, objects.last(), periods);
        |v: Seq<char>, d: Date| previous(v, d) || last(v, d)
    }
}

/// The trips that the impacts concern, each during its application periods within the period
/// of the base schedule.
pub open spec fn impacts_targets(base: &BaseModel, points: Seq<String>, impacts: Seq<Impact>) -> TripSet
    decreases impacts.len(),
{
    if impacts.len() == 0 {
        |v: Seq<char>, d: Date| false
    } else {
        let previous = impacts_targets(base, points, impacts.drop_last());
        let impact = impacts.last();
        let periods = periods_within(impact.application_periods@, base.time_period);
        let last = objects_targets(base, points, impact.impacted_pt_objects@, periods);
        |v: Seq<char>, d: Date| previous(v, d) || (periods.len() > 0 && last(v, d))
    }
}

/// `b` has the status of `a` for every trip outside `targets`.
pub open spec fn trips_unchanged_outside(a: ModelState, b: ModelState, targets: TripSet) -> bool {
    forall|v: Seq<char>, d: Date| !targets(v, d) ==> #[trigger] status_in(b.0, v, d) == status_in(a.0, v, d)
}

/// What applying (or cancelling) an impact does to the trips it concerns: applying changes no
/// other trip, cancelling makes them follow the base schedule again.
pub open spec fn trips_acted_on(a: ModelState, b: ModelState, targets: TripSet, cancel: bool) -> bool {
    if cancel {
        trips_restored_on(a, b, targets)
    } else {
        trips_unchanged_outside(a, b, targets)
    }
}

/// Acting on the trips of `t1`, then on those of `t2`, acts on those of either.
proof fn lemma_trips_acted_on_compose(a: ModelState, b: ModelState, c: ModelState, t1: TripSet, t2: TripSet, cancel: bool)
    requires
        trips_acted_on(a, b, t1, cancel),
        trips_acted_on(b, c, t2, cancel),
    ensures
        trips_acted_on(a, c, |v: Seq<char>, d: Date| t1(v, d) || t2(v, d), cancel),
{
    if cancel {
        assert forall|v: Seq<char>, d: Date| #[trigger] status_in(c.0, v, d)
            == (if (t1(v, d) || t2(v, d)) { None::<TripStatus> } else { status_in(a.0, v, d) }) by {
            assert(status_in(b.0, v, d) == status_in(b.0, v, d));
        }
    } else {
        assert forall|v: Seq<char>, d: Date| !(t1(v, d) || t2(v, d))
            implies #[trigger] status_in(c.0, v, d) == status_in(a.0, v, d) by {
            assert(status_in(b.0, v, d) == status_in(b.0, v, d));
        }
    }
}

/// Applying (or cancelling) objects that act on trips of the base schedule, one after the
/// other, acts on the trips of each, and adds no new stop point.
proof fn lemma_impacted_chain_targets(
    base: &BaseModel,
    states: Seq<ModelState>,
    objects: Seq<Impacted>,
    periods: Seq<TimePeriod>,
    disruption_idx: DisruptionIdx,
    impact_idx: ImpactIdx,
    cancel: bool,
)
    requires
        impacted_chain(base, states, objects, periods, disruption_idx, impact_idx, impacted_action(cancel)),
        forall|k: int| 0 <= k < objects.len() ==> acts_on_base_trips(#[trigger] objects[k]),
    ensures
        states.last().2 == states[0].2,
        trips_acted_on(states[0], states.last(), objects_targets(base, states[0].2, objects, periods), cancel),
    decreases objects.len(),
{
    let n = objects.len() as int;
    if n == 0 {
        assert(states.last() == states[0]);
    } else {
        let prefix_states = states.drop_last();
        let prefix = objects.drop_last();
        assert forall|k: int| 0 <= k < prefix.len() implies #[trigger] impacted_effect(base, prefix_states[k], prefix_states[k + 1],
            prefix[k], periods, disruption_idx, impact_idx, impacted_action(cancel)) by {
            assert(impacted_effect(base, states[k], states[k + 1], objects[k], periods, disruption_idx, impact_idx, impacted_action(cancel)));
        }
        assert forall|k: int| 0 <= k < prefix.len() implies acts_on_base_trips(#[trigger] prefix[k]) by {
            assert(acts_on_base_trips(objects[k]));
        }
        lemma_impacted_chain_targets(base, prefix_states, prefix, periods, disruption_idx, impact_idx, cancel);
        let a = states[0];
        let m = n - 1;
        let b = states[m];
        let c = states[m + 1];
        assert(prefix_states.last() == b);
        assert(states.last() == c);
        assert(impacted_effect(base, b, c, objects[m], periods, disruption_idx, impact_idx, impacted_action(cancel)));
        assert(acts_on_base_trips(objects[m]));
        let t_last = object_targets(base, a.2, objects.last(), periods);
        assert(c.2 == b.2);
        assert(trips_acted_on(b, c, t_last, cancel)) by {
            if !cancel {
                assert forall|v: Seq<char>, d: Date| !t_last(v, d) implies #[trigger] status_in(c.0, v, d) == status_in(b.0, v, d) by {
                    assert(status_in(c.0, v, d) == status_in(c.0, v, d));
                }
            }
        }
        lemma_trips_acted_on_compose(a, b, c, objects_targets(base, a.2, prefix, periods), t_last, cancel);
        assert(objects_targets(base, a.2, objects, periods)
            == (|v: Seq<char>, d: Date| objects_targets(base, a.2, prefix, periods)(v, d) || t_last(v, d)));
    }
}

/// Informing about objects, or cancelling the information, changes no trip and adds no new stop
/// point.
proof fn lemma_informed_chain_trips(
    base: &BaseModel,
    states: Seq<ModelState>,
    objects: Seq<Informed>,
    periods: Seq<TimePeriod>,
    disruption_idx: DisruptionIdx,
    impact_idx: ImpactIdx,
    cancel: bool,
)
    requires
        informed_chain(base, states, objects, periods, disruption_idx, impact_idx, informed_action(cancel)),
    ensures
        states.last().0 == states[0].0,
        states.last().2 == states[0].2,
    decreases objects.len(),
{
    let n = objects.len() as int;
    if n > 0 {
        let prefix_states = states.drop_last();
        let prefix = objects.drop_last();
        assert forall|k: int| 0 <= k < prefix.len() implies #[trigger] informed_effect(base, prefix_states[k], prefix_states[k + 1],
            prefix[k], periods, disruption_idx, impact_idx, informed_action(cancel)) by {
            assert(informed_effect(base, states[k], states[k + 1], objects[k], periods, disruption_idx, impact_idx, informed_action(cancel)));
        }
        lemma_informed_chain_trips(base, prefix_states, prefix, periods, disruption_idx, impact_idx, cancel);
        let m = n - 1;
        assert(informed_effect(base, states[m], states[m + 1], objects[m], periods, disruption_idx, impact_idx, informed_action(cancel)));
        assert(states[m + 1].0 == states[m].0);
        assert(states[m + 1].2 == states[m].2);
    }
}

/// Applying (or cancelling) impacts whose objects act on trips of the base schedule, one after
/// the other, acts on the trips of each, and adds no new stop point.
proof fn lemma_impacts_chain_targets(
    base: &BaseModel,
    states: Seq<ModelState>,
    impacts: Seq<Impact>,
    disruption_idx: DisruptionIdx,
    cancel: bool,
)
    requires
        impacts_chain(base, states, impacts, disruption_idx, cancel),
        forall|i: int, k: int| 0 <= i < impacts.len() && 0 <= k < impacts[i].impacted_pt_objects@.len()
            ==> acts_on_base_trips(#[trigger] impacts[i].impacted_pt_objects@[k]),
    ensures
        states.last().2 == states[0].2,
        trips_acted_on(states[0], states.last(), impacts_targets(base, states[0].2, impacts), cancel),
    decreases impacts.len(),
{
    let n = impacts.len() as int;
    if n == 0 {
        assert(states.last() == states[0]);
    } else {
        let prefix_states = states.drop_last();
        let prefix = impacts.drop_last();
        assert forall|k: int| 0 <= k < prefix.len() implies #[trigger] impact_applied(base, prefix_states[k], prefix_states[k + 1],
            prefix[k], disruption_idx, ImpactIdx { idx: k as usize }, cancel) by {
            assert(impact_applied(base, states[k], states[k + 1], impacts[k], disruption_idx, ImpactIdx { idx: k as usize }, cancel));
        }
        assert forall|i: int, k: int| 0 <= i < prefix.len() && 0 <= k < prefix[i].impacted_pt_objects@.len()
            implies acts_on_base_trips(#[trigger] prefix[i].impacted_pt_objects@[k]) by {
            assert(acts_on_base_trips(impacts[i].impacted_pt_objects@[k]));
        }
        lemma_impacts_chain_targets(base, prefix_states, prefix, disruption_idx, cancel);
        let a = states[0];
        let m = n - 1;
        let b = states[m];
        let c = states[m + 1];
        assert(prefix_states.last() == b);
        assert(states.last() == c);
        let impact = impacts[m];
        let impact_idx = ImpactIdx { idx: m as usize };
        assert(impact_applied(base, b, c, impact, disruption_idx, impact_idx, cancel));
        let periods = periods_within(impact.application_periods@, base.time_period);
        let t_objects = objects_targets(base, a.2, impact.impacted_pt_objects@, periods);
        let t_last = |v: Seq<char>, d: Date| periods.len() > 0 && t_objects(v, d);
        if periods.len() == 0 {
            assert(c == b);
            assert(trips_acted_on(b, c, t_last, cancel));
        } else {
            let (impacted, informed) = choose|impacted: Seq<ModelState>, informed: Seq<ModelState>|
                impacted[0] == b && impacted_chain(base, impacted, impact.impacted_pt_objects@, periods, disruption_idx, impact_idx,
                    impacted_action(cancel))
                    && informed[0] == impacted.last()
                    && informed_chain(base, informed, impact.informed_pt_objects@, periods, disruption_idx, impact_idx,
                        informed_action(cancel))
                    && informed.last() == c;
            assert forall|k: int| 0 <= k < impact.impacted_pt_objects@.len()
                implies acts_on_base_trips(#[trigger] impact.impacted_pt_objects@[k]) by {
                assert(acts_on_base_trips(impacts[m].impacted_pt_objects@[k]));
            }
            lemma_impacted_chain_targets(base, impacted, impact.impacted_pt_objects@, periods, disruption_idx, impact_idx, cancel);
            lemma_informed_chain_trips(base, informed, impact.informed_pt_objects@, periods, disruption_idx, impact_idx, cancel);
            assert(c.2 == b.2);
            if cancel {
                assert forall|v: Seq<char>, d: Date| #[trigger] status_in(c.0, v, d)
                    == (if t_last(v, d) { None::<TripStatus> } else { status_in(b.0, v, d) }) by {
                    assert(status_in(impacted.last().0, v, d) == (if t_objects(v, d) { None::<TripStatus> } else { status_in(b.0, v, d) }));
                }
            } else {
                assert forall|v: Seq<char>, d: Date| !t_last(v, d) implies #[trigger] status_in(c.0, v, d) == status_in(b.0, v, d) by {
                    assert(!t_objects(v, d) ==> status_in(impacted.last().0, v, d) == status_in(b.0, v, d));
                }
            }
        }
        lemma_trips_acted_on_compose(a, b, c, impacts_targets(base, a.2, prefix), t_last, cancel);
        assert(impacts_targets(base, a.2, impacts)
            == (|v: Seq<char>, d: Date| impacts_targets(base, a.2, prefix)(v, d) || t_last(v, d)));
    }
}

/// Cancelling a disruption whose impacted objects act on trips of the base schedule (those of
/// networks, lines, routes, vehicle journeys, stop areas or stop points) right after applying it
/// undoes it: every trip that followed the base schedule before follows it again, and every trip
/// that keeps a real-time status keeps the one it had before.
pub proof fn lemma_cancel_undoes_apply(
    base: &BaseModel,
    a: ModelState,
    b: ModelState,
    c: ModelState,
    impacts: Seq<Impact>,
    disruption_idx: DisruptionIdx,
)
    requires
        disruption_applied(base, a, b, impacts, disruption_idx, false),
        disruption_applied(base, b, c, impacts, disruption_idx, true),
        forall|i: int, k: int| 0 <= i < impacts.len() && 0 <= k < impacts[i].impacted_pt_objects@.len()
            ==> acts_on_base_trips(#[trigger] impacts[i].impacted_pt_objects@[k]),
    ensures
        forall|v: Seq<char>, d: Date| status_in(a.0, v, d) is None ==> #[trigger] status_in(c.0, v, d) is None,
        forall|v: Seq<char>, d: Date| #[trigger] status_in(c.0, v, d) is Some ==> status_in(c.0, v, d) == status_in(a.0, v, d),
{
    let applying = choose|states: Seq<ModelState>|
        states[0] == a && impacts_chain(base, states, impacts, disruption_idx, false) && states.last() == b;
    let cancelling = choose|states: Seq<ModelState>|
        states[0] == b && impacts_chain(base, states, impacts, disruption_idx, true) && states.last() == c;
    lemma_impacts_chain_targets(base, applying, impacts, disruption_idx, false);
    lemma_impacts_chain_targets(base, cancelling, impacts, disruption_idx, true);
    let targets = impacts_targets(base, a.2, impacts);
    assert forall|v: Seq<char>, d: Date| #[trigger] status_in(c.0, v, d)
        == (if targets(v, d) { None::<TripStatus> } else { status_in(a.0, v, d) }) by {
        assert(!targets(v, d) ==> status_in(b.0, v, d) == status_in(a.0, v, d));
    }
}

} // verus!
