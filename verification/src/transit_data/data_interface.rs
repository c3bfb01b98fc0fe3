use vstd::prelude::*;

use super::Stop;
use crate::loads_data::Load;
use crate::models::{StopPointIdx, TransferIdx, VehicleJourneyIdx};
use crate::time::{
    compose, compose_day_and_time, DaysSinceDatasetStart, PositiveDuration,
    SecondsSinceDatasetUTCStart, UtcDateTime,
};
use crate::timetables::generic_timetables::{
    GenericTimetables, Position, Time, Timetable, Trip, Vehicle, VehicleTimesError,
};
use crate::timetables::FlowDirection;

verus! {

/// Any time of the dataset, in seconds since its start, is below this bound.
pub const MAX_DATASET_SECONDS: i64 = 0x10_0000_0000;

/// The start of a dataset is at most this many seconds away from 1970-01-01 00:00:00 UTC.
pub const MAX_FIRST_DATETIME: i64 = 0x100_0000_0000;

/// A mission: the timetable a trip belongs to.
pub type Mission = Timetable;

/// A transfer between two stops, identified by its index.
#[derive(Debug, Clone, Copy, PartialEq, Eq, Structural)]
pub struct Transfer {
    pub idx: usize,
}

/// A walk from a stop to another.
#[derive(Debug, Clone, Copy, PartialEq, Eq, Structural)]
pub struct TransferData {
    pub from_stop: Stop,
    pub to_stop: Stop,
    pub duration: PositiveDuration,
    pub transfer_idx: TransferIdx,
}

/// The timetables and transfers of a transit network, over the days of a dataset
/// that starts at `first_datetime`.
pub struct TransitData {
    pub(crate) timetables: GenericTimetables<VehicleJourneyIdx>,
    pub(crate) transfers: Vec<TransferData>,
    pub(crate) first_datetime: UtcDateTime,
}

impl TransitData {
    pub closed spec fn timetables_view(&self) -> GenericTimetables<VehicleJourneyIdx> {
        self.timetables
    }

    pub closed spec fn transfers_view(&self) -> Seq<TransferData> {
        self.transfers@
    }

    pub closed spec fn first_datetime_view(&self) -> UtcDateTime {
        self.first_datetime
    }

    /// The timetables are well formed, and the dataset starts at most `2^40` seconds away from
    /// 1970-01-01, so that its times (at most `2^36` seconds after its start) are valid dates.
    pub open spec fn wf(&self) -> bool {
        &&& self.timetables_view().wf()
        &&& -MAX_FIRST_DATETIME <= self.first_datetime_view().seconds_since_epoch <= MAX_FIRST_DATETIME
    }

    pub open spec fn valid_trip(&self, trip: Trip) -> bool {
        self.timetables_view().valid_vehicle(trip.vehicle)
    }

    /// A position of the timetable of `trip`.
    pub open spec fn valid_position_of(&self, trip: Trip, position: Position) -> bool {
        &&& position.timetable == trip.vehicle.timetable
        &&& self.timetables_view().valid_position(position)
    }

    pub open spec fn valid_transfer(&self, transfer: Transfer) -> bool {
        transfer.idx < self.transfers_view().len()
    }

    /// The time, since the start of the dataset, at which one can board `trip` at `position`,
    /// if one can board there.
    pub open spec fn board_time_spec(&self, trip: Trip, position: Position) -> Option<int> {
        match self.timetables_view().timetable(trip.vehicle.timetable.idx as int).board_time_if_allowed(
            trip.vehicle.idx as int,
            position.idx as int,
        ) {
            Some(time) => Some(compose(trip.day, time)),
            None => None,
        }
    }

    /// The time, since the start of the dataset, at which one can debark from `trip` at `position`,
    /// if one can debark there.
    pub open spec fn debark_time_spec(&self, trip: Trip, position: Position) -> Option<int> {
        match self.timetables_view().timetable(trip.vehicle.timetable.idx as int).debark_time_if_allowed(
            trip.vehicle.idx as int,
            position.idx as int,
        ) {
            Some(time) => Some(compose(trip.day, time)),
            None => None,
        }
    }

    /// The stop at `position`.
    pub open spec fn stop_spec(&self, position: Position) -> Stop {
        self.timetables_view().timetable(position.timetable.idx as int).stop_flows_view()[position.idx as int].0
    }

    pub open spec fn transfer_spec(&self, transfer: Transfer) -> TransferData {
        self.transfers_view()[transfer.idx as int]
    }

    /// An empty transit network over a dataset starting at `first_datetime`.
    pub fn new(first_datetime: UtcDateTime) -> (result: Self)
        requires
            -MAX_FIRST_DATETIME <= first_datetime.seconds_since_epoch <= MAX_FIRST_DATETIME,
        ensures
            result.wf(),
            result.timetables_view().nb_timetables() == 0,
            result.transfers_view().len() == 0,
            result.first_datetime_view() == first_datetime,
    {
        Self { timetables: GenericTimetables::new(), transfers: Vec::new(), first_datetime }
    }

    /// Adds a walk from `from_stop` to `to_stop`.
    pub fn add_transfer(&mut self, from_stop: Stop, to_stop: Stop, duration: PositiveDuration, transfer_idx: TransferIdx) -> (result: Transfer)
        requires
            old(self).wf(),
        ensures
            final(self).wf(),
            final(self).timetables_view() == old(self).timetables_view(),
            final(self).first_datetime_view() == old(self).first_datetime_view(),
            final(self).transfers_view() == old(self).transfers_view().push(
                TransferData { from_stop, to_stop, duration, transfer_idx },
            ),
            result.idx == old(self).transfers_view().len(),
    {
        let result = Transfer { idx: self.transfers.len() };
        self.transfers.push(TransferData { from_stop, to_stop, duration, transfer_idx });
        result
    }

    /// Inserts a vehicle journey in the timetables (see `GenericTimetables::insert`).
    pub fn insert_vehicle(
        &mut self,
        stops: Vec<Stop>,
        flows: Vec<FlowDirection>,
        board_times: Vec<Time>,
        debark_times: Vec<Time>,
        loads: Vec<Load>,
        vehicle_journey: VehicleJourneyIdx,
    ) -> (result: Result<Timetable, VehicleTimesError>)
        requires
            old(self).wf(),
            flows.len() == stops.len(),
            board_times.len() == stops.len(),
            debark_times.len() == stops.len(),
            loads.len() + 1 == stops.len(),
        ensures
            final(self).wf(),
            final(self).transfers_view() == old(self).transfers_view(),
            final(self).first_datetime_view() == old(self).first_datetime_view(),
            match crate::timetables::generic_timetables::vehicle_times_error(flows@, board_times@, debark_times@) {
                Some(error) => result == Err::<Timetable, VehicleTimesError>(error)
                    && final(self).timetables_view() == old(self).timetables_view(),
                None => result is Ok && final(self).timetables_view().inserted(
                    old(self).timetables_view(),
                    result->Ok_0,
                    crate::timetables::generic_timetables::corrected_stop_flows(stops@, flows@),
                    crate::timetables::generic_timetables::corrected_board_times(flows@, board_times@, debark_times@),
                    crate::timetables::generic_timetables::corrected_debark_times(flows@, board_times@, debark_times@),
                    (vehicle_journey, loads),
                ),
            },
    {
        self.timetables.insert(stops, flows, board_times, debark_times, loads, vehicle_journey)
    }

    /// The timetable of the trip.
    pub fn mission_of(&self, trip: &Trip) -> (result: Mission)
        ensures
            result == trip.vehicle.timetable,
    {
        self.timetables.timetable_of(&trip.vehicle)
    }

    pub fn is_upstream(&self, upstream: &Position, downstream: &Position, mission: &Mission) -> (result: bool)
        requires
            upstream.timetable == *mission,
        ensures
            result == (upstream.idx < downstream.idx),
    {
        self.timetables.is_upstream(upstream, downstream, mission)
    }

    /// The time at which one can board the trip at the position, with the load just after,
    /// if one can board there.
    pub fn board_time_of(&self, trip: &Trip, position: &Position) -> (result: Option<(SecondsSinceDatasetUTCStart, Load)>)
        requires
            self.wf(),
            self.valid_trip(*trip),
            self.valid_position_of(*trip, *position),
        ensures
            match result {
                Some((time, _)) => self.board_time_spec(*trip, *position) == Some(time as int),
                None => self.board_time_spec(*trip, *position) is None,
            },
    {
        let (time, load) = self.timetables.board_time(&trip.vehicle, position)?;
        let seconds = compose_day_and_time(&trip.day, time);
        Some((seconds, *load))
    }

    /// The time at which one can debark from the trip at the position, with the load just before,
    /// if one can debark there.
    pub fn debark_time_of(&self, trip: &Trip, position: &Position) -> (result: Option<(SecondsSinceDatasetUTCStart, Load)>)
        requires
            self.wf(),
            self.valid_trip(*trip),
            self.valid_position_of(*trip, *position),
        ensures
            match result {
                Some((time, _)) => self.debark_time_spec(*trip, *position) == Some(time as int),
                None => self.debark_time_spec(*trip, *position) is None,
            },
    {
        let (time, load) = self.timetables.debark_time(&trip.vehicle, position)?;
        let seconds = compose_day_and_time(&trip.day, time);
        Some((seconds, *load))
    }

    pub fn stop_of(&self, position: &Position, mission: &Mission) -> (result: Stop)
        requires
            *mission == position.timetable,
            self.timetables_view().valid_position(*position),
        ensures
            result == self.stop_spec(*position),
    {
        *self.timetables.stop_at(position, mission)
    }

    pub fn transfer_from_to_stop(&self, transfer: &Transfer) -> (result: (Stop, Stop))
        requires
            self.valid_transfer(*transfer),
        ensures
            result == (self.transfer_spec(*transfer).from_stop, self.transfer_spec(*transfer).to_stop),
    {
        let transfer_data = &self.transfers[transfer.idx];
        (transfer_data.from_stop, transfer_data.to_stop)
    }

    pub fn transfer_duration(&self, transfer: &Transfer) -> (result: PositiveDuration)
        requires
            self.valid_transfer(*transfer),
        ensures
            result == self.transfer_spec(*transfer).duration,
    {
        self.transfers[transfer.idx].duration
    }

    pub fn transfer_idx(&self, transfer: &Transfer) -> (result: TransferIdx)
        requires
            self.valid_transfer(*transfer),
        ensures
            result == self.transfer_spec(*transfer).transfer_idx,
    {
        self.transfers[transfer.idx].transfer_idx
    }

    pub fn is_same_stop(&self, stop_a: &Stop, stop_b: &Stop) -> (result: bool)
        ensures
            result == (*stop_a == *stop_b),
    {
        stop_a.idx == stop_b.idx
    }

    /// The vehicle journey of the trip.
    pub fn vehicle_journey_idx(&self, trip: &Trip) -> (result: VehicleJourneyIdx)
        requires
            self.valid_trip(*trip),
        ensures
            result == self.timetables_view().timetable(trip.vehicle.timetable.idx as int).data_of_vehicle(trip.vehicle.idx as int),
    {
        *self.timetables.vehicle_data(&trip.vehicle)
    }

    pub fn day_of(&self, trip: &Trip) -> (result: DaysSinceDatasetStart)
        ensures
            result == trip.day,
    {
        trip.day
    }

    /// The index, in its vehicle journey, of the stop time at `position`.
    pub fn stoptime_idx(&self, position: &Position, _trip: &Trip) -> (result: usize)
        ensures
            result == position.idx,
    {
        self.timetables.stoptime_idx(position)
    }

    /// The stop point of the model at this stop (stops are numbered as the stop points).
    pub fn stop_point_idx(&self, stop: &Stop) -> (result: StopPointIdx)
        ensures
            result.idx == stop.idx,
    {
        StopPointIdx { idx: stop.idx }
    }

    /// The stop at this stop point of the model (stops are numbered as the stop points).
    pub fn stop_point_idx_to_stop(&self, stop_point: &StopPointIdx) -> (result: Option<Stop>)
        ensures
            result == Some(Stop { idx: stop_point.idx }),
    {
        Some(Stop { idx: stop_point.idx })
    }

    /// The date and time, in UTC, `seconds` after the start of the dataset.
    pub fn to_naive_datetime(&self, seconds: &SecondsSinceDatasetUTCStart) -> (result: UtcDateTime)
        requires
            *seconds <= i64::MAX,
            self.first_datetime_view().seconds_since_epoch + *seconds <= i64::MAX,
        ensures
            result.seconds_since_epoch == self.first_datetime_view().seconds_since_epoch + *seconds,
    {
        let offset: i64 = *seconds as i64;
        UtcDateTime { seconds_since_epoch: self.first_datetime.seconds_since_epoch + offset }
    }
}

} // verus!
