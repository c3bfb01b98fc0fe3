use vstd::prelude::*;

use crate::loads_data::{loads_count_text, LoadsCount};
use crate::models::{ModelRefs, StopPointIdx, TransferIdx, VehicleJourneyIdx};
use crate::text::{decimal, duration_text, write_decimal, write_duration_text};
use crate::request::generic_request::{MaximizeDepartureTimeError, MinimizeArrivalTimeError};
use crate::time::{lemma_compose_bounds, DaysSinceDatasetStart, PositiveDuration, SecondsSinceDatasetUTCStart, UtcDateTime};
use crate::timetables::generic_timetables::{Position, Trip};
use crate::transit_data::data_interface::{Transfer, TransitData, MAX_DATASET_SECONDS};
use crate::transit_data::Stop;

verus! {

/// A part of a journey spent in a vehicle: from boarding `trip` at `board_position`
/// to debarking from it at `debark_position`.
#[derive(Debug, Clone, Copy, PartialEq, Eq, Structural)]
pub struct VehicleLeg {
    pub trip: Trip,
    pub board_position: Position,
    pub debark_position: Position,
}

/// Which vehicle leg of a journey.
#[derive(Debug, Clone, Copy, PartialEq, Eq, Structural)]
pub enum VehicleLegIdx {
    First,
    Connection(usize),
}

/// Why a sequence of vehicle legs and transfers is not a journey.
#[derive(Debug, Clone, Copy, PartialEq, Eq, Structural)]
pub enum BadJourney {
    DebarkIsUpstreamBoard(VehicleLeg, VehicleLegIdx),
    NoBoardTime(VehicleLeg, VehicleLegIdx),
    NoDebarkTime(VehicleLeg, VehicleLegIdx),
    BadTransferStartStop(VehicleLeg, Transfer, usize),
    BadTransferEndStop(Transfer, VehicleLeg, usize),
    BadTransferEndTime(Transfer, VehicleLeg, usize),
}

/// Why a journey could not be built.
#[derive(Debug, Clone, Copy, PartialEq, Eq, Structural)]
pub enum JourneyError {
    BadJourney(BadJourney),
    MinimizeArrivalTimeError(MinimizeArrivalTimeError),
    MaximizeDepartureTimeError(MaximizeDepartureTimeError),
}

impl BadJourney {
    /// The name of the kind of error.
    pub open spec fn debug_text_spec(&self) -> Seq<char> {
        match self {
            BadJourney::DebarkIsUpstreamBoard(_, _) => "DebarkIsUpstreamBoard"@,
            BadJourney::NoBoardTime(_, _) => "NoBoardTime"@,
            BadJourney::NoDebarkTime(_, _) => "NoDebarkTime"@,
            BadJourney::BadTransferStartStop(_, _, _) => "BadTransferStartStop"@,
            BadJourney::BadTransferEndStop(_, _, _) => "BadTransferEndStop"@,
            BadJourney::BadTransferEndTime(_, _, _) => "BadTransferEndTime"@,
        }
    }

    /// The name of the kind of error, as the error is shown in logs.
    pub fn debug_text(&self) -> (result: String)
        ensures
            result@ == self.debug_text_spec(),
    {
        match self {
            BadJourney::DebarkIsUpstreamBoard(_, _) => String::from_str("DebarkIsUpstreamBoard"),
            BadJourney::NoBoardTime(_, _) => String::from_str("NoBoardTime"),
            BadJourney::NoDebarkTime(_, _) => String::from_str("NoDebarkTime"),
            BadJourney::BadTransferStartStop(_, _, _) => String::from_str("BadTransferStartStop"),
            BadJourney::BadTransferEndStop(_, _, _) => String::from_str("BadTransferEndStop"),
            BadJourney::BadTransferEndTime(_, _, _) => String::from_str("BadTransferEndTime"),
        }
    }
}

impl JourneyError {
    /// The kind of error, then the kind of the error it holds.
    pub open spec fn debug_text_spec(&self) -> Seq<char> {
        match self {
            JourneyError::BadJourney(error) => "BadJourney : "@ + error.debug_text_spec(),
            JourneyError::MinimizeArrivalTimeError(error) => "MinimizeArrivalTimeError : "@ + error.debug_text_spec(),
            JourneyError::MaximizeDepartureTimeError(error) => "MaximizeDepartureTimeError : "@ + error.debug_text_spec(),
        }
    }

    /// The kind of error, then the kind of the error it holds, as the error is shown in logs.
    pub fn debug_text(&self) -> (result: String)
        ensures
            result@ == self.debug_text_spec(),
    {
        let (mut result, inner) = match self {
            JourneyError::BadJourney(error) => (String::from_str("BadJourney : "), error.debug_text()),
            JourneyError::MinimizeArrivalTimeError(error) => (String::from_str("MinimizeArrivalTimeError : "), error.debug_text()),
            JourneyError::MaximizeDepartureTimeError(error) => (String::from_str("MaximizeDepartureTimeError : "), error.debug_text()),
        };
        result.append(inner.as_str());
        result
    }
}

/// The trip and both positions of the leg exist, in the timetable of the trip.
pub open spec fn leg_valid(data: TransitData, leg: VehicleLeg) -> bool {
    &&& data.valid_trip(leg.trip)
    &&& data.valid_position_of(leg.trip, leg.board_position)
    &&& data.valid_position_of(leg.trip, leg.debark_position)
}

/// Every leg and transfer refers to existing data.
pub open spec fn legs_valid(data: TransitData, first: VehicleLeg, connections: Seq<(Transfer, VehicleLeg)>) -> bool {
    &&& leg_valid(data, first)
    &&& forall|i: int| 0 <= i < connections.len() ==> leg_valid(data, (#[trigger] connections[i]).1)
        && data.valid_transfer(connections[i].0)
}

/// The first problem with the connections from `idx` on, given that the previous vehicle leg,
/// `previous_leg`, ends at `previous_stop` at `previous_time`.
pub open spec fn connections_error_from(
    data: TransitData,
    connections: Seq<(Transfer, VehicleLeg)>,
    idx: int,
    previous_stop: Stop,
    previous_time: int,
    previous_leg: VehicleLeg,
) -> Option<BadJourney>
    decreases connections.len() - idx,
{
    if idx < 0 || idx >= connections.len() {
        None
    } else {
        let (transfer, leg) = connections[idx];
        let transfer_data = data.transfer_spec(transfer);
        let board_time = data.board_time_spec(leg.trip, leg.board_position);
        let debark_time = data.debark_time_spec(leg.trip, leg.debark_position);
        if previous_stop != transfer_data.from_stop {
            Some(BadJourney::BadTransferStartStop(previous_leg, transfer, idx as usize))
        } else if leg.debark_position.idx < leg.board_position.idx {
            Some(BadJourney::DebarkIsUpstreamBoard(leg, VehicleLegIdx::Connection(idx as usize)))
        } else if board_time is None {
            Some(BadJourney::NoBoardTime(leg, VehicleLegIdx::Connection(idx as usize)))
        } else if debark_time is None {
            Some(BadJourney::NoDebarkTime(leg, VehicleLegIdx::Connection(idx as usize)))
        } else if transfer_data.to_stop != data.stop_spec(leg.board_position) {
            Some(BadJourney::BadTransferEndStop(transfer, leg, idx as usize))
        } else if previous_time + transfer_data.duration > board_time->Some_0 {
            Some(BadJourney::BadTransferEndTime(transfer, leg, idx as usize))
        } else {
            connections_error_from(
                data,
                connections,
                idx + 1,
                data.stop_spec(leg.debark_position),
                debark_time->Some_0,
                leg,
            )
        }
    }
}

/// The first problem found in a sequence of vehicle legs and transfers, if any: a leg that
/// debarks upstream of where it boards, or that cannot be boarded or debarked, a transfer that
/// does not start where the previous leg ends or does not end where the next leg starts, or
/// that ends after the next vehicle leaves.
pub open spec fn journey_error(
    data: TransitData,
    first: VehicleLeg,
    connections: Seq<(Transfer, VehicleLeg)>,
) -> Option<BadJourney> {
    let board_time = data.board_time_spec(first.trip, first.board_position);
    let debark_time = data.debark_time_spec(first.trip, first.debark_position);
    if first.debark_position.idx < first.board_position.idx {
        Some(BadJourney::DebarkIsUpstreamBoard(first, VehicleLegIdx::First))
    } else if board_time is None {
        Some(BadJourney::NoBoardTime(first, VehicleLegIdx::First))
    } else if debark_time is None {
        Some(BadJourney::NoDebarkTime(first, VehicleLegIdx::First))
    } else {
        connections_error_from(
            data,
            connections,
            0,
            data.stop_spec(first.debark_position),
            debark_time->Some_0,
            first,
        )
    }
}

/// A journey: leaving at `departure_datetime`, walking `departure_fallback_duration` to board
/// the first vehicle, then a sequence of transfers and vehicle legs, and finally walking
/// `arrival_fallback_duration` after the last vehicle.
#[derive(Debug, Clone)]
pub struct Journey {
    pub(crate) departure_datetime: SecondsSinceDatasetUTCStart,
    pub(crate) departure_fallback_duration: PositiveDuration,
    pub(crate) first_vehicle: VehicleLeg,
    pub(crate) connections: Vec<(Transfer, VehicleLeg)>,
    pub(crate) arrival_fallback_duration: PositiveDuration,
    pub(crate) loads_count: LoadsCount,
}

impl Journey {
    pub closed spec fn departure_datetime_view(&self) -> SecondsSinceDatasetUTCStart {
        self.departure_datetime
    }

    pub closed spec fn departure_fallback_view(&self) -> PositiveDuration {
        self.departure_fallback_duration
    }

    pub closed spec fn arrival_fallback_view(&self) -> PositiveDuration {
        self.arrival_fallback_duration
    }

    pub closed spec fn first_vehicle_view(&self) -> VehicleLeg {
        self.first_vehicle
    }

    pub closed spec fn connections_view(&self) -> Seq<(Transfer, VehicleLeg)> {
        self.connections@
    }

    pub closed spec fn loads_count_view(&self) -> LoadsCount {
        self.loads_count
    }

    /// The journey is a coherent sequence of vehicle legs and transfers of `data`.
    pub open spec fn is_valid_for(&self, data: TransitData) -> bool {
        &&& data.wf()
        &&& legs_valid(data, self.first_vehicle_view(), self.connections_view())
        &&& journey_error(data, self.first_vehicle_view(), self.connections_view()) is None
    }

    /// The vehicle leg at `idx`: the first one, then those of the connections.
    pub open spec fn leg_spec(&self, idx: VehicleLegIdx) -> VehicleLeg {
        match idx {
            VehicleLegIdx::First => self.first_vehicle_view(),
            VehicleLegIdx::Connection(i) => self.connections_view()[i as int].1,
        }
    }

    pub open spec fn last_leg_spec(&self) -> VehicleLeg {
        if self.connections_view().len() == 0 {
            self.first_vehicle_view()
        } else {
            self.connections_view().last().1
        }
    }

    pub fn new(
        departure_datetime: SecondsSinceDatasetUTCStart,
        departure_fallback_duration: PositiveDuration,
        first_vehicle: VehicleLeg,
        connections: Vec<(Transfer, VehicleLeg)>,
        arrival_fallback_duration: PositiveDuration,
        loads_count: LoadsCount,
        data: &TransitData,
    ) -> (result: Result<Self, BadJourney>)
        requires
            data.wf(),
            legs_valid(*data, first_vehicle, connections@),
        ensures
            match journey_error(*data, first_vehicle, connections@) {
                Some(error) => result == Err::<Self, BadJourney>(error),
                None => result matches Ok(journey) && journey.is_valid_for(*data)
                    && journey.departure_datetime_view() == departure_datetime
                    && journey.departure_fallback_view() == departure_fallback_duration
                    && journey.first_vehicle_view() == first_vehicle
                    && journey.connections_view() == connections@
                    && journey.arrival_fallback_view() == arrival_fallback_duration
                    && journey.loads_count_view() == loads_count,
            },
            result is Ok <==> leg_ok(*data, first_vehicle)
                && forall|i: int| 0 <= i < connections@.len() ==> #[trigger] connection_ok(*data, first_vehicle, connections@, i),
    {
        proof {
            lemma_journey_error_none(*data, first_vehicle, connections@);
        }
        let result = Self {
            departure_datetime,
            departure_fallback_duration,
            first_vehicle,
            arrival_fallback_duration,
            connections,
            loads_count,
        };
        result.is_valid(data)?;
        Ok(result)
    }

    fn is_valid(&self, data: &TransitData) -> (result: Result<(), BadJourney>)
        requires
            data.wf(),
            legs_valid(*data, self.first_vehicle, self.connections@),
        ensures
            result == match journey_error(*data, self.first_vehicle, self.connections@) {
                Some(error) => Err(error),
                None => Ok::<(), BadJourney>(()),
            },
    {
        let (first_debark_stop, first_debark_time) = {
            let board_position = &self.first_vehicle.board_position;
            let debark_position = &self.first_vehicle.debark_position;
            let trip = &self.first_vehicle.trip;
            let mission = data.mission_of(trip);
            if data.is_upstream(debark_position, board_position, &mission) {
                return Err(BadJourney::DebarkIsUpstreamBoard(self.first_vehicle, VehicleLegIdx::First));
            }
            if data.board_time_of(trip, board_position).is_none() {
                return Err(BadJourney::NoBoardTime(self.first_vehicle, VehicleLegIdx::First));
            }
            let debark_timeload = match data.debark_time_of(trip, debark_position) {
                Some(timeload) => timeload,
                None => {
                    return Err(BadJourney::NoDebarkTime(self.first_vehicle, VehicleLegIdx::First));
                },
            };
            let debark_stop = data.stop_of(debark_position, &mission);
            (debark_stop, debark_timeload.0)
        };

        let mut prev_debark_stop = first_debark_stop;
        let mut prev_debark_time = first_debark_time;
        let mut prev_vehicle_leg = self.first_vehicle;

        let nb_of_connections = self.connections.len();
        let mut idx: usize = 0;
        while idx < nb_of_connections
            invariant
                data.wf(),
                nb_of_connections == self.connections@.len(),
                legs_valid(*data, self.first_vehicle, self.connections@),
                idx <= nb_of_connections,
                prev_debark_time <= 65535 * 86400 + 0xffff_ffff,
                journey_error(*data, self.first_vehicle, self.connections@) == connections_error_from(
                    *data,
                    self.connections@,
                    idx as int,
                    prev_debark_stop,
                    prev_debark_time as int,
                    prev_vehicle_leg,
                ),
            decreases nb_of_connections - idx,
        {
            let (transfer, vehicle_leg) = self.connections[idx];
            proof {
                assert(leg_valid(*data, self.connections@[idx as int].1));
            }
            let (transfer_from_stop, transfer_to_stop) = data.transfer_from_to_stop(&transfer);
            let transfer_duration = data.transfer_duration(&transfer);

            if !data.is_same_stop(&prev_debark_stop, &transfer_from_stop) {
                return Err(BadJourney::BadTransferStartStop(prev_vehicle_leg, transfer, idx));
            }

            let board_position = &vehicle_leg.board_position;
            let debark_position = &vehicle_leg.debark_position;
            let trip = &vehicle_leg.trip;
            let mission = data.mission_of(trip);
            if data.is_upstream(debark_position, board_position, &mission) {
                return Err(BadJourney::DebarkIsUpstreamBoard(vehicle_leg, VehicleLegIdx::Connection(idx)));
            }

            let board_time = match data.board_time_of(trip, board_position) {
                Some(timeload) => timeload.0,
                None => {
                    return Err(BadJourney::NoBoardTime(vehicle_leg, VehicleLegIdx::Connection(idx)));
                },
            };
            let debark_time = match data.debark_time_of(trip, debark_position) {
                Some(timeload) => timeload.0,
                None => {
                    return Err(BadJourney::NoDebarkTime(vehicle_leg, VehicleLegIdx::Connection(idx)));
                },
            };

            let board_stop = data.stop_of(board_position, &mission);
            let debark_stop = data.stop_of(debark_position, &mission);

            if !data.is_same_stop(&transfer_to_stop, &board_stop) {
                return Err(BadJourney::BadTransferEndStop(transfer, vehicle_leg, idx));
            }

            let end_transfer_time = prev_debark_time + transfer_duration as u64;
            if end_transfer_time > board_time {
                return Err(BadJourney::BadTransferEndTime(transfer, vehicle_leg, idx));
            }

            prev_debark_time = debark_time;
            prev_debark_stop = debark_stop;
            prev_vehicle_leg = vehicle_leg;
            idx = idx + 1;
        }
        Ok(())
    }

    /// In a valid journey, every vehicle leg can be boarded and debarked, and its times are
    /// those of the dataset.
    pub proof fn lemma_valid_legs(&self, data: TransitData)
        requires
            self.is_valid_for(data),
        ensures
            data.board_time_spec(self.first_vehicle_view().trip, self.first_vehicle_view().board_position) is Some,
            data.debark_time_spec(self.first_vehicle_view().trip, self.first_vehicle_view().debark_position) is Some,
            forall|i: int| 0 <= i < self.connections_view().len() ==> {
                let leg = (#[trigger] self.connections_view()[i]).1;
                &&& data.board_time_spec(leg.trip, leg.board_position) is Some
                &&& data.debark_time_spec(leg.trip, leg.debark_position) is Some
            },
    {
        let first = self.first_vehicle_view();
        let connections = self.connections_view();
        let debark_time = data.debark_time_spec(first.trip, first.debark_position);
        assert forall|i: int| 0 <= i < connections.len() implies {
            let leg = (#[trigger] connections[i]).1;
            &&& data.board_time_spec(leg.trip, leg.board_position) is Some
            &&& data.debark_time_spec(leg.trip, leg.debark_position) is Some
        } by {
            lemma_connections_valid(data, connections, 0, data.stop_spec(first.debark_position), debark_time->Some_0, first, i);
        }
    }

    /// The leg of the first vehicle.
    pub fn first_vehicle(&self) -> (result: &VehicleLeg)
        ensures
            *result == self.first_vehicle_view(),
    {
        &self.first_vehicle
    }

    fn first_vehicle_board_time(&self, data: &TransitData) -> (result: SecondsSinceDatasetUTCStart)
        requires
            self.is_valid_for(*data),
        ensures
            result == data.board_time_spec(self.first_vehicle_view().trip, self.first_vehicle_view().board_position)->Some_0,
            result <= 65535 * 86400 + 0xffff_ffff,
    {
        proof {
            self.lemma_valid_legs(*data);
        }
        let board_timeload = data.board_time_of(&self.first_vehicle.trip, &self.first_vehicle.board_position);
        proof {
            lemma_compose_bounds(self.first_vehicle.trip.day, data.timetables_view().timetable(self.first_vehicle.trip.vehicle.timetable.idx as int).vehicle_board_time(self.first_vehicle.trip.vehicle.idx as int, self.first_vehicle.board_position.idx as int));
        }
        board_timeload.unwrap().0
    }

    fn last_vehicle_leg(&self) -> (result: &VehicleLeg)
        ensures
            *result == self.last_leg_spec(),
    {
        let nb_of_connections = self.connections.len();
        if nb_of_connections == 0 {
            &self.first_vehicle
        } else {
            &self.connections[nb_of_connections - 1].1
        }
    }

    fn last_vehicle_debark_time(&self, data: &TransitData) -> (result: SecondsSinceDatasetUTCStart)
        requires
            self.is_valid_for(*data),
        ensures
            result == data.debark_time_spec(self.last_leg_spec().trip, self.last_leg_spec().debark_position)->Some_0,
            result <= 65535 * 86400 + 0xffff_ffff,
    {
        proof {
            self.lemma_valid_legs(*data);
            if self.connections@.len() > 0 {
                assert(self.connections_view()[self.connections@.len() - 1] == self.connections@.last());
            }
        }
        let last_vehicle_leg = self.last_vehicle_leg();
        proof {
            if self.connections@.len() > 0 {
                assert(leg_valid(*data, self.connections@[self.connections@.len() - 1].1));
            }
        }
        let debark_timeload = data.debark_time_of(&last_vehicle_leg.trip, &last_vehicle_leg.debark_position);
        proof {
            lemma_compose_bounds(last_vehicle_leg.trip.day, data.timetables_view().timetable(last_vehicle_leg.trip.vehicle.timetable.idx as int).vehicle_debark_time(last_vehicle_leg.trip.vehicle.idx as int, last_vehicle_leg.debark_position.idx as int));
        }
        debark_timeload.unwrap().0
    }

    /// The time at which the journey reaches its destination.
    pub open spec fn arrival_spec(&self, data: TransitData) -> int {
        data.debark_time_spec(self.last_leg_spec().trip, self.last_leg_spec().debark_position)->Some_0
            + self.arrival_fallback_view()
    }

    fn arrival(&self, data: &TransitData) -> (result: SecondsSinceDatasetUTCStart)
        requires
            self.is_valid_for(*data),
        ensures
            result == self.arrival_spec(*data),
            result <= 65535 * 86400 + 0xffff_ffff + 0xffff_ffff,
    {
        let last_debark_time = self.last_vehicle_debark_time(data);
        last_debark_time + self.arrival_fallback_duration as u64
    }

    /// The total duration of the transfers of the journey.
    pub open spec fn transfer_durations_spec(&self, data: TransitData, n: int) -> int
        decreases n,
    {
        if n <= 0 {
            0
        } else {
            self.transfer_durations_spec(data, n - 1) + data.transfer_spec(self.connections_view()[n - 1].0).duration
        }
    }

    /// Every transfer of the journey is one of the data.
    pub open spec fn transfers_belong_to(&self, data: TransitData) -> bool {
        forall|i: int| 0 <= i < self.connections_view().len() ==> data.valid_transfer((#[trigger] self.connections_view()[i]).0)
    }

    /// The sum of the durations of the transfers of the journey.
    pub fn total_transfer_duration(&self, data: &TransitData) -> (result: PositiveDuration)
        requires
            self.transfers_belong_to(*data),
            self.transfer_durations_spec(*data, self.connections_view().len() as int) <= u32::MAX,
        ensures
            result == self.transfer_durations_spec(*data, self.connections_view().len() as int),
    {
        let mut result: PositiveDuration = 0;
        let nb_of_connections = self.connections.len();
        let mut idx: usize = 0;
        while idx < nb_of_connections
            invariant
                self.transfers_belong_to(*data),
                nb_of_connections == self.connections_view().len(),
                idx <= nb_of_connections,
                result == self.transfer_durations_spec(*data, idx as int),
                self.transfer_durations_spec(*data, nb_of_connections as int) <= u32::MAX,
            decreases nb_of_connections - idx,
        {
            proof {
                assert(data.valid_transfer(self.connections@[idx as int].0));
                self.lemma_transfer_durations_grow(*data, idx as int + 1, nb_of_connections as int);
            }
            let transfer_duration = data.transfer_duration(&self.connections[idx].0);
            result = result + transfer_duration;
            idx = idx + 1;
        }
        result
    }

    /// The total duration of the transfers sums every transfer: nothing before the first
    /// connection, and each connection adds exactly the duration of its transfer.
    pub proof fn lemma_transfer_durations_sum(&self, data: TransitData, n: int)
        requires
            0 <= n < self.connections_view().len(),
        ensures
            self.transfer_durations_spec(data, 0) == 0,
            self.transfer_durations_spec(data, n + 1)
                == self.transfer_durations_spec(data, n) + data.transfer_spec(self.connections_view()[n].0).duration,
    {
    }

    proof fn lemma_transfer_durations_grow(&self, data: TransitData, m: int, n: int)
        requires
            0 <= m <= n,
        ensures
            self.transfer_durations_spec(data, m) <= self.transfer_durations_spec(data, n),
        decreases n - m,
    {
        if m < n {
            self.lemma_transfer_durations_grow(data, m, n - 1);
        }
    }

    /// The duration from the departure to the arrival.
    pub fn total_duration(&self, data: &TransitData) -> (result: PositiveDuration)
        requires
            self.is_valid_for(*data),
            self.departure_datetime_view() <= self.arrival_spec(*data),
            self.arrival_spec(*data) - self.departure_datetime_view() <= u32::MAX,
        ensures
            result == self.arrival_spec(*data) - self.departure_datetime_view(),
    {
        let arrival_time = self.arrival(data);
        let departure_time = self.departure_datetime;
        let duration = arrival_time - departure_time;
        duration as u32
    }

    /// The duration from boarding the first vehicle to debarking from the last one.
    pub fn total_duration_in_pt(&self, data: &TransitData) -> (result: PositiveDuration)
        requires
            self.is_valid_for(*data),
            data.board_time_spec(self.first_vehicle_view().trip, self.first_vehicle_view().board_position)->Some_0
                <= data.debark_time_spec(self.last_leg_spec().trip, self.last_leg_spec().debark_position)->Some_0,
            data.debark_time_spec(self.last_leg_spec().trip, self.last_leg_spec().debark_position)->Some_0
                - data.board_time_spec(self.first_vehicle_view().trip, self.first_vehicle_view().board_position)->Some_0
                <= u32::MAX,
        ensures
            result == data.debark_time_spec(self.last_leg_spec().trip, self.last_leg_spec().debark_position)->Some_0
                - data.board_time_spec(self.first_vehicle_view().trip, self.first_vehicle_view().board_position)->Some_0,
    {
        let arrival_time = self.last_vehicle_debark_time(data);
        let departure_time = self.first_vehicle_board_time(data);
        let duration = arrival_time - departure_time;
        duration as u32
    }

    pub fn nb_of_legs(&self) -> (result: usize)
        requires
            self.connections_view().len() < usize::MAX,
        ensures
            result == self.connections_view().len() + 1,
    {
        self.connections.len() + 1
    }

    pub fn nb_of_connections(&self) -> (result: usize)
        ensures
            result == self.connections_view().len(),
    {
        self.connections.len()
    }

    pub fn nb_of_transfers(&self) -> (result: usize)
        ensures
            result == self.connections_view().len(),
    {
        self.connections.len()
    }

    pub fn departure_datetime(&self, data: &TransitData) -> (result: UtcDateTime)
        requires
            data.wf(),
            self.departure_datetime_view() <= MAX_DATASET_SECONDS,
        ensures
            result.seconds_since_epoch == data.first_datetime_view().seconds_since_epoch + self.departure_datetime_view(),
    {
        data.to_naive_datetime(&self.departure_datetime)
    }

    pub fn arrival_datetime(&self, data: &TransitData) -> (result: UtcDateTime)
        requires
            self.is_valid_for(*data),
        ensures
            result.seconds_since_epoch == data.first_datetime_view().seconds_since_epoch + self.arrival_spec(*data),
    {
        let arrival_time = self.arrival(data);
        data.to_naive_datetime(&arrival_time)
    }

    pub fn first_vehicle_board_datetime(&self, data: &TransitData) -> (result: UtcDateTime)
        requires
            self.is_valid_for(*data),
        ensures
            result.seconds_since_epoch == data.first_datetime_view().seconds_since_epoch
                + data.board_time_spec(self.first_vehicle_view().trip, self.first_vehicle_view().board_position)->Some_0,
    {
        let seconds = self.first_vehicle_board_time(data);
        data.to_naive_datetime(&seconds)
    }

    pub fn last_vehicle_debark_datetime(&self, data: &TransitData) -> (result: UtcDateTime)
        requires
            self.is_valid_for(*data),
        ensures
            result.seconds_since_epoch == data.first_datetime_view().seconds_since_epoch
                + data.debark_time_spec(self.last_leg_spec().trip, self.last_leg_spec().debark_position)->Some_0,
    {
        let seconds = self.last_vehicle_debark_time(data);
        data.to_naive_datetime(&seconds)
    }

    pub fn total_fallback_duration(&self) -> (result: PositiveDuration)
        requires
            self.departure_fallback_view() + self.arrival_fallback_view() <= u32::MAX,
        ensures
            result == self.departure_fallback_view() + self.arrival_fallback_view(),
    {
        self.departure_fallback_duration + self.arrival_fallback_duration
    }
}

/// A part of a journey spent in a vehicle.
#[derive(Debug, Clone, Copy, PartialEq, Eq, Structural)]
pub struct VehicleSection {
    pub from_datetime: UtcDateTime,
    pub to_datetime: UtcDateTime,
    pub vehicle_journey: VehicleJourneyIdx,
    pub day_for_vehicle_journey: DaysSinceDatasetStart,
    /// the index (in vehicle_journey.stop_times) of the stop_time we board at
    pub from_stoptime_idx: usize,
    /// the index (in vehicle_journey.stop_times) of the stop_time we debark at
    pub to_stoptime_idx: usize,
}

/// A part of a journey spent walking from a stop point to another.
#[derive(Debug, Clone, Copy, PartialEq, Eq, Structural)]
pub struct TransferSection {
    pub transfer: TransferIdx,
    pub from_datetime: UtcDateTime,
    pub to_datetime: UtcDateTime,
    pub from_stop_point: StopPointIdx,
    pub to_stop_point: StopPointIdx,
}

/// A part of a journey spent waiting at a stop point.
#[derive(Debug, Clone, Copy, PartialEq, Eq, Structural)]
pub struct WaitingSection {
    pub from_datetime: UtcDateTime,
    pub to_datetime: UtcDateTime,
    pub stop_point: StopPointIdx,
}

/// The start of a journey: from the departure to the first stop point.
#[derive(Debug, Clone, Copy, PartialEq, Eq, Structural)]
pub struct DepartureSection {
    pub from_datetime: UtcDateTime,
    pub to_datetime: UtcDateTime,
    pub to_stop_point: StopPointIdx,
}

/// The end of a journey: from the last stop point to the arrival.
#[derive(Debug, Clone, Copy, PartialEq, Eq, Structural)]
pub struct ArrivalSection {
    pub from_datetime: UtcDateTime,
    pub to_datetime: UtcDateTime,
    pub from_stop_point: StopPointIdx,
}

/// A journey, section by section, with dates and times and the stop points of the model.
pub struct Response {
    pub departure: DepartureSection,
    pub first_vehicle: VehicleSection,
    pub connections: Vec<(TransferSection, WaitingSection, VehicleSection)>,
    pub arrival: ArrivalSection,
    pub loads_count: LoadsCount,
}

/// The date and time `seconds` after the start of the dataset of `data`.
pub open spec fn datetime_spec(data: TransitData, seconds: int) -> UtcDateTime {
    UtcDateTime { seconds_since_epoch: (data.first_datetime_view().seconds_since_epoch + seconds) as i64 }
}

impl Journey {
    /// The section of the vehicle leg at `idx`.
    pub open spec fn vehicle_section_spec(&self, data: TransitData, idx: VehicleLegIdx) -> VehicleSection {
        let leg = self.leg_spec(idx);
        VehicleSection {
            from_datetime: datetime_spec(data, data.board_time_spec(leg.trip, leg.board_position)->Some_0),
            to_datetime: datetime_spec(data, data.debark_time_spec(leg.trip, leg.debark_position)->Some_0),
            vehicle_journey: data.timetables_view().timetable(leg.trip.vehicle.timetable.idx as int).data_of_vehicle(leg.trip.vehicle.idx as int),
            day_for_vehicle_journey: leg.trip.day,
            from_stoptime_idx: leg.board_position.idx,
            to_stoptime_idx: leg.debark_position.idx,
        }
    }

    /// The section of the transfer of the connection at `idx`: it starts when the previous
    /// vehicle leg debarks, and lasts the duration of the transfer.
    pub open spec fn transfer_section_spec(&self, data: TransitData, idx: int) -> TransferSection {
        let previous_leg = if idx == 0 { self.first_vehicle_view() } else { self.connections_view()[idx - 1].1 };
        let previous_debark_time = data.debark_time_spec(previous_leg.trip, previous_leg.debark_position)->Some_0;
        let transfer = data.transfer_spec(self.connections_view()[idx].0);
        TransferSection {
            transfer: transfer.transfer_idx,
            from_datetime: datetime_spec(data, previous_debark_time),
            to_datetime: datetime_spec(data, previous_debark_time + transfer.duration),
            from_stop_point: StopPointIdx { idx: transfer.from_stop.idx },
            to_stop_point: StopPointIdx { idx: transfer.to_stop.idx },
        }
    }

    /// The sections of the connection at `idx`: its transfer, the wait for the next vehicle,
    /// and the vehicle leg.
    pub open spec fn connection_sections_spec(&self, data: TransitData, idx: int) -> (TransferSection, WaitingSection, VehicleSection) {
        let transfer_section = self.transfer_section_spec(data, idx);
        let vehicle_section = self.vehicle_section_spec(data, VehicleLegIdx::Connection(idx as usize));
        (
            transfer_section,
            WaitingSection {
                from_datetime: transfer_section.to_datetime,
                to_datetime: vehicle_section.from_datetime,
                stop_point: transfer_section.to_stop_point,
            },
            vehicle_section,
        )
    }

    pub open spec fn departure_section_spec(&self, data: TransitData) -> DepartureSection {
        DepartureSection {
            from_datetime: datetime_spec(data, self.departure_datetime_view() as int),
            to_datetime: datetime_spec(data, self.departure_datetime_view() + self.departure_fallback_view()),
            to_stop_point: StopPointIdx { idx: data.stop_spec(self.first_vehicle_view().debark_position).idx },
        }
    }

    pub open spec fn arrival_section_spec(&self, data: TransitData) -> ArrivalSection {
        let last_leg = self.last_leg_spec();
        let from_time = data.debark_time_spec(last_leg.trip, last_leg.debark_position)->Some_0;
        ArrivalSection {
            from_datetime: datetime_spec(data, from_time),
            to_datetime: datetime_spec(data, from_time + self.arrival_fallback_view()),
            from_stop_point: StopPointIdx { idx: data.stop_spec(last_leg.debark_position).idx },
        }
    }

    pub fn to_response(&self, data: &TransitData) -> (result: Response)
        requires
            self.is_valid_for(*data),
            self.departure_datetime_view() <= 0xffff_ffff,
        ensures
            result.departure == self.departure_section_spec(*data),
            result.first_vehicle == self.vehicle_section_spec(*data, VehicleLegIdx::First),
            result.connections@.len() == self.connections_view().len(),
            forall|i: int| 0 <= i < result.connections@.len() ==> #[trigger] result.connections@[i] == self.connection_sections_spec(*data, i),
            result.arrival == self.arrival_section_spec(*data),
            result.loads_count == self.loads_count_view(),
    {
        let mut connections: Vec<(TransferSection, WaitingSection, VehicleSection)> = Vec::new();
        let mut iter = self.connections(data);
        let nb_of_connections = self.connections.len();
        while iter.connection_idx < nb_of_connections
            invariant
                self.is_valid_for(*data),
                nb_of_connections == self.connections_view().len(),
                iter.journey_view() == *self,
                iter.data_view() == *data,
                iter.position() <= nb_of_connections,
                connections@.len() == iter.position(),
                forall|i: int| 0 <= i < connections@.len() ==> #[trigger] connections@[i] == self.connection_sections_spec(*data, i),
            decreases nb_of_connections - iter.position(),
        {
            let next = iter.next();
            match next {
                Some(sections) => connections.push(sections),
                None => {},
            }
        }
        Response {
            departure: self.departure_section(data),
            first_vehicle: self.first_vehicle_section(data),
            connections,
            arrival: self.arrival_section(data),
            loads_count: self.loads_count,
        }
    }

    pub fn departure_section(&self, data: &TransitData) -> (result: DepartureSection)
        requires
            self.is_valid_for(*data),
            self.departure_datetime_view() <= 0xffff_ffff,
        ensures
            result == self.departure_section_spec(*data),
    {
        let from_datetime = data.to_naive_datetime(&self.departure_datetime);
        let to_seconds = self.departure_datetime + self.departure_fallback_duration as u64;
        let to_datetime = data.to_naive_datetime(&to_seconds);
        let position = self.first_vehicle.debark_position;
        let trip = &self.first_vehicle.trip;
        let mission = data.mission_of(trip);
        let stop = data.stop_of(&position, &mission);
        let to_stop_point = data.stop_point_idx(&stop);
        DepartureSection { from_datetime, to_datetime, to_stop_point }
    }

    pub fn arrival_section(&self, data: &TransitData) -> (result: ArrivalSection)
        requires
            self.is_valid_for(*data),
        ensures
            result == self.arrival_section_spec(*data),
    {
        let from_time = self.last_vehicle_debark_time(data);
        let to_time = from_time + self.arrival_fallback_duration as u64;
        let last_vehicle_leg = self.last_vehicle_leg();
        proof {
            if self.connections@.len() > 0 {
                assert(leg_valid(*data, self.connections@[self.connections@.len() - 1].1));
            }
        }
        let position = &last_vehicle_leg.debark_position;
        let trip = &last_vehicle_leg.trip;
        let mission = data.mission_of(trip);
        let stop = data.stop_of(position, &mission);
        let stop_point = data.stop_point_idx(&stop);
        ArrivalSection {
            from_datetime: data.to_naive_datetime(&from_time),
            to_datetime: data.to_naive_datetime(&to_time),
            from_stop_point: stop_point,
        }
    }

    pub fn first_vehicle_section(&self, data: &TransitData) -> (result: VehicleSection)
        requires
            self.is_valid_for(*data),
        ensures
            result == self.vehicle_section_spec(*data, VehicleLegIdx::First),
    {
        self.vehicle_section(&VehicleLegIdx::First, data)
    }

    fn vehicle_section(&self, vehicle_leg_idx: &VehicleLegIdx, data: &TransitData) -> (result: VehicleSection)
        requires
            self.is_valid_for(*data),
            vehicle_leg_idx matches VehicleLegIdx::Connection(idx) ==> idx < self.connections_view().len(),
        ensures
            result == self.vehicle_section_spec(*data, *vehicle_leg_idx),
    {
        proof {
            self.lemma_valid_legs(*data);
        }
        let vehicle_leg = match vehicle_leg_idx {
            VehicleLegIdx::First => &self.first_vehicle,
            VehicleLegIdx::Connection(idx) => &self.connections[*idx].1,
        };
        proof {
            if let VehicleLegIdx::Connection(idx) = *vehicle_leg_idx {
                assert(leg_valid(*data, self.connections@[idx as int].1));
                assert(self.connections_view()[idx as int] == self.connections@[idx as int]);
            }
        }
        let trip = &vehicle_leg.trip;
        let vehicle_journey = data.vehicle_journey_idx(trip);
        let from_stoptime_idx = data.stoptime_idx(&vehicle_leg.board_position, trip);
        let to_stoptime_idx = data.stoptime_idx(&vehicle_leg.debark_position, trip);
        let board_time = data.board_time_of(trip, &vehicle_leg.board_position).unwrap().0;
        let debark_time = data.debark_time_of(trip, &vehicle_leg.debark_position).unwrap().0;
        proof {
            lemma_compose_bounds(trip.day, data.timetables_view().timetable(trip.vehicle.timetable.idx as int).vehicle_board_time(trip.vehicle.idx as int, vehicle_leg.board_position.idx as int));
            lemma_compose_bounds(trip.day, data.timetables_view().timetable(trip.vehicle.timetable.idx as int).vehicle_debark_time(trip.vehicle.idx as int, vehicle_leg.debark_position.idx as int));
        }
        let from_datetime = data.to_naive_datetime(&board_time);
        let to_datetime = data.to_naive_datetime(&debark_time);
        let day_for_vehicle_journey = data.day_of(trip);
        VehicleSection {
            from_datetime,
            to_datetime,
            from_stoptime_idx,
            to_stoptime_idx,
            vehicle_journey,
            day_for_vehicle_journey,
        }
    }

    fn transfer_section(&self, connection_idx: usize, data: &TransitData) -> (result: TransferSection)
        requires
            self.is_valid_for(*data),
            connection_idx < self.connections_view().len(),
        ensures
            result == self.transfer_section_spec(*data, connection_idx as int),
    {
        proof {
            self.lemma_valid_legs(*data);
            assert(data.valid_transfer(self.connections@[connection_idx as int].0));
            if connection_idx > 0 {
                assert(leg_valid(*data, self.connections@[connection_idx - 1].1));
                assert(self.connections_view()[connection_idx - 1] == self.connections@[connection_idx - 1]);
            }
        }
        let prev_vehicle_leg = if connection_idx == 0 {
            &self.first_vehicle
        } else {
            &self.connections[connection_idx - 1].1
        };
        let prev_trip = &prev_vehicle_leg.trip;
        let prev_debark_time = data.debark_time_of(prev_trip, &prev_vehicle_leg.debark_position).unwrap().0;
        proof {
            lemma_compose_bounds(prev_trip.day, data.timetables_view().timetable(prev_trip.vehicle.timetable.idx as int).vehicle_debark_time(prev_trip.vehicle.idx as int, prev_vehicle_leg.debark_position.idx as int));
        }
        let from_datetime = data.to_naive_datetime(&prev_debark_time);
        let transfer = &self.connections[connection_idx].0;
        let (transfer_from_stop, transfer_to_stop) = data.transfer_from_to_stop(transfer);
        let transfer_duration = data.transfer_duration(transfer);
        let end_transfer_time = prev_debark_time + transfer_duration as u64;
        let to_datetime = data.to_naive_datetime(&end_transfer_time);
        let to_stop_point = data.stop_point_idx(&transfer_to_stop);
        let from_stop_point = data.stop_point_idx(&transfer_from_stop);
        let transfer_idx = data.transfer_idx(transfer);
        TransferSection { transfer: transfer_idx, from_datetime, to_datetime, from_stop_point, to_stop_point }
    }

    pub fn connections<'journey, 'data>(&'journey self, data: &'data TransitData) -> (result: ConnectionIter<'journey, 'data>)
        requires
            self.is_valid_for(*data),
        ensures
            result.journey_view() == *self,
            result.data_view() == *data,
            result.position() == 0,
    {
        ConnectionIter { data, journey: self, connection_idx: 0 }
    }
}

/// The sections of the connections of a journey, one connection after the other.
pub struct ConnectionIter<'journey, 'data> {
    data: &'data TransitData,
    journey: &'journey Journey,
    connection_idx: usize,
}

impl<'journey, 'data> ConnectionIter<'journey, 'data> {
    pub closed spec fn journey_view(&self) -> Journey {
        *self.journey
    }

    pub closed spec fn data_view(&self) -> TransitData {
        *self.data
    }

    /// The index of the next connection.
    pub closed spec fn position(&self) -> int {
        self.connection_idx as int
    }

    /// The sections of the next connection, if any.
    pub fn next(&mut self) -> (result: Option<(TransferSection, WaitingSection, VehicleSection)>)
        requires
            old(self).journey_view().is_valid_for(old(self).data_view()),
        ensures
            final(self).journey_view() == old(self).journey_view(),
            final(self).data_view() == old(self).data_view(),
            old(self).position() >= old(self).journey_view().connections_view().len() ==> result is None
                && final(self).position() == old(self).position(),
            old(self).position() < old(self).journey_view().connections_view().len() ==> result == Some(
                old(self).journey_view().connection_sections_spec(old(self).data_view(), old(self).position()),
            ) && final(self).position() == old(self).position() + 1,
    {
        if self.connection_idx >= self.journey.connections.len() {
            return None;
        }
        let transfer_section = self.journey.transfer_section(self.connection_idx, self.data);
        let vehicle_section = self.journey.vehicle_section(&VehicleLegIdx::Connection(self.connection_idx), self.data);
        let waiting_section = WaitingSection {
            from_datetime: transfer_section.to_datetime,
            to_datetime: vehicle_section.from_datetime,
            stop_point: transfer_section.to_stop_point,
        };
        self.connection_idx = self.connection_idx + 1;
        Some((transfer_section, waiting_section, vehicle_section))
    }
}

/// The number of seconds from `from` to `to`.
pub open spec fn seconds_between(from: UtcDateTime, to: UtcDateTime) -> int {
    to.seconds_since_epoch - from.seconds_since_epoch
}

/// A value that an `i64` can hold.
pub open spec fn fits_i64(value: int) -> bool {
    i64::MIN <= value <= i64::MAX
}

/// The seconds spent in the vehicles of the first `n` connections.
pub open spec fn vehicle_durations(connections: Seq<(TransferSection, WaitingSection, VehicleSection)>, n: int) -> int
    decreases n,
{
    if n <= 0 {
        0
    } else {
        vehicle_durations(connections, n - 1) + seconds_between(connections[n - 1].2.from_datetime, connections[n - 1].2.to_datetime)
    }
}

/// The seconds spent walking in the transfers of the first `n` connections.
pub open spec fn transfer_durations(connections: Seq<(TransferSection, WaitingSection, VehicleSection)>, n: int) -> int
    decreases n,
{
    if n <= 0 {
        0
    } else {
        transfer_durations(connections, n - 1) + seconds_between(connections[n - 1].0.from_datetime, connections[n - 1].0.to_datetime)
    }
}

/// Appending a connection leaves the sums over the connections before it unchanged.
proof fn lemma_durations_prefix(
    connections: Seq<(TransferSection, WaitingSection, VehicleSection)>,
    connection: (TransferSection, WaitingSection, VehicleSection),
    n: int,
)
    requires
        0 <= n <= connections.len(),
    ensures
        transfer_durations(connections.push(connection), n) == transfer_durations(connections, n),
        vehicle_durations(connections.push(connection), n) == vehicle_durations(connections, n),
    decreases n,
{
    if n > 0 {
        lemma_durations_prefix(connections, connection, n - 1);
        assert(connections.push(connection)[n - 1] == connections[n - 1]);
    }
}

/// The time spent walking in transfers is the sum of the durations of all transfer sections:
/// nothing without connections, and appending a connection adds exactly the duration of its
/// transfer section. The same holds of the time spent in vehicles and the vehicle sections.
pub proof fn lemma_durations_sum(
    connections: Seq<(TransferSection, WaitingSection, VehicleSection)>,
    connection: (TransferSection, WaitingSection, VehicleSection),
)
    ensures
        transfer_durations(Seq::<(TransferSection, WaitingSection, VehicleSection)>::empty(), 0) == 0,
        vehicle_durations(Seq::<(TransferSection, WaitingSection, VehicleSection)>::empty(), 0) == 0,
        transfer_durations(connections.push(connection), connections.len() + 1int)
            == transfer_durations(connections, connections.len() as int)
            + seconds_between(connection.0.from_datetime, connection.0.to_datetime),
        vehicle_durations(connections.push(connection), connections.len() + 1int)
            == vehicle_durations(connections, connections.len() as int)
            + seconds_between(connection.2.from_datetime, connection.2.to_datetime),
{
    lemma_durations_prefix(connections, connection, connections.len() as int);
    assert(connections.push(connection)[connections.len() as int] == connection);
}

impl VehicleSection {
    fn duration_in_seconds(&self) -> (result: i64)
        requires
            fits_i64(seconds_between(self.from_datetime, self.to_datetime)),
        ensures
            result == seconds_between(self.from_datetime, self.to_datetime),
    {
        self.to_datetime.seconds_since_epoch - self.from_datetime.seconds_since_epoch
    }
}

impl TransferSection {
    fn duration_in_seconds(&self) -> (result: i64)
        requires
            fits_i64(seconds_between(self.from_datetime, self.to_datetime)),
        ensures
            result == seconds_between(self.from_datetime, self.to_datetime),
    {
        self.to_datetime.seconds_since_epoch - self.from_datetime.seconds_since_epoch
    }
}

impl ArrivalSection {
    fn duration_in_seconds(&self) -> (result: i64)
        requires
            fits_i64(seconds_between(self.from_datetime, self.to_datetime)),
        ensures
            result == seconds_between(self.from_datetime, self.to_datetime),
    {
        self.to_datetime.seconds_since_epoch - self.from_datetime.seconds_since_epoch
    }
}

impl DepartureSection {
    fn duration_in_seconds(&self) -> (result: i64)
        requires
            fits_i64(seconds_between(self.from_datetime, self.to_datetime)),
        ensures
            result == seconds_between(self.from_datetime, self.to_datetime),
    {
        self.to_datetime.seconds_since_epoch - self.from_datetime.seconds_since_epoch
    }
}

impl Response {
    pub fn nb_of_sections(&self) -> (result: usize)
        requires
            1 + 3 * self.connections@.len() <= usize::MAX,
        ensures
            result == 1 + 3 * self.connections@.len(),
    {
        1 + 3 * self.connections.len()
    }

    /// The sums of the durations of the vehicle sections after the first one can be computed.
    pub open spec fn vehicle_durations_fit(&self) -> bool {
        &&& forall|i: int| 0 <= i < self.connections@.len() ==> fits_i64(
            seconds_between((#[trigger] self.connections@[i]).2.from_datetime, self.connections@[i].2.to_datetime),
        )
        &&& forall|n: int| 0 <= n <= self.connections@.len() ==> fits_i64(#[trigger] vehicle_durations(self.connections@, n))
    }

    /// The sums of the durations of the transfer sections can be computed.
    pub open spec fn transfer_durations_fit(&self) -> bool {
        &&& forall|i: int| 0 <= i < self.connections@.len() ==> fits_i64(
            seconds_between((#[trigger] self.connections@[i]).0.from_datetime, self.connections@[i].0.to_datetime),
        )
        &&& forall|n: int| 0 <= n <= self.connections@.len() ==> fits_i64(#[trigger] transfer_durations(self.connections@, n))
    }

    /// number of seconds spent in public transport
    pub fn total_duration_in_pt(&self) -> (result: i64)
        requires
            fits_i64(seconds_between(self.first_vehicle.from_datetime, self.first_vehicle.to_datetime)),
            self.vehicle_durations_fit(),
            fits_i64(seconds_between(self.first_vehicle.from_datetime, self.first_vehicle.to_datetime)
                + vehicle_durations(self.connections@, self.connections@.len() as int)),
        ensures
            result == seconds_between(self.first_vehicle.from_datetime, self.first_vehicle.to_datetime)
                + vehicle_durations(self.connections@, self.connections@.len() as int),
    {
        let first_vehicle_duration = self.first_vehicle.duration_in_seconds();
        let mut remaining_duration: i64 = 0;
        let mut idx: usize = 0;
        while idx < self.connections.len()
            invariant
                idx <= self.connections@.len(),
                self.vehicle_durations_fit(),
                remaining_duration == vehicle_durations(self.connections@, idx as int),
            decreases self.connections@.len() - idx,
        {
            proof {
                assert(fits_i64(vehicle_durations(self.connections@, idx + 1)));
                assert(fits_i64(seconds_between(self.connections@[idx as int].2.from_datetime, self.connections@[idx as int].2.to_datetime)));
            }
            remaining_duration = remaining_duration + self.connections[idx].2.duration_in_seconds();
            idx = idx + 1;
        }
        first_vehicle_duration + remaining_duration
    }

    pub fn nb_of_transfers(&self) -> (result: usize)
        ensures
            result == self.connections@.len(),
    {
        self.connections.len()
    }

    pub fn first_vehicle_board_datetime(&self) -> (result: UtcDateTime)
        ensures
            result == self.first_vehicle.from_datetime,
    {
        self.first_vehicle.from_datetime
    }

    pub fn last_vehicle_debark_datetime(&self) -> (result: UtcDateTime)
        ensures
            result == if self.connections@.len() == 0 {
                self.first_vehicle.to_datetime
            } else {
                self.connections@.last().2.to_datetime
            },
    {
        let nb_of_connections = self.connections.len();
        if nb_of_connections == 0 {
            self.first_vehicle.to_datetime
        } else {
            self.connections[nb_of_connections - 1].2.to_datetime
        }
    }

    /// number of seconds spent walking in transfers
    pub fn total_transfer_duration(&self) -> (result: i64)
        requires
            self.transfer_durations_fit(),
        ensures
            result == transfer_durations(self.connections@, self.connections@.len() as int),
    {
        let mut result: i64 = 0;
        let mut idx: usize = 0;
        while idx < self.connections.len()
            invariant
                idx <= self.connections@.len(),
                self.transfer_durations_fit(),
                result == transfer_durations(self.connections@, idx as int),
            decreases self.connections@.len() - idx,
        {
            proof {
                assert(fits_i64(transfer_durations(self.connections@, idx + 1)));
                assert(fits_i64(seconds_between(self.connections@[idx as int].0.from_datetime, self.connections@[idx as int].0.to_datetime)));
            }
            result = result + self.connections[idx].0.duration_in_seconds();
            idx = idx + 1;
        }
        result
    }

    /// The number of seconds spent walking from the departure and to the arrival.
    pub open spec fn fallback_duration_spec(&self) -> int {
        seconds_between(self.departure.from_datetime, self.departure.to_datetime)
            + seconds_between(self.arrival.from_datetime, self.arrival.to_datetime)
    }

    pub fn total_fallback_duration(&self) -> (result: i64)
        requires
            fits_i64(seconds_between(self.departure.from_datetime, self.departure.to_datetime)),
            fits_i64(seconds_between(self.arrival.from_datetime, self.arrival.to_datetime)),
            fits_i64(self.fallback_duration_spec()),
        ensures
            result == self.fallback_duration_spec(),
    {
        self.departure.duration_in_seconds() + self.arrival.duration_in_seconds()
    }

    pub fn total_walking_duration(&self) -> (result: i64)
        requires
            fits_i64(seconds_between(self.departure.from_datetime, self.departure.to_datetime)),
            fits_i64(seconds_between(self.arrival.from_datetime, self.arrival.to_datetime)),
            fits_i64(self.fallback_duration_spec()),
            self.transfer_durations_fit(),
            fits_i64(self.fallback_duration_spec() + transfer_durations(self.connections@, self.connections@.len() as int)),
        ensures
            result == self.fallback_duration_spec() + transfer_durations(self.connections@, self.connections@.len() as int),
    {
        self.total_fallback_duration() + self.total_transfer_duration()
    }

    pub fn total_duration(&self) -> (result: i64)
        requires
            fits_i64(seconds_between(self.departure.from_datetime, self.arrival.to_datetime)),
        ensures
            result == seconds_between(self.departure.from_datetime, self.arrival.to_datetime),
    {
        self.arrival.to_datetime.seconds_since_epoch - self.departure.from_datetime.seconds_since_epoch
    }

    pub fn nb_of_vehicles(&self) -> (result: usize)
        requires
            self.connections@.len() < usize::MAX,
        ensures
            result == self.connections@.len() + 1,
    {
        self.connections.len() + 1
    }
}

/// Formatting errors, as std reports them.
#[verifier::external_type_specification]
#[verifier::external_body]
pub struct ExFmtError(std::fmt::Error);

/// Dates and times in this range of seconds around 1970-01-01 can be written.
pub const MAX_DATETIME_SECONDS: i64 = 0x400_0000_0000;

/// How chrono writes, with the format `%H:%M:%S %d-%b-%y` (as in `23:56:04 05-Sep-15`),
/// the UTC date and time `seconds_since_epoch` seconds after 1970-01-01 00:00:00.
pub uninterp spec fn datetime_text(seconds_since_epoch: i64) -> Seq<char>;

/// Writes a date and time with chrono: `NaiveDateTime::from_timestamp` (which panics only out of
/// chrono's range of about 262,000 years around year 0, far wider than the range required here)
/// then `NaiveDateTime::format`. The contract claims that the text is `datetime_text` of the
/// number of seconds, and nothing more.
#[verifier::external_body]
fn write_date(date: &UtcDateTime) -> (result: String)
    requires
        -MAX_DATETIME_SECONDS <= date.seconds_since_epoch <= MAX_DATETIME_SECONDS,
    ensures
        result@ == datetime_text(date.seconds_since_epoch),
{
    #[allow(deprecated)]
    let datetime = chrono::NaiveDateTime::from_timestamp(date.seconds_since_epoch, 0);
    datetime.format("%H:%M:%S %d-%b-%y").to_string()
}

/// A duration in seconds written as `1h02m03s`, `2m03s` or `3s`.
fn write_duration(seconds: i64) -> (result: String)
    ensures
        result@ == duration_text(seconds as int),
{
    let mut result = String::new();
    write_duration_text(&mut result, seconds);
    result
}

impl Journey {
    fn write_date(date: &UtcDateTime) -> (result: String)
        requires
            -MAX_DATETIME_SECONDS <= date.seconds_since_epoch <= MAX_DATETIME_SECONDS,
        ensures
            result@ == datetime_text(date.seconds_since_epoch),
    {
        write_date(date)
    }

    /// The model knows the vehicle journeys and the stop points of all the vehicle legs.
    pub open spec fn names_known(&self, data: TransitData, model: ModelRefs) -> bool {
        &&& leg_names_known(data, model, self.first_vehicle_view())
        &&& forall|i: int| 0 <= i < self.connections_view().len() ==> leg_names_known(data, model, (#[trigger] self.connections_view()[i]).1)
    }

    /// The text of the first `n` vehicle legs after the first one.
    pub open spec fn connections_text(&self, data: TransitData, model: ModelRefs, n: int) -> Seq<char>
        decreases n,
    {
        if n <= 0 {
            Seq::empty()
        } else {
            self.connections_text(data, model, n - 1) + leg_text(data, model, self.connections_view()[n - 1].1)
        }
    }

    /// The text of the journey: its arrival, its durations, its number of vehicles, its loads,
    /// its departure, and then one line per vehicle leg.
    pub open spec fn journey_text(&self, data: TransitData, model: ModelRefs) -> Seq<char> {
        self.header_text(data) + leg_text(data, model, self.first_vehicle_view())
            + self.connections_text(data, model, self.connections_view().len() as int)
    }

    /// The lines of the journey before those of its vehicle legs.
    pub open spec fn header_text(&self, data: TransitData) -> Seq<char> {
        header_lines(
            "Fallback  total: "@,
            datetime_text(datetime_spec(data, self.arrival_spec(data)).seconds_since_epoch),
            self.transfer_durations_spec(data, self.connections_view().len() as int),
            self.connections_view().len() + 1,
            self.departure_fallback_view() as int,
            self.arrival_fallback_view() as int,
            self.loads_count_view(),
            datetime_text(datetime_spec(data, self.departure_datetime_view() as int).seconds_since_epoch),
        )
    }

    /// What `write` needs: a valid journey whose durations can be summed, that leaves at a time
    /// of the dataset, and whose names the model knows.
    pub open spec fn can_be_written(&self, data: TransitData, model: ModelRefs) -> bool {
        &&& self.is_valid_for(data)
        &&& self.transfer_durations_spec(data, self.connections_view().len() as int) <= u32::MAX
        &&& self.connections_view().len() < usize::MAX
        &&& self.departure_fallback_view() + self.arrival_fallback_view() <= u32::MAX
        &&& self.departure_datetime_view() <= MAX_DATASET_SECONDS
        &&& self.names_known(data, model)
    }

    pub fn print(&self, data: &TransitData, model: &ModelRefs) -> (result: Result<String, std::fmt::Error>)
        requires
            self.can_be_written(*data, *model),
        ensures
            result matches Ok(text) && text@ == self.journey_text(*data, *model),
    {
        let mut result = String::new();
        self.write(data, model, &mut result)?;
        Ok(result)
    }

    pub fn write(&self, data: &TransitData, model: &ModelRefs, writer: &mut String) -> (result: Result<(), std::fmt::Error>)
        requires
            self.can_be_written(*data, *model),
        ensures
            result is Ok,
            final(writer)@ == old(writer)@ + self.journey_text(*data, *model),
    {
        let ghost start = writer@;
        self.write_header(data, writer);
        let ghost header = writer@;
        proof {
            self.lemma_valid_legs(*data);
        }
        self.write_vehicle_leg(&self.first_vehicle, data, model, writer)?;
        let nb_of_connections = self.connections.len();
        let mut idx: usize = 0;
        while idx < nb_of_connections
            invariant
                self.can_be_written(*data, *model),
                nb_of_connections == self.connections_view().len(),
                idx <= nb_of_connections,
                writer@ == header + leg_text(*data, *model, self.first_vehicle_view()) + self.connections_text(*data, *model, idx as int),
            decreases nb_of_connections - idx,
        {
            proof {
                self.lemma_valid_legs(*data);
                assert(leg_valid(*data, self.connections@[idx as int].1));
                assert(leg_names_known(*data, *model, self.connections_view()[idx as int].1));
                assert(self.connections_view()[idx as int] == self.connections@[idx as int]);
            }
            self.write_vehicle_leg(&self.connections[idx].1, data, model, writer)?;
            proof {
                assert(writer@ =~= header + leg_text(*data, *model, self.first_vehicle_view()) + self.connections_text(*data, *model, idx + 1));
            }
            idx = idx + 1;
        }
        assert(writer@ =~= start + self.journey_text(*data, *model));
        Ok(())
    }

    #[verifier::rlimit(50)]
    fn write_header(&self, data: &TransitData, writer: &mut String)
        requires
            self.is_valid_for(*data),
            self.transfer_durations_spec(*data, self.connections_view().len() as int) <= u32::MAX,
            self.connections_view().len() < usize::MAX,
            self.departure_fallback_view() + self.arrival_fallback_view() <= u32::MAX,
            self.departure_datetime_view() <= MAX_DATASET_SECONDS,
        ensures
            final(writer)@ == old(writer)@ + self.header_text(*data),
    {
        let arrival_time = self.arrival(data);
        let arrival_datetime = data.to_naive_datetime(&arrival_time);
        let arrival_text = Self::write_date(&arrival_datetime);
        let transfer_duration = self.total_transfer_duration(data);
        let nb_of_legs = self.nb_of_legs();
        let departure_datetime = data.to_naive_datetime(&self.departure_datetime);
        let departure_text = Self::write_date(&departure_datetime);
        write_header_lines(
            writer,
            "Fallback  total: ",
            arrival_text.as_str(),
            transfer_duration as i64,
            nb_of_legs as u64,
            self.departure_fallback_duration as i64,
            self.arrival_fallback_duration as i64,
            &self.loads_count,
            departure_text.as_str(),
        );
        assert(final(writer)@ =~= old(writer)@ + self.header_text(*data));
    }

    fn write_vehicle_leg(&self, vehicle_leg: &VehicleLeg, data: &TransitData, model: &ModelRefs, writer: &mut String) -> (result: Result<(), std::fmt::Error>)
        requires
            data.wf(),
            leg_valid(*data, *vehicle_leg),
            data.board_time_spec(vehicle_leg.trip, vehicle_leg.board_position) is Some,
            data.debark_time_spec(vehicle_leg.trip, vehicle_leg.debark_position) is Some,
            leg_names_known(*data, *model, *vehicle_leg),
        ensures
            result is Ok,
            final(writer)@ == old(writer)@ + leg_text(*data, *model, *vehicle_leg),
    {
        let trip = &vehicle_leg.trip;
        let vehicle_journey_idx = data.vehicle_journey_idx(trip);
        let line_id = model.line_name(&vehicle_journey_idx);
        let mission = data.mission_of(trip);
        let from_stop = data.stop_of(&vehicle_leg.board_position, &mission);
        let to_stop = data.stop_of(&vehicle_leg.debark_position, &mission);
        let from_stop_idx = data.stop_point_idx(&from_stop);
        let to_stop_idx = data.stop_point_idx(&to_stop);
        let from_stop_id = model.stop_point_name(&from_stop_idx);
        let to_stop_id = model.stop_point_name(&to_stop_idx);
        let board_time = data.board_time_of(trip, &vehicle_leg.board_position).unwrap().0;
        let debark_time = data.debark_time_of(trip, &vehicle_leg.debark_position).unwrap().0;
        proof {
            lemma_compose_bounds(trip.day, data.timetables_view().timetable(trip.vehicle.timetable.idx as int).vehicle_board_time(trip.vehicle.idx as int, vehicle_leg.board_position.idx as int));
            lemma_compose_bounds(trip.day, data.timetables_view().timetable(trip.vehicle.timetable.idx as int).vehicle_debark_time(trip.vehicle.idx as int, vehicle_leg.debark_position.idx as int));
        }
        let board_datetime = data.to_naive_datetime(&board_time);
        let debark_datetime = data.to_naive_datetime(&debark_time);
        let from_datetime = Self::write_date(&board_datetime);
        let to_datetime = Self::write_date(&debark_datetime);
        writer.append(line_id);
        writer.append(" from ");
        writer.append(from_stop_id);
        writer.append(" at ");
        writer.append(from_datetime.as_str());
        writer.append(" to ");
        writer.append(to_stop_id);
        writer.append(" at ");
        writer.append(to_datetime.as_str());
        writer.append(" \n");
        assert(final(writer)@ =~= old(writer)@ + leg_text(*data, *model, *vehicle_leg));
        Ok(())
    }
}

/// The lines of a journey before those of its vehicle legs, from what they show.
pub open spec fn header_lines(
    fallback_label: Seq<char>,
    arrival: Seq<char>,
    transfer_duration: int,
    nb_of_vehicles: nat,
    departure_fallback: int,
    arrival_fallback: int,
    loads_count: LoadsCount,
    departure: Seq<char>,
) -> Seq<char> {
    header_start(arrival, transfer_duration, nb_of_vehicles)
        + header_end(fallback_label, departure_fallback, arrival_fallback, loads_count, departure)
}

/// The first lines of a journey: its arrival, its transfer duration and its number of vehicles.
pub open spec fn header_start(arrival: Seq<char>, transfer_duration: int, nb_of_vehicles: nat) -> Seq<char> {
    "*** New journey ***\n"@
        + "Arrival : "@ + arrival + "\n"@
        + "Transfer duration : "@ + duration_text(transfer_duration) + "\n"@
        + "Nb of vehicles : "@ + decimal(nb_of_vehicles) + "\n"@
}

/// The next lines of a journey: its fallback durations, its loads and its departure.
pub open spec fn header_end(
    fallback_label: Seq<char>,
    departure_fallback: int,
    arrival_fallback: int,
    loads_count: LoadsCount,
    departure: Seq<char>,
) -> Seq<char> {
    fallback_label + duration_text(departure_fallback + arrival_fallback)
        + ", start "@ + duration_text(departure_fallback)
        + ", end "@ + duration_text(arrival_fallback) + "\n"@
        + "Loads : "@ + loads_count_text(loads_count) + "\n"@
        + "Departure : "@ + departure + "\n"@
}

fn write_header_lines(
    writer: &mut String,
    fallback_label: &str,
    arrival: &str,
    transfer_duration: i64,
    nb_of_vehicles: u64,
    departure_fallback: i64,
    arrival_fallback: i64,
    loads_count: &LoadsCount,
    departure: &str,
)
    requires
        fits_i64(departure_fallback + arrival_fallback),
    ensures
        final(writer)@ == old(writer)@ + header_lines(
            fallback_label@,
            arrival@,
            transfer_duration as int,
            nb_of_vehicles as nat,
            departure_fallback as int,
            arrival_fallback as int,
            *loads_count,
            departure@,
        ),
{
    write_header_start(writer, arrival, transfer_duration, nb_of_vehicles);
    write_header_end(writer, fallback_label, departure_fallback, arrival_fallback, loads_count, departure);
    assert(final(writer)@ =~= old(writer)@ + header_lines(
        fallback_label@,
        arrival@,
        transfer_duration as int,
        nb_of_vehicles as nat,
        departure_fallback as int,
        arrival_fallback as int,
        *loads_count,
        departure@,
    ));
}

fn write_header_start(writer: &mut String, arrival: &str, transfer_duration: i64, nb_of_vehicles: u64)
    ensures
        final(writer)@ == old(writer)@ + header_start(arrival@, transfer_duration as int, nb_of_vehicles as nat),
{
    writer.append("*** New journey ***\n");
    writer.append("Arrival : ");
    writer.append(arrival);
    writer.append("\n");
    writer.append("Transfer duration : ");
    write_duration_text(writer, transfer_duration);
    writer.append("\n");
    writer.append("Nb of vehicles : ");
    write_decimal(writer, nb_of_vehicles);
    writer.append("\n");
    assert(final(writer)@ =~= old(writer)@ + header_start(arrival@, transfer_duration as int, nb_of_vehicles as nat));
}

#[verifier::rlimit(40)]
fn write_header_end(
    writer: &mut String,
    fallback_label: &str,
    departure_fallback: i64,
    arrival_fallback: i64,
    loads_count: &LoadsCount,
    departure: &str,
)
    requires
        fits_i64(departure_fallback + arrival_fallback),
    ensures
        final(writer)@ == old(writer)@ + header_end(fallback_label@, departure_fallback as int, arrival_fallback as int,
            *loads_count, departure@),
{
    writer.append(fallback_label);
    let total_fallback: i64 = departure_fallback + arrival_fallback;
    write_duration_text(writer, total_fallback);
    writer.append(", start ");
    write_duration_text(writer, departure_fallback);
    writer.append(", end ");
    write_duration_text(writer, arrival_fallback);
    writer.append("\n");
    writer.append("Loads : ");
    loads_count.write(writer);
    writer.append("\n");
    writer.append("Departure : ");
    writer.append(departure);
    writer.append("\n");
    assert(final(writer)@ =~= old(writer)@ + header_end(fallback_label@, departure_fallback as int, arrival_fallback as int,
        *loads_count, departure@));
}

/// The model knows the vehicle journey and both stop points of the leg.
pub open spec fn leg_names_known(data: TransitData, model: ModelRefs, leg: VehicleLeg) -> bool {
    &&& model.knows_vehicle_journey(
        data.timetables_view().timetable(leg.trip.vehicle.timetable.idx as int).data_of_vehicle(leg.trip.vehicle.idx as int),
    )
    &&& model.knows_stop_point(StopPointIdx { idx: data.stop_spec(leg.board_position).idx })
    &&& model.knows_stop_point(StopPointIdx { idx: data.stop_spec(leg.debark_position).idx })
}

/// The line of a vehicle leg: the name of the line, and where and when it boards and debarks.
pub open spec fn leg_text(data: TransitData, model: ModelRefs, leg: VehicleLeg) -> Seq<char> {
    let vehicle_journey = data.timetables_view().timetable(leg.trip.vehicle.timetable.idx as int).data_of_vehicle(leg.trip.vehicle.idx as int);
    let from_stop = data.stop_spec(leg.board_position);
    let to_stop = data.stop_spec(leg.debark_position);
    let board = datetime_spec(data, data.board_time_spec(leg.trip, leg.board_position)->Some_0);
    let debark = datetime_spec(data, data.debark_time_spec(leg.trip, leg.debark_position)->Some_0);
    model.line_names@[vehicle_journey.idx as int]@ + " from "@ + model.stop_point_names@[from_stop.idx as int]@
        + " at "@ + datetime_text(board.seconds_since_epoch) + " to "@ + model.stop_point_names@[to_stop.idx as int]@
        + " at "@ + datetime_text(debark.seconds_since_epoch) + " \n"@
}

/// A date and time that can be written.
pub open spec fn writable(datetime: UtcDateTime) -> bool {
    -MAX_DATETIME_SECONDS <= datetime.seconds_since_epoch <= MAX_DATETIME_SECONDS
}

/// The name of the stop point of a stop time of a vehicle journey, or `unknown_stop`.
pub open spec fn stop_name_or_unknown(model: ModelRefs, vehicle_journey: VehicleJourneyIdx, stop_time_idx: usize) -> Seq<char> {
    match model.stop_point_at_spec(vehicle_journey, stop_time_idx) {
        Some(stop_point) => model.stop_point_names@[stop_point.idx as int]@,
        None => "unknown_stop"@,
    }
}

/// The line of a vehicle section: the name of the line, and where and when it boards and debarks.
pub open spec fn section_text(model: ModelRefs, section: VehicleSection) -> Seq<char> {
    model.line_names@[section.vehicle_journey.idx as int]@ + " from "@
        + stop_name_or_unknown(model, section.vehicle_journey, section.from_stoptime_idx) + " at "@
        + datetime_text(section.from_datetime.seconds_since_epoch) + " to "@
        + stop_name_or_unknown(model, section.vehicle_journey, section.to_stoptime_idx) + " at "@
        + datetime_text(section.to_datetime.seconds_since_epoch) + " \n"@
}

impl VehicleSection {
    /// The section can be written with the names of `model`.
    pub open spec fn can_be_written(&self, model: ModelRefs) -> bool {
        &&& model.wf()
        &&& model.knows_vehicle_journey(self.vehicle_journey)
        &&& writable(self.from_datetime)
        &&& writable(self.to_datetime)
    }

    pub fn from_stop_point_name<'a>(&self, model: &'a ModelRefs) -> (result: Option<&'a str>)
        requires
            model.wf(),
            model.knows_vehicle_journey(self.vehicle_journey),
        ensures
            match model.stop_point_at_spec(self.vehicle_journey, self.from_stoptime_idx) {
                Some(stop_point) => result matches Some(name) && name@ == model.stop_point_names@[stop_point.idx as int]@,
                None => result is None,
            },
    {
        match model.stop_point_at(&self.vehicle_journey, self.from_stoptime_idx, &self.day_for_vehicle_journey) {
            Some(idx) => Some(model.stop_point_name(&idx)),
            None => None,
        }
    }

    pub fn to_stop_point_name<'a>(&self, model: &'a ModelRefs) -> (result: Option<&'a str>)
        requires
            model.wf(),
            model.knows_vehicle_journey(self.vehicle_journey),
        ensures
            match model.stop_point_at_spec(self.vehicle_journey, self.to_stoptime_idx) {
                Some(stop_point) => result matches Some(name) && name@ == model.stop_point_names@[stop_point.idx as int]@,
                None => result is None,
            },
    {
        match model.stop_point_at(&self.vehicle_journey, self.to_stoptime_idx, &self.day_for_vehicle_journey) {
            Some(idx) => Some(model.stop_point_name(&idx)),
            None => None,
        }
    }

    fn write(&self, model: &ModelRefs, writer: &mut String) -> (result: Result<(), std::fmt::Error>)
        requires
            self.can_be_written(*model),
        ensures
            result is Ok,
            final(writer)@ == old(writer)@ + section_text(*model, *self),
    {
        let vehicle_journey_idx = &self.vehicle_journey;
        let line_id = model.line_name(vehicle_journey_idx);
        proof {
            reveal_strlit("unknown_stop");
        }
        let from_stop_id = match self.from_stop_point_name(model) {
            Some(name) => name,
            None => "unknown_stop",
        };
        let to_stop_id = match self.to_stop_point_name(model) {
            Some(name) => name,
            None => "unknown_stop",
        };
        let from_datetime = write_date(&self.from_datetime);
        let to_datetime = write_date(&self.to_datetime);
        writer.append(line_id);
        writer.append(" from ");
        writer.append(from_stop_id);
        writer.append(" at ");
        writer.append(from_datetime.as_str());
        writer.append(" to ");
        writer.append(to_stop_id);
        writer.append(" at ");
        writer.append(to_datetime.as_str());
        writer.append(" \n");
        assert(final(writer)@ =~= old(writer)@ + section_text(*model, *self));
        Ok(())
    }
}

impl Response {
    pub fn first_vj_uri<'model>(&self, model: &'model ModelRefs) -> (result: &'model str)
        requires
            model.knows_vehicle_journey(self.first_vehicle.vehicle_journey),
        ensures
            result@ == model.vehicle_journey_names@[self.first_vehicle.vehicle_journey.idx as int]@,
    {
        let idx = &self.first_vehicle.vehicle_journey;
        model.vehicle_journey_name(idx)
    }

    /// The text of the vehicle sections of the first `n` connections.
    pub open spec fn connections_text(&self, model: ModelRefs, n: int) -> Seq<char>
        decreases n,
    {
        if n <= 0 {
            Seq::empty()
        } else {
            self.connections_text(model, n - 1) + section_text(model, self.connections@[n - 1].2)
        }
    }

    /// The text of the response: its arrival, its durations, its number of vehicles, its loads,
    /// its departure, and then one line per vehicle section.
    pub open spec fn response_text(&self, model: ModelRefs) -> Seq<char> {
        header_lines(
            "Fallback total: "@,
            datetime_text(self.arrival.to_datetime.seconds_since_epoch),
            transfer_durations(self.connections@, self.connections@.len() as int),
            self.connections@.len() + 1,
            seconds_between(self.departure.from_datetime, self.departure.to_datetime),
            seconds_between(self.arrival.from_datetime, self.arrival.to_datetime),
            self.loads_count,
            datetime_text(self.departure.from_datetime.seconds_since_epoch),
        ) + section_text(model, self.first_vehicle) + self.connections_text(model, self.connections@.len() as int)
    }

    /// What `write` needs: durations that can be computed, dates that can be written, and
    /// vehicle journeys that the model knows.
    pub open spec fn can_be_written(&self, model: ModelRefs) -> bool {
        &&& self.transfer_durations_fit()
        &&& fits_i64(seconds_between(self.departure.from_datetime, self.departure.to_datetime))
        &&& fits_i64(seconds_between(self.arrival.from_datetime, self.arrival.to_datetime))
        &&& fits_i64(self.fallback_duration_spec())
        &&& self.connections@.len() < usize::MAX
        &&& writable(self.arrival.to_datetime)
        &&& writable(self.departure.from_datetime)
        &&& self.first_vehicle.can_be_written(model)
        &&& forall|i: int| 0 <= i < self.connections@.len() ==> (#[trigger] self.connections@[i]).2.can_be_written(model)
    }

    pub fn print(&self, model: &ModelRefs) -> (result: Result<String, std::fmt::Error>)
        requires
            self.can_be_written(*model),
        ensures
            result matches Ok(text) && text@ == self.response_text(*model),
    {
        let mut result = String::new();
        self.write(model, &mut result)?;
        Ok(result)
    }

    pub fn write(&self, model: &ModelRefs, writer: &mut String) -> (result: Result<(), std::fmt::Error>)
        requires
            self.can_be_written(*model),
        ensures
            result is Ok,
            final(writer)@ == old(writer)@ + self.response_text(*model),
    {
        let ghost start = writer@;
        let arrival_text = write_date(&self.arrival.to_datetime);
        let transfer_duration = self.total_transfer_duration();
        let nb_of_vehicles = self.nb_of_vehicles();
        let departure_text = write_date(&self.departure.from_datetime);
        write_header_lines(
            writer,
            "Fallback total: ",
            arrival_text.as_str(),
            transfer_duration,
            nb_of_vehicles as u64,
            self.departure.duration_in_seconds(),
            self.arrival.duration_in_seconds(),
            &self.loads_count,
            departure_text.as_str(),
        );
        let ghost header = writer@;
        self.first_vehicle.write(model, writer)?;
        let nb_of_connections = self.connections.len();
        let mut idx: usize = 0;
        while idx < nb_of_connections
            invariant
                self.can_be_written(*model),
                nb_of_connections == self.connections@.len(),
                idx <= nb_of_connections,
                writer@ == header + section_text(*model, self.first_vehicle) + self.connections_text(*model, idx as int),
            decreases nb_of_connections - idx,
        {
            proof {
                assert(self.connections@[idx as int].2.can_be_written(*model));
            }
            self.connections[idx].2.write(model, writer)?;
            proof {
                assert(writer@ =~= header + section_text(*model, self.first_vehicle) + self.connections_text(*model, idx + 1));
            }
            idx = idx + 1;
        }
        assert(writer@ =~= start + self.response_text(*model));
        Ok(())
    }
}

/// The leg debarks downstream of where it boards, or where it boards, and can be boarded and
/// debarked there.
pub open spec fn leg_ok(data: TransitData, leg: VehicleLeg) -> bool {
    &&& leg.board_position.idx <= leg.debark_position.idx
    &&& data.board_time_spec(leg.trip, leg.board_position) is Some
    &&& data.debark_time_spec(leg.trip, leg.debark_position) is Some
}

/// The vehicle leg just before the transfer of connection `i`: the first leg for the first
/// connection, else the leg of the connection before.
pub open spec fn leg_before(first: VehicleLeg, connections: Seq<(Transfer, VehicleLeg)>, i: int) -> VehicleLeg {
    if i == 0 {
        first
    } else {
        connections[i - 1].1
    }
}

/// Connection `i` fits the journey: its transfer starts at the stop where the leg before it
/// debarks, ends at the stop where its own leg boards, and ends no later than that leg's board
/// time, counted from the debark time of the leg before; its own leg is ok.
pub open spec fn connection_ok(
    data: TransitData,
    first: VehicleLeg,
    connections: Seq<(Transfer, VehicleLeg)>,
    i: int,
) -> bool {
    let transfer = data.transfer_spec(connections[i].0);
    let leg = connections[i].1;
    let previous = leg_before(first, connections, i);
    &&& transfer.from_stop == data.stop_spec(previous.debark_position)
    &&& transfer.to_stop == data.stop_spec(leg.board_position)
    &&& leg_ok(data, leg)
    &&& data.debark_time_spec(previous.trip, previous.debark_position)->Some_0 + transfer.duration
        <= data.board_time_spec(leg.trip, leg.board_position)->Some_0
}

/// From `idx` on, the connections have no problem exactly when each of them fits the journey,
/// when the walk starts from the leg before connection `idx`.
proof fn lemma_connections_error_from_none(
    data: TransitData,
    first: VehicleLeg,
    connections: Seq<(Transfer, VehicleLeg)>,
    idx: int,
    previous_time: int,
)
    requires
        0 <= idx <= connections.len(),
        data.debark_time_spec(leg_before(first, connections, idx).trip, leg_before(first, connections, idx).debark_position)
            == Some(previous_time),
    ensures
        connections_error_from(
            data,
            connections,
            idx,
            data.stop_spec(leg_before(first, connections, idx).debark_position),
            previous_time,
            leg_before(first, connections, idx),
        ) is None <==> forall|i: int| idx <= i < connections.len() ==> #[trigger] connection_ok(data, first, connections, i),
    decreases connections.len() - idx,
{
    if idx < connections.len() {
        let leg = connections[idx].1;
        assert(leg_before(first, connections, idx + 1) == leg);
        if connection_ok(data, first, connections, idx) {
            lemma_connections_error_from_none(
                data,
                first,
                connections,
                idx + 1,
                data.debark_time_spec(leg.trip, leg.debark_position)->Some_0,
            );
            if forall|i: int| idx + 1 <= i < connections.len() ==> #[trigger] connection_ok(data, first, connections, i) {
                assert forall|i: int| idx <= i < connections.len() implies #[trigger] connection_ok(data, first, connections, i) by {
                    if i > idx {
                        assert(idx + 1 <= i < connections.len());
                    }
                }
            }
        }
    }
}

/// A sequence of vehicle legs and transfers has no problem exactly when the first leg is ok and
/// every connection fits the journey: its transfer starts where the leg before debarks, ends
/// where its own leg boards, and ends no later than that leg leaves, and its leg is ok.
pub proof fn lemma_journey_error_none(data: TransitData, first: VehicleLeg, connections: Seq<(Transfer, VehicleLeg)>)
    ensures
        journey_error(data, first, connections) is None <==> leg_ok(data, first)
            && forall|i: int| 0 <= i < connections.len() ==> #[trigger] connection_ok(data, first, connections, i),
{
    if leg_ok(data, first) {
        assert(leg_before(first, connections, 0) == first);
        lemma_connections_error_from_none(
            data,
            first,
            connections,
            0,
            data.debark_time_spec(first.trip, first.debark_position)->Some_0,
        );
    }
}

/// In a sequence of connections without problem from `idx` on, every vehicle leg from `idx` on
/// can be boarded and debarked.
proof fn lemma_connections_valid(
    data: TransitData,
    connections: Seq<(Transfer, VehicleLeg)>,
    idx: int,
    previous_stop: Stop,
    previous_time: int,
    previous_leg: VehicleLeg,
    k: int,
)
    requires
        connections_error_from(data, connections, idx, previous_stop, previous_time, previous_leg) is None,
        0 <= idx <= k < connections.len(),
    ensures
        data.board_time_spec(connections[k].1.trip, connections[k].1.board_position) is Some,
        data.debark_time_spec(connections[k].1.trip, connections[k].1.debark_position) is Some,
    decreases k - idx,
{
    if idx < k {
        let leg = connections[idx].1;
        lemma_connections_valid(
            data,
            connections,
            idx + 1,
            data.stop_spec(leg.debark_position),
            data.debark_time_spec(leg.trip, leg.debark_position)->Some_0,
            leg,
            k,
        );
    }
}

} // verus!
