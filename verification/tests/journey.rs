use loki::loads_data::{Load, LoadsCount};
use loki::models::{ModelRefs, StopPointIdx, TransferIdx, VehicleJourneyIdx};
use loki::request::generic_request::{
    mission_name, position_name, stop_name, trip_name, MaximizeDepartureTimeError, MinimizeArrivalTimeError,
};
use loki::response::{BadJourney, Journey, JourneyError, VehicleLeg, VehicleLegIdx};
use loki::time::{DaysSinceDatasetStart, UtcDateTime};
use loki::timetables::generic_timetables::{Position, Timetable, Trip, Vehicle};
use loki::timetables::FlowDirection;
use loki::transit_data::data_interface::{Transfer, TransitData};
use loki::transit_data::Stop;

struct Network {
    data: TransitData,
    line_a: Timetable,
    line_b: Timetable,
    transfer: Transfer,
}

/// Line A runs from stop 0 (8:00) to stop 2 (8:20), line B from stop 3 (8:30) to stop 4 (8:50),
/// and one walks from stop 2 to stop 3 in 5 minutes.
fn network(transfer_from: usize, transfer_to: usize, transfer_duration: u32) -> Network {
    let mut data = TransitData::new(UtcDateTime { seconds_since_epoch: 0 });
    let line_a = data
        .insert_vehicle(
            vec![Stop { idx: 0 }, Stop { idx: 1 }, Stop { idx: 2 }],
            vec![FlowDirection::BoardAndDebark; 3],
            vec![28800, 29400, 30000],
            vec![28800, 29400, 30000],
            vec![Load::Low, Load::Low],
            VehicleJourneyIdx { idx: 0 },
        )
        .unwrap();
    let line_b = data
        .insert_vehicle(
            vec![Stop { idx: 3 }, Stop { idx: 4 }],
            vec![FlowDirection::BoardAndDebark; 2],
            vec![30600, 31800],
            vec![30600, 31800],
            vec![Load::Medium],
            VehicleJourneyIdx { idx: 1 },
        )
        .unwrap();
    let transfer = data.add_transfer(
        Stop { idx: transfer_from },
        Stop { idx: transfer_to },
        transfer_duration,
        TransferIdx { idx: 0 },
    );
    Network { data, line_a, line_b, transfer }
}

fn leg(timetable: &Timetable, board: usize, debark: usize) -> VehicleLeg {
    VehicleLeg {
        trip: Trip {
            vehicle: Vehicle { timetable: timetable.clone(), idx: 0 },
            day: DaysSinceDatasetStart { days: 0 },
        },
        board_position: Position { timetable: timetable.clone(), idx: board },
        debark_position: Position { timetable: timetable.clone(), idx: debark },
    }
}

fn model() -> ModelRefs {
    ModelRefs {
        vehicle_journey_names: vec!["vj_a".to_string(), "vj_b".to_string()],
        line_names: vec!["line A".to_string(), "line B".to_string()],
        route_names: vec!["route A".to_string(), "route B".to_string()],
        stop_point_names: (0..5).map(|idx| format!("sp{}", idx)).collect(),
        stop_point_ids: (0..5).map(|idx| format!("stop_point:{}", idx)).collect(),
        stop_times: vec![
            vec![StopPointIdx { idx: 0 }, StopPointIdx { idx: 1 }, StopPointIdx { idx: 2 }],
            vec![StopPointIdx { idx: 3 }, StopPointIdx { idx: 4 }],
        ],
    }
}

fn journey(network: &Network) -> Result<Journey, BadJourney> {
    Journey::new(
        28000,
        600,
        leg(&network.line_a, 0, 2),
        vec![(network.transfer.clone(), leg(&network.line_b, 0, 1))],
        120,
        LoadsCount { high: 0, medium: 1, low: 1 },
        &network.data,
    )
}

#[test]
fn valid_journey_durations() {
    let network = network(2, 3, 300);
    let journey = journey(&network).unwrap();
    assert_eq!(journey.total_transfer_duration(&network.data), 300);
    assert_eq!(journey.total_duration(&network.data), 31920 - 28000);
    assert_eq!(journey.total_duration_in_pt(&network.data), 31800 - 28800);
    assert_eq!(journey.nb_of_legs(), 2);
    assert_eq!(journey.nb_of_connections(), 1);
    assert_eq!(journey.nb_of_transfers(), 1);
    assert_eq!(journey.total_fallback_duration(), 720);
    assert_eq!(journey.departure_datetime(&network.data), UtcDateTime { seconds_since_epoch: 28000 });
    assert_eq!(journey.arrival_datetime(&network.data), UtcDateTime { seconds_since_epoch: 31920 });
    assert_eq!(journey.first_vehicle_board_datetime(&network.data), UtcDateTime { seconds_since_epoch: 28800 });
    assert_eq!(journey.last_vehicle_debark_datetime(&network.data), UtcDateTime { seconds_since_epoch: 31800 });
}

#[test]
fn journey_text() {
    let network = network(2, 3, 300);
    let journey = journey(&network).unwrap();
    let text = journey.print(&network.data, &model()).unwrap();
    let expected = "*** New journey ***\n\
        Arrival : 08:52:00 01-Jan-70\n\
        Transfer duration : 5m00s\n\
        Nb of vehicles : 2\n\
        Fallback  total: 12m00s, start 10m00s, end 2m00s\n\
        Loads : high 0, medium 1, low 1\n\
        Departure : 07:46:40 01-Jan-70\n\
        line A from sp0 at 08:00:00 01-Jan-70 to sp2 at 08:20:00 01-Jan-70 \n\
        line B from sp3 at 08:30:00 01-Jan-70 to sp4 at 08:50:00 01-Jan-70 \n";
    assert_eq!(text, expected);
}

#[test]
fn response_sections_and_text() {
    let network = network(2, 3, 300);
    let journey = journey(&network).unwrap();
    let response = journey.to_response(&network.data);
    assert_eq!(response.departure.from_datetime.seconds_since_epoch, 28000);
    assert_eq!(response.departure.to_datetime.seconds_since_epoch, 28600);
    assert_eq!(response.first_vehicle.from_datetime.seconds_since_epoch, 28800);
    assert_eq!(response.first_vehicle.to_datetime.seconds_since_epoch, 30000);
    assert_eq!(response.first_vehicle.to_stoptime_idx, 2);
    let (transfer, waiting, vehicle) = &response.connections[0];
    assert_eq!(transfer.from_datetime.seconds_since_epoch, 30000);
    assert_eq!(transfer.to_datetime.seconds_since_epoch, 30300);
    assert_eq!(transfer.to_stop_point, StopPointIdx { idx: 3 });
    assert_eq!(waiting.from_datetime.seconds_since_epoch, 30300);
    assert_eq!(waiting.to_datetime.seconds_since_epoch, 30600);
    assert_eq!(vehicle.vehicle_journey, VehicleJourneyIdx { idx: 1 });
    assert_eq!(response.arrival.from_stop_point, StopPointIdx { idx: 4 });
    assert_eq!(response.arrival.to_datetime.seconds_since_epoch, 31920);
    assert_eq!(response.nb_of_sections(), 4);
    assert_eq!(response.nb_of_transfers(), 1);
    assert_eq!(response.nb_of_vehicles(), 2);
    assert_eq!(response.total_duration_in_pt(), 2400);
    assert_eq!(response.total_transfer_duration(), 300);
    assert_eq!(response.total_fallback_duration(), 720);
    assert_eq!(response.total_walking_duration(), 1020);
    assert_eq!(response.total_duration(), 3920);
    assert_eq!(response.first_vehicle_board_datetime().seconds_since_epoch, 28800);
    assert_eq!(response.last_vehicle_debark_datetime().seconds_since_epoch, 31800);
    let model = model();
    assert_eq!(response.first_vj_uri(&model), "vj_a");
    assert_eq!(response.first_vehicle.from_stop_point_name(&model), Some("sp0"));
    assert_eq!(vehicle.to_stop_point_name(&model), Some("sp4"));
    let text = response.print(&model).unwrap();
    let expected = "*** New journey ***\n\
        Arrival : 08:52:00 01-Jan-70\n\
        Transfer duration : 5m00s\n\
        Nb of vehicles : 2\n\
        Fallback total: 12m00s, start 10m00s, end 2m00s\n\
        Loads : high 0, medium 1, low 1\n\
        Departure : 07:46:40 01-Jan-70\n\
        line A from sp0 at 08:00:00 01-Jan-70 to sp2 at 08:20:00 01-Jan-70 \n\
        line B from sp3 at 08:30:00 01-Jan-70 to sp4 at 08:50:00 01-Jan-70 \n";
    assert_eq!(text, expected);
}

#[test]
fn connections_iterate_over_sections() {
    let network = network(2, 3, 300);
    let journey = journey(&network).unwrap();
    let mut connections = journey.connections(&network.data);
    let first = connections.next();
    assert!(first.is_some());
    assert!(connections.next().is_none());
}

#[test]
fn transfer_not_starting_where_the_vehicle_stops() {
    let network = network(1, 3, 300);
    let result = journey(&network);
    assert_eq!(
        result.err(),
        Some(BadJourney::BadTransferStartStop(leg(&network.line_a, 0, 2), network.transfer.clone(), 0))
    );
}

#[test]
fn transfer_not_ending_where_the_vehicle_starts() {
    let network = network(2, 4, 300);
    let result = journey(&network);
    assert_eq!(
        result.err(),
        Some(BadJourney::BadTransferEndStop(network.transfer.clone(), leg(&network.line_b, 0, 1), 0))
    );
}

#[test]
fn transfer_ending_after_the_vehicle_leaves() {
    let network = network(2, 3, 900);
    let result = journey(&network);
    assert_eq!(
        result.err(),
        Some(BadJourney::BadTransferEndTime(network.transfer.clone(), leg(&network.line_b, 0, 1), 0))
    );
}

#[test]
fn leg_debarking_upstream() {
    let network = network(2, 3, 300);
    let result = Journey::new(28000, 600, leg(&network.line_a, 2, 0), vec![], 120, LoadsCount { high: 0, medium: 0, low: 0 }, &network.data);
    assert_eq!(
        result.err(),
        Some(BadJourney::DebarkIsUpstreamBoard(leg(&network.line_a, 2, 0), VehicleLegIdx::First))
    );
}

#[test]
fn leg_without_board_or_debark_time() {
    let network = network(2, 3, 300);
    // one cannot board at the last stop
    let result = Journey::new(28000, 600, leg(&network.line_a, 2, 2), vec![], 120, LoadsCount { high: 0, medium: 0, low: 0 }, &network.data);
    assert_eq!(result.err(), Some(BadJourney::NoBoardTime(leg(&network.line_a, 2, 2), VehicleLegIdx::First)));
    // one cannot debark at the first stop
    let result = Journey::new(28000, 600, leg(&network.line_a, 0, 0), vec![], 120, LoadsCount { high: 0, medium: 0, low: 0 }, &network.data);
    assert_eq!(result.err(), Some(BadJourney::NoDebarkTime(leg(&network.line_a, 0, 0), VehicleLegIdx::First)));
    let result = Journey::new(
        28000,
        600,
        leg(&network.line_a, 0, 2),
        vec![(network.transfer.clone(), leg(&network.line_b, 1, 1))],
        120,
        LoadsCount { high: 0, medium: 0, low: 0 },
        &network.data,
    );
    assert_eq!(result.err(), Some(BadJourney::NoBoardTime(leg(&network.line_b, 1, 1), VehicleLegIdx::Connection(0))));
}

#[test]
fn trips_and_positions_are_named_for_logs() {
    let network = network(2, 3, 300);
    let model = model();
    let trip = Trip {
        vehicle: Vehicle { timetable: network.line_b.clone(), idx: 0 },
        day: DaysSinceDatasetStart { days: 2 },
    };
    assert_eq!(trip_name(&trip, &model, &network.data), "vj_b_1970-01-03_route B");
    let position = Position { timetable: network.line_a.clone(), idx: 1 };
    assert_eq!(
        position_name(&position, &network.line_a, &model, &network.data),
        format!("stop_point:1_{}", network.line_a.idx)
    );
    assert_eq!(stop_name(&Stop { idx: 4 }, &model, &network.data), "stop_point:4");
    assert_eq!(mission_name(&network.line_b, &model, &network.data), format!("{}", network.line_b.idx));
}

#[test]
fn errors_are_named_for_logs() {
    let network = network(2, 3, 300);
    let bad = BadJourney::NoBoardTime(leg(&network.line_a, 0, 2), VehicleLegIdx::First);
    assert_eq!(bad.debug_text(), "NoBoardTime");
    assert_eq!(JourneyError::BadJourney(bad).debug_text(), "BadJourney : NoBoardTime");
    let trip = leg(&network.line_a, 0, 2).trip;
    let position = Position { timetable: network.line_a.clone(), idx: 1 };
    let minimize = MinimizeArrivalTimeError::NoDebarkTime(trip, position);
    assert_eq!(JourneyError::MinimizeArrivalTimeError(minimize).debug_text(), "MinimizeArrivalTimeError : NoDebarkTime");
    let maximize = MaximizeDepartureTimeError::NoTrip(0, network.line_b.clone(), position);
    assert_eq!(maximize.debug_text(), "NoTrip");
}

#[test]
fn printing_is_writing_to_an_empty_text() {
    let network = network(2, 3, 300);
    let journey = journey(&network).unwrap();
    let model = model();
    let mut written = String::new();
    assert!(journey.write(&network.data, &model, &mut written).is_ok());
    assert_eq!(journey.print(&network.data, &model).unwrap(), written);
    assert_eq!(journey.nb_of_legs(), journey.nb_of_transfers() + 1);
}
