use loki::models::apply_disruption::RecordedUpdates;
use loki::models::base_model::{BaseModel, BaseStopPoint, BaseVehicleJourney};
use loki::models::real_time_disruption::{
    intersection, Date, Disruption, Impact, Impacted, Informed, NetworkId, StopAreaId, StopPointId,
    StopTime as DisruptionStopTime, TimePeriod, TimePeriods, TripDisruption, VehicleJourneyId,
};
use loki::models::real_time_model::{DataUpdateKind, RealTimeModel, TripStatus};
use loki::models::{StopPointIdx, StopTime};
use loki::timetables::FlowDirection;

const DAY: Date = 19000;

fn at(date: Date, seconds: i64) -> i64 {
    date as i64 * 86400 + seconds
}

fn accepting_data() -> RecordedUpdates {
    RecordedUpdates::new(true)
}

/// The updates handed to the data of a kind: the vehicle journey, the date and the number of
/// stop times of each.
fn updates(data: &RecordedUpdates, kind: DataUpdateKind) -> Vec<(String, Date, usize)> {
    data.records
        .iter()
        .filter(|record| record.kind == kind)
        .map(|record| (record.vehicle_journey.clone(), record.date, record.stop_times.len()))
        .collect()
}

fn stop_time(stop: usize, debark_time: u32, board_time: u32) -> StopTime {
    StopTime {
        stop: StopPointIdx { idx: stop },
        board_time,
        debark_time,
        flow_direction: FlowDirection::BoardAndDebark,
    }
}

/// Two vehicle journeys on `DAY`: "vj1" of network "N1", line "L1", route "R1" through stop
/// points "SP1", "SP2", "SP3" from 8:00 to 9:00; "vj2" of route "R2" through "SP3" and "SP4"
/// from 10:00 to 10:30. "SP1" and "SP2" are in stop area "SA1".
fn base_model() -> BaseModel {
    BaseModel {
        vehicle_journeys: vec![
            BaseVehicleJourney {
                id: "vj1".to_string(),
                network: Some("N1".to_string()),
                line: Some("L1".to_string()),
                route: "R1".to_string(),
                timezone: None,
                dates: vec![DAY],
                stop_times: vec![stop_time(0, 28800, 28800), stop_time(1, 30600, 30600), stop_time(2, 32400, 32400)],
            },
            BaseVehicleJourney {
                id: "vj2".to_string(),
                network: None,
                line: None,
                route: "R2".to_string(),
                timezone: None,
                dates: vec![DAY],
                stop_times: vec![stop_time(2, 36000, 36000), stop_time(3, 37800, 37800)],
            },
        ],
        stop_points: vec![
            BaseStopPoint { id: "SP1".to_string(), stop_area: "SA1".to_string() },
            BaseStopPoint { id: "SP2".to_string(), stop_area: "SA1".to_string() },
            BaseStopPoint { id: "SP3".to_string(), stop_area: "SA2".to_string() },
            BaseStopPoint { id: "SP4".to_string(), stop_area: "SA2".to_string() },
        ],
        networks: vec!["N1".to_string()],
        lines: vec!["L1".to_string()],
        routes: vec!["R1".to_string(), "R2".to_string()],
        stop_areas: vec!["SA1".to_string(), "SA2".to_string()],
        time_period: TimePeriod { start: at(DAY, 0), end: at(DAY + 1, 0) },
    }
}

fn whole_day() -> Vec<TimePeriod> {
    vec![TimePeriod { start: at(DAY, 0), end: at(DAY + 1, 0) }]
}

fn disruption(id: &str, periods: Vec<TimePeriod>, impacted: Vec<Impacted>, informed: Vec<Informed>) -> Disruption {
    Disruption {
        id: id.to_string(),
        impacts: vec![Impact {
            id: format!("{}-impact", id),
            application_periods: periods,
            impacted_pt_objects: impacted,
            informed_pt_objects: informed,
        }],
    }
}

fn status<'a>(model: &'a RealTimeModel, vehicle_journey: &str, date: Date) -> Option<&'a TripStatus> {
    model
        .trips
        .iter()
        .find(|trip| trip.vehicle_journey == vehicle_journey && trip.date == date)
        .map(|trip| &trip.status)
}

fn links_of(model: &RealTimeModel, vehicle_journey: &str) -> usize {
    model.informed_links.iter().filter(|link| link.vehicle_journey == vehicle_journey).count()
}

#[test]
fn intersection_keeps_the_common_instants() {
    let a = TimePeriod { start: 10, end: 20 };
    let b = TimePeriod { start: 15, end: 30 };
    assert_eq!(intersection(&a, &b), Some(TimePeriod { start: 15, end: 20 }));
    let c = TimePeriod { start: 20, end: 30 };
    assert_eq!(intersection(&a, &c), None);
    assert_eq!(TimePeriod::new(5, 4), None);
    assert_eq!(TimePeriod::new(4, 5), Some(TimePeriod { start: 4, end: 5 }));
}

#[test]
fn periods_contain_and_intersect() {
    let periods = TimePeriods::new(&[TimePeriod { start: 0, end: 10 }, TimePeriod { start: 20, end: 30 }]).unwrap();
    assert!(periods.contains(&0));
    assert!(!periods.contains(&10));
    assert!(periods.contains(&25));
    assert!(periods.intersects(&TimePeriod { start: 5, end: 21 }));
    assert!(!periods.intersects(&TimePeriod { start: 10, end: 20 }));
    assert!(TimePeriods::new(&[]).is_none());
}

#[test]
fn dates_concerned_start_the_day_before() {
    let periods = TimePeriods::new(&[TimePeriod { start: at(DAY, 3600), end: at(DAY + 2, 60) }]).unwrap();
    assert_eq!(periods.dates_possibly_concerned(), vec![DAY - 1, DAY, DAY + 1, DAY + 2]);
    let before_epoch = TimePeriods::new(&[TimePeriod { start: -1, end: 0 }]).unwrap();
    assert_eq!(before_epoch.dates_possibly_concerned(), vec![-2, -1, 0]);
}

#[test]
fn deleting_a_network_deletes_its_trips_and_cancelling_restores_them() {
    let base = base_model();
    let mut model = RealTimeModel::new();
    let mut data = accepting_data();
    let network = disruption("D1", whole_day(), vec![Impacted::NetworkDeleted(NetworkId { id: "N1".to_string() })], vec![]);
    model.store_and_apply_disruption(network, &base, &mut data);
    assert_eq!(model.disruptions.len(), 1);
    assert!(matches!(status(&model, "vj1", DAY), Some(TripStatus::Deleted)));
    assert!(status(&model, "vj2", DAY).is_none());
    assert_eq!(updates(&data, DataUpdateKind::Remove), vec![("vj1".to_string(), DAY, 0)]);
    assert_eq!(links_of(&model, "vj1"), 1);
    assert!(!model.is_present(&"vj1".to_string(), &DAY, &base));
    assert!(model.is_present(&"vj2".to_string(), &DAY, &base));

    model.cancel_disruption_by_id(&"D1".to_string(), &base, &mut data);
    assert_eq!(model.disruptions.len(), 1);
    assert!(model.trips.is_empty());
    assert_eq!(links_of(&model, "vj1"), 0);
    assert_eq!(updates(&data, DataUpdateKind::Insert), vec![("vj1".to_string(), DAY, 3)]);
    assert!(model.is_present(&"vj1".to_string(), &DAY, &base));
}

#[test]
fn periods_outside_the_base_schedule_change_nothing() {
    let base = base_model();
    let mut model = RealTimeModel::new();
    let mut data = accepting_data();
    let later = vec![TimePeriod { start: at(DAY + 5, 0), end: at(DAY + 6, 0) }];
    let network = disruption("D1", later, vec![Impacted::NetworkDeleted(NetworkId { id: "N1".to_string() })], vec![]);
    model.store_and_apply_disruption(network, &base, &mut data);
    assert_eq!(model.disruptions.len(), 1);
    assert!(model.trips.is_empty());
    assert!(data.records.is_empty());
}

#[test]
fn a_period_that_misses_the_trip_leaves_it() {
    let base = base_model();
    let mut model = RealTimeModel::new();
    let mut data = accepting_data();
    let afternoon = vec![TimePeriod { start: at(DAY, 43200), end: at(DAY, 50400) }];
    let network = disruption("D1", afternoon, vec![Impacted::NetworkDeleted(NetworkId { id: "N1".to_string() })], vec![]);
    model.store_and_apply_disruption(network, &base, &mut data);
    assert!(model.trips.is_empty());
}

#[test]
fn an_unknown_network_changes_nothing() {
    let base = base_model();
    let mut model = RealTimeModel::new();
    let mut data = accepting_data();
    let network = disruption("D1", whole_day(), vec![Impacted::NetworkDeleted(NetworkId { id: "N9".to_string() })], vec![]);
    model.store_and_apply_disruption(network, &base, &mut data);
    assert!(model.trips.is_empty());
    assert!(model.informed_links.is_empty());
}

#[test]
fn deleting_a_stop_point_cuts_the_trips_through_it() {
    let base = base_model();
    let mut model = RealTimeModel::new();
    let mut data = accepting_data();
    let stop_point = disruption("D2", whole_day(), vec![Impacted::StopPointDeleted(StopPointId { id: "SP2".to_string() })], vec![]);
    model.store_and_apply_disruption(stop_point, &base, &mut data);
    match status(&model, "vj1", DAY) {
        Some(TripStatus::Modified(stop_times)) => {
            assert_eq!(stop_times.len(), 2);
            assert_eq!(stop_times[0].stop, StopPointIdx { idx: 0 });
            assert_eq!(stop_times[1].stop, StopPointIdx { idx: 2 });
        },
        _ => panic!("vj1 should be modified"),
    }
    assert!(status(&model, "vj2", DAY).is_none());
    assert_eq!(updates(&data, DataUpdateKind::Modify), vec![("vj1".to_string(), DAY, 2)]);
}

#[test]
fn deleting_a_stop_area_cuts_its_stop_points() {
    let base = base_model();
    let mut model = RealTimeModel::new();
    let mut data = accepting_data();
    let stop_area = disruption("D3", whole_day(), vec![Impacted::StopAreaDeleted(StopAreaId { id: "SA1".to_string() })], vec![]);
    model.store_and_apply_disruption(stop_area, &base, &mut data);
    match status(&model, "vj1", DAY) {
        Some(TripStatus::Modified(stop_times)) => {
            assert_eq!(stop_times.len(), 1);
            assert_eq!(stop_times[0].stop, StopPointIdx { idx: 2 });
        },
        _ => panic!("vj1 should be modified"),
    }
    assert!(status(&model, "vj2", DAY).is_none());
}

#[test]
fn informing_links_without_deleting() {
    let base = base_model();
    let mut model = RealTimeModel::new();
    let mut data = accepting_data();
    let informed = disruption("D4", whole_day(), vec![], vec![Informed::StopPoint(StopPointId { id: "SP3".to_string() })]);
    model.store_and_apply_disruption(informed, &base, &mut data);
    assert!(model.trips.is_empty());
    assert_eq!(links_of(&model, "vj1"), 1);
    assert_eq!(links_of(&model, "vj2"), 1);
    model.cancel_disruption_by_id(&"D4".to_string(), &base, &mut data);
    assert!(model.informed_links.is_empty());
}

#[test]
fn a_refused_removal_leaves_the_trip_unlinked() {
    let base = base_model();
    let mut model = RealTimeModel::new();
    let mut data = RecordedUpdates::new(false);
    let trip = disruption("D5", whole_day(), vec![Impacted::TripDeleted(VehicleJourneyId { id: "vj2".to_string() }, DAY)], vec![]);
    model.store_and_apply_disruption(trip, &base, &mut data);
    assert!(matches!(status(&model, "vj2", DAY), Some(TripStatus::Deleted)));
    assert_eq!(links_of(&model, "vj2"), 0);
}

#[test]
fn a_new_trip_is_added_with_its_new_stop_points() {
    let base = base_model();
    let mut model = RealTimeModel::new();
    let mut data = accepting_data();
    let new_trip = TripDisruption {
        trip_id: VehicleJourneyId { id: "vj9".to_string() },
        trip_date: DAY,
        stop_times: vec![
            DisruptionStopTime { stop_id: "SP1".to_string(), arrival_time: 100, departure_time: 110, flow_direction: FlowDirection::BoardOnly },
            DisruptionStopTime { stop_id: "SPX".to_string(), arrival_time: 200, departure_time: 210, flow_direction: FlowDirection::DebarkOnly },
        ],
    };
    let update = disruption("D6", whole_day(), vec![Impacted::NewTripUpdated(new_trip)], vec![]);
    model.store_and_apply_disruption(update, &base, &mut data);
    assert_eq!(model.new_stop_points, vec!["SPX".to_string()]);
    match status(&model, "vj9", DAY) {
        Some(TripStatus::Added(stop_times)) => {
            assert_eq!(stop_times.len(), 2);
            assert_eq!(stop_times[0], StopTime {
                stop: StopPointIdx { idx: 0 },
                board_time: 110,
                debark_time: 100,
                flow_direction: FlowDirection::BoardOnly,
            });
            assert_eq!(stop_times[1].stop, StopPointIdx { idx: 4 });
        },
        _ => panic!("vj9 should be added"),
    }
    assert_eq!(updates(&data, DataUpdateKind::Insert), vec![("vj9".to_string(), DAY, 2)]);
}

#[test]
fn a_new_trip_with_a_base_identifier_is_refused() {
    let base = base_model();
    let mut model = RealTimeModel::new();
    let mut data = accepting_data();
    let new_trip = TripDisruption {
        trip_id: VehicleJourneyId { id: "vj1".to_string() },
        trip_date: DAY,
        stop_times: vec![],
    };
    let update = disruption("D7", whole_day(), vec![Impacted::NewTripUpdated(new_trip)], vec![]);
    model.store_and_apply_disruption(update, &base, &mut data);
    assert!(model.trips.is_empty());
}

#[test]
fn a_base_trip_update_modifies_the_trip() {
    let base = base_model();
    let mut model = RealTimeModel::new();
    let mut data = accepting_data();
    let update_trip = TripDisruption {
        trip_id: VehicleJourneyId { id: "vj2".to_string() },
        trip_date: DAY,
        stop_times: vec![DisruptionStopTime {
            stop_id: "SP4".to_string(),
            arrival_time: 37900,
            departure_time: 37900,
            flow_direction: FlowDirection::BoardAndDebark,
        }],
    };
    let update = disruption("D8", whole_day(), vec![Impacted::BaseTripUpdated(update_trip)], vec![]);
    model.store_and_apply_disruption(update, &base, &mut data);
    match status(&model, "vj2", DAY) {
        Some(TripStatus::Modified(stop_times)) => {
            assert_eq!(stop_times.len(), 1);
            assert_eq!(stop_times[0].stop, StopPointIdx { idx: 3 });
        },
        _ => panic!("vj2 should be modified"),
    }
    assert_eq!(links_of(&model, "vj2"), 1);
}

#[test]
fn a_base_trip_update_on_another_date_is_refused() {
    let base = base_model();
    let mut model = RealTimeModel::new();
    let mut data = accepting_data();
    let update_trip = TripDisruption {
        trip_id: VehicleJourneyId { id: "vj2".to_string() },
        trip_date: DAY + 1,
        stop_times: vec![DisruptionStopTime {
            stop_id: "SPY".to_string(),
            arrival_time: 0,
            departure_time: 0,
            flow_direction: FlowDirection::BoardAndDebark,
        }],
    };
    let update = disruption("D9", whole_day(), vec![Impacted::BaseTripUpdated(update_trip)], vec![]);
    model.store_and_apply_disruption(update, &base, &mut data);
    assert!(model.trips.is_empty());
    // the stop points of the update are made before the trip is checked
    assert_eq!(model.new_stop_points, vec!["SPY".to_string()]);
}

#[test]
fn modify_trip_needs_a_running_trip() {
    let base = base_model();
    let mut model = RealTimeModel::new();
    let mut data = accepting_data();
    let disruption_idx = loki::models::real_time_model::DisruptionIdx { idx: 0 };
    let impact_idx = loki::models::real_time_model::ImpactIdx { idx: 0 };
    let absent = model.modify_trip(&base, &mut data, &"vj9".to_string(), &DAY, vec![], &disruption_idx, &impact_idx);
    assert!(absent.is_err());
    let present = model.modify_trip(&base, &mut data, &"vj1".to_string(), &DAY, vec![stop_time(0, 1, 1)], &disruption_idx, &impact_idx);
    assert!(present.is_ok());
    assert!(matches!(status(&model, "vj1", DAY), Some(TripStatus::Modified(stop_times)) if stop_times.len() == 1));
    assert_eq!(links_of(&model, "vj1"), 1);
}

#[test]
fn cancelling_an_unknown_disruption_changes_nothing() {
    let base = base_model();
    let mut model = RealTimeModel::new();
    let mut data = accepting_data();
    let network = disruption("D1", whole_day(), vec![Impacted::NetworkDeleted(NetworkId { id: "N1".to_string() })], vec![]);
    model.store_and_apply_disruption(network, &base, &mut data);
    model.cancel_disruption_by_id(&"D0".to_string(), &base, &mut data);
    assert!(matches!(status(&model, "vj1", DAY), Some(TripStatus::Deleted)));
}

#[test]
fn cancelling_a_stop_point_deletion_restores_the_trips() {
    let base = base_model();
    let mut model = RealTimeModel::new();
    let mut data = accepting_data();
    let stop_point = disruption("D2", whole_day(), vec![Impacted::StopPointDeleted(StopPointId { id: "SP3".to_string() })], vec![]);
    model.store_and_apply_disruption(stop_point, &base, &mut data);
    assert!(matches!(status(&model, "vj1", DAY), Some(TripStatus::Modified(_))));
    assert!(matches!(status(&model, "vj2", DAY), Some(TripStatus::Modified(_))));
    model.cancel_disruption_by_id(&"D2".to_string(), &base, &mut data);
    assert!(model.trips.is_empty());
    assert!(model.informed_links.is_empty());
}

#[test]
fn cancelling_a_trip_deletion_deletes_it_again() {
    let base = base_model();
    let mut model = RealTimeModel::new();
    let mut data = accepting_data();
    let trip = disruption("D5", whole_day(), vec![Impacted::TripDeleted(VehicleJourneyId { id: "vj2".to_string() }, DAY)], vec![]);
    model.store_and_apply_disruption(trip, &base, &mut data);
    model.cancel_disruption_by_id(&"D5".to_string(), &base, &mut data);
    assert!(matches!(status(&model, "vj2", DAY), Some(TripStatus::Deleted)));
}

/// The base schedule with one more vehicle journey, "vj3", in the timezone of Paris (UTC+1 in
/// January), through "SP1", "SP2", "SP4" at 8:00, 8:30 and 9:00 local time.
fn base_model_with_timezone() -> BaseModel {
    let mut base = base_model();
    base.vehicle_journeys.push(BaseVehicleJourney {
        id: "vj3".to_string(),
        network: None,
        line: None,
        route: "R2".to_string(),
        timezone: Some("Europe/Paris".to_string()),
        dates: vec![DAY],
        stop_times: vec![stop_time(0, 28800, 28800), stop_time(1, 30600, 30600), stop_time(3, 32400, 32400)],
    });
    base
}

#[test]
fn trips_are_timed_in_their_timezone() {
    let base = base_model_with_timezone();
    assert_eq!(base.trip_time_period(2, &DAY), Some(TimePeriod { start: at(DAY, 25200), end: at(DAY, 28800) }));
    assert_eq!(base.trip_time_period(0, &DAY), Some(TimePeriod { start: at(DAY, 28800), end: at(DAY, 32400) }));
}

#[test]
fn stop_times_are_concerned_in_their_timezone() {
    let base = base_model_with_timezone();
    let mut model = RealTimeModel::new();
    let mut data = accepting_data();
    // from 7:15 to 7:45 UTC: 8:30 in Paris, 8:30 UTC is out of it
    let period = vec![TimePeriod { start: at(DAY, 26100), end: at(DAY, 27900) }];
    let stop_point = disruption("D10", period, vec![Impacted::StopPointDeleted(StopPointId { id: "SP2".to_string() })], vec![]);
    model.store_and_apply_disruption(stop_point, &base, &mut data);
    match status(&model, "vj3", DAY) {
        Some(TripStatus::Modified(stop_times)) => assert_eq!(stop_times.len(), 2),
        _ => panic!("vj3 should be modified"),
    }
    assert!(status(&model, "vj1", DAY).is_none());
    assert_eq!(updates(&data, DataUpdateKind::Modify), vec![("vj3".to_string(), DAY, 2)]);
}

#[test]
fn refused_updates_leave_the_links_alone() {
    let base = base_model();
    let mut model = RealTimeModel::new();
    let mut data = RecordedUpdates::new(false);
    let stop_point = disruption("D2", whole_day(), vec![Impacted::StopPointDeleted(StopPointId { id: "SP2".to_string() })], vec![]);
    model.store_and_apply_disruption(stop_point, &base, &mut data);
    assert!(matches!(status(&model, "vj1", DAY), Some(TripStatus::Modified(_))));
    assert_eq!(updates(&data, DataUpdateKind::Modify), vec![("vj1".to_string(), DAY, 2)]);
    assert!(data.records.iter().all(|record| !record.accepted));
    assert!(model.informed_links.is_empty());
}

#[test]
fn impacts_outside_the_base_schedule_are_not_looked_into() {
    let base = base_model();
    let mut model = RealTimeModel::new();
    let mut data = accepting_data();
    let later = vec![TimePeriod { start: at(DAY + 5, 0), end: at(DAY + 6, 0) }];
    let unknown = disruption("D11", later, vec![], vec![Informed::Unknown]);
    model.store_and_apply_disruption(unknown, &base, &mut data);
    assert_eq!(model.disruptions.len(), 1);
    assert!(model.informed_links.is_empty());
    assert!(data.records.is_empty());
}
