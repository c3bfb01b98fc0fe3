use loki::transit_data::ordered_timetable::{
    PositionPair, Position, StopPatternData, Timetable, Vehicle, VehicleTimesError,
};
use loki::transit_data::{FlowDirection, Stop};

fn three_stops() -> StopPatternData<u32> {
    let stops = vec![Stop { idx: 0 }, Stop { idx: 1 }, Stop { idx: 2 }];
    let flows = vec![
        FlowDirection::BoardOnly,
        FlowDirection::BoardAndDebark,
        FlowDirection::DebarkOnly,
    ];
    StopPatternData::new(stops, flows)
}

#[test]
fn insert_coherent_vehicle_creates_a_timetable() {
    let mut pattern = three_stops();
    let result = pattern.insert(vec![(100, 90), (200, 190), (300, 290)], 7);
    assert!(result.is_ok());
    assert_eq!(pattern.nb_of_timetables(), 1);
    let timetable = Timetable { idx: 0 };
    assert_eq!(pattern.vehicles(&timetable).len(), 1);
    let vehicle = Vehicle { idx: 0 };
    // at the first stop one can only board: the debark time is the board time
    assert_eq!(pattern.arrival_time_at(&timetable, &vehicle, &Position { idx: 0 }), &100);
    assert_eq!(pattern.board_time_at(&timetable, &vehicle, &Position { idx: 1 }), Some(&200));
    assert_eq!(pattern.debark_time_at(&timetable, &vehicle, &Position { idx: 1 }), Some(&190));
    // at the last stop one can only debark: the board time is the debark time
    assert_eq!(pattern.board_time_at(&timetable, &vehicle, &Position { idx: 2 }), None);
    assert_eq!(pattern.debark_time_at(&timetable, &vehicle, &Position { idx: 2 }), Some(&290));
    assert_eq!(pattern.debark_time_at(&timetable, &vehicle, &Position { idx: 0 }), None);
}

#[test]
fn vehicles_are_ordered_by_increasing_times() {
    let mut pattern = three_stops();
    assert!(pattern.insert(vec![(500, 500), (600, 600), (700, 700)], 2).is_ok());
    assert!(pattern.insert(vec![(100, 100), (200, 200), (300, 300)], 1).is_ok());
    assert!(pattern.insert(vec![(900, 900), (1000, 1000), (1100, 1100)], 3).is_ok());
    assert_eq!(pattern.nb_of_timetables(), 1);
    let timetable = Timetable { idx: 0 };
    let position = Position { idx: 1 };
    let times: Vec<u32> = (0..3)
        .map(|idx| *pattern.board_time_at(&timetable, &Vehicle { idx }, &position).unwrap())
        .collect();
    assert_eq!(times, vec![200, 600, 1000]);
    assert_eq!(pattern.latest_board_time_at(&timetable, &position), Some(&1000));
    assert_eq!(pattern.latest_board_time_at(&timetable, &Position { idx: 2 }), None);
}

#[test]
fn overtaking_vehicle_goes_in_a_new_timetable() {
    let mut pattern = three_stops();
    assert!(pattern.insert(vec![(100, 100), (200, 200), (300, 300)], 1).is_ok());
    // leaves later but arrives earlier: it cannot share the timetable
    assert!(pattern.insert(vec![(150, 150), (180, 180), (250, 250)], 2).is_ok());
    assert_eq!(pattern.nb_of_timetables(), 2);
    assert_eq!(pattern.timetables(), vec![Timetable { idx: 0 }, Timetable { idx: 1 }]);
}

#[test]
fn decreasing_board_times_are_refused() {
    let mut pattern = three_stops();
    let result = pattern.insert(vec![(200, 200), (100, 300), (400, 400)], 1);
    assert!(matches!(
        result,
        Err(VehicleTimesError::DecreasingBoardTime(PositionPair { upstream: 0, downstream: 1 }))
    ));
    assert_eq!(pattern.nb_of_timetables(), 0);
}

#[test]
fn decreasing_debark_times_are_refused() {
    let mut pattern = three_stops();
    let result = pattern.insert(vec![(100, 100), (200, 500), (400, 400)], 1);
    assert!(matches!(
        result,
        Err(VehicleTimesError::DecreasingDebarkTime(PositionPair { upstream: 1, downstream: 2 }))
    ));
}

#[test]
fn debark_before_upstream_board_is_refused() {
    let mut pattern = three_stops();
    let result = pattern.insert(vec![(300, 300), (400, 200), (500, 500)], 1);
    assert!(matches!(
        result,
        Err(VehicleTimesError::DebarkBeforeUpstreamBoard(PositionPair {
            upstream: 0,
            downstream: 1
        }))
    ));
}

#[test]
fn earliest_vehicle_is_the_first_that_can_be_boarded() {
    let mut pattern = three_stops();
    assert!(pattern.insert(vec![(100, 100), (200, 200), (300, 300)], 1).is_ok());
    assert!(pattern.insert(vec![(500, 500), (600, 600), (700, 700)], 2).is_ok());
    assert!(pattern.insert(vec![(900, 900), (1000, 1000), (1100, 1100)], 3).is_ok());
    let timetable = Timetable { idx: 0 };
    let position = Position { idx: 1 };
    let found = pattern.earliest_filtered_vehicle_to_board_at(&250, &timetable, &position, |_| true);
    assert_eq!(found, Some(Vehicle { idx: 1 }));
    let found = pattern.earliest_filtered_vehicle_to_board_at(&250, &timetable, &position, |data| *data != 2);
    assert_eq!(found, Some(Vehicle { idx: 2 }));
    let found = pattern.earliest_filtered_vehicle_to_board_at(&2000, &timetable, &position, |_| true);
    assert_eq!(found, None);
    // one cannot board at the last stop
    let found = pattern.earliest_filtered_vehicle_to_board_at(&0, &timetable, &Position { idx: 2 }, |_| true);
    assert_eq!(found, None);
}

#[test]
fn positions_of_a_stop_pattern() {
    let pattern = three_stops();
    let stops_and_positions = pattern.stops_and_positions();
    assert_eq!(stops_and_positions.len(), 3);
    assert_eq!(stops_and_positions[2], (Stop { idx: 2 }, Position { idx: 2 }));
    assert_eq!(pattern.next_position(&Position { idx: 0 }), Some(Position { idx: 1 }));
    assert_eq!(pattern.next_position(&Position { idx: 2 }), None);
    assert!(pattern.is_last_position(&Position { idx: 2 }));
    assert!(!pattern.is_last_position(&Position { idx: 1 }));
    assert!(pattern.is_valid(&Position { idx: 2 }));
    assert!(!pattern.is_valid(&Position { idx: 3 }));
    assert!(pattern.can_board(&Position { idx: 0 }));
    assert!(!pattern.can_debark(&Position { idx: 0 }));
    assert!(!pattern.can_board(&Position { idx: 2 }));
    assert!(pattern.can_debark(&Position { idx: 2 }));
    assert_eq!(pattern.stop_at(&Position { idx: 1 }), &Stop { idx: 1 });
}
