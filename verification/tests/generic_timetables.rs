use loki::loads_data::Load;
use loki::models::StopTimeIdx;
use loki::timetables::generic_timetables::{
    GenericTimetables, Position, PositionPair, Timetable, Vehicle, VehicleTimesError,
};
use loki::timetables::FlowDirection;
use loki::transit_data::Stop;

fn stops(indices: &[usize]) -> Vec<Stop> {
    indices.iter().map(|&idx| Stop { idx }).collect()
}

fn all_board_and_debark(n: usize) -> Vec<FlowDirection> {
    vec![FlowDirection::BoardAndDebark; n]
}

#[test]
fn less_than_two_stops_is_refused() {
    let mut timetables: GenericTimetables<u32> = GenericTimetables::new();
    let result = timetables.insert(stops(&[0]), all_board_and_debark(1), vec![10], vec![10], vec![], 1);
    assert!(matches!(result, Err(VehicleTimesError::LessThanTwoStops)));
    assert_eq!(timetables.nb_of_timetables(), 0);
}

#[test]
fn generic_decreasing_times_are_refused() {
    let mut timetables: GenericTimetables<u32> = GenericTimetables::new();
    let result = timetables.insert(
        stops(&[0, 1, 2]),
        all_board_and_debark(3),
        vec![100, 50, 200],
        vec![100, 150, 200],
        vec![Load::Low, Load::Low],
        1,
    );
    let expected = PositionPair { upstream: StopTimeIdx { idx: 0 }, downstream: StopTimeIdx { idx: 1 } };
    assert_eq!(result, Err(VehicleTimesError::DecreasingBoardTime(expected)));
    let result = timetables.insert(
        stops(&[0, 1, 2]),
        all_board_and_debark(3),
        vec![100, 150, 200],
        vec![100, 250, 200],
        vec![Load::Low, Load::Low],
        1,
    );
    let expected = PositionPair { upstream: StopTimeIdx { idx: 1 }, downstream: StopTimeIdx { idx: 2 } };
    assert_eq!(result, Err(VehicleTimesError::DecreasingDebarkTime(expected)));
    let result = timetables.insert(
        stops(&[0, 1, 2]),
        all_board_and_debark(3),
        vec![100, 150, 200],
        vec![50, 90, 200],
        vec![Load::Low, Load::Low],
        1,
    );
    let expected = PositionPair { upstream: StopTimeIdx { idx: 0 }, downstream: StopTimeIdx { idx: 1 } };
    assert_eq!(result, Err(VehicleTimesError::DebarkBeforeUpstreamBoard(expected)));
    assert_eq!(timetables.nb_of_trips(), 0);
}

#[test]
fn flows_at_the_ends_are_corrected() {
    let mut timetables: GenericTimetables<u32> = GenericTimetables::new();
    let timetable = timetables
        .insert(
            stops(&[0, 1, 2]),
            all_board_and_debark(3),
            vec![100, 150, 200],
            vec![90, 140, 190],
            vec![Load::Low, Load::High],
            1,
        )
        .unwrap();
    let vehicle = Vehicle { timetable: timetable.clone(), idx: 0 };
    let first = Position { timetable: timetable.clone(), idx: 0 };
    let middle = Position { timetable: timetable.clone(), idx: 1 };
    let last = Position { timetable: timetable.clone(), idx: 2 };
    // one cannot debark at the first stop, nor board at the last one
    assert!(timetables.debark_time(&vehicle, &first).is_none());
    assert!(timetables.board_time(&vehicle, &last).is_none());
    assert_eq!(timetables.board_time(&vehicle, &first), Some((&100, &Load::Low)));
    assert_eq!(timetables.board_time(&vehicle, &middle), Some((&150, &Load::High)));
    assert_eq!(timetables.debark_time(&vehicle, &middle), Some((&140, &Load::Low)));
    // at the last stop the board time is the debark time
    assert_eq!(timetables.debark_time(&vehicle, &last), Some((&190, &Load::High)));
    assert_eq!(timetables.arrival_time(&vehicle, &last), (&190, &Load::High));
    assert_eq!(timetables.departure_time(&vehicle, &first), (&100, &Load::Low));
    assert_eq!(timetables.stop_at(&middle, &timetable), &Stop { idx: 1 });
    assert_eq!(timetables.next_position(&middle, &timetable), Some(last.clone()));
    assert_eq!(timetables.next_position(&last, &timetable), None);
    assert_eq!(timetables.previous_position(&middle, &timetable), Some(first.clone()));
    assert_eq!(timetables.previous_position(&first, &timetable), None);
    assert!(timetables.is_upstream(&first, &last, &timetable));
    assert_eq!(timetables.vehicle_data(&vehicle), &1);
}

#[test]
fn compatible_vehicles_share_a_timetable_and_are_counted() {
    let mut timetables: GenericTimetables<u32> = GenericTimetables::new();
    let first = timetables
        .insert(stops(&[0, 1]), all_board_and_debark(2), vec![100, 200], vec![100, 200], vec![Load::Low], 1)
        .unwrap();
    let second = timetables
        .insert(stops(&[0, 1]), all_board_and_debark(2), vec![50, 150], vec![50, 150], vec![Load::Medium], 2)
        .unwrap();
    assert_eq!(first, second);
    assert_eq!(timetables.nb_of_trips(), 2);
    // an overtaking vehicle gets a timetable of its own
    let third = timetables
        .insert(stops(&[0, 1]), all_board_and_debark(2), vec![60, 120], vec![60, 120], vec![Load::High], 3)
        .unwrap();
    assert_eq!(third, Timetable { idx: 1 });
    // so does a vehicle along other stops
    let fourth = timetables
        .insert(stops(&[1, 0]), all_board_and_debark(2), vec![60, 120], vec![60, 120], vec![Load::High], 4)
        .unwrap();
    assert_eq!(fourth, Timetable { idx: 2 });
    assert_eq!(timetables.nb_of_trips(), 4);
    assert_eq!(timetables.nb_of_timetables(), 3);
    // vehicles are ordered by increasing times
    assert_eq!(timetables.vehicle_data(&Vehicle { timetable: first.clone(), idx: 0 }), &2);
    assert_eq!(timetables.vehicle_data(&Vehicle { timetable: first.clone(), idx: 1 }), &1);
}

#[test]
fn earliest_and_latest_filtered_vehicles() {
    let mut timetables: GenericTimetables<u32> = GenericTimetables::new();
    for (start, data) in [(100u32, 1u32), (200, 2), (300, 3)] {
        timetables
            .insert(
                stops(&[0, 1, 2]),
                all_board_and_debark(3),
                vec![start, start + 10, start + 20],
                vec![start, start + 10, start + 20],
                vec![Load::Low, Load::Low],
                data,
            )
            .unwrap();
    }
    let timetable = Timetable { idx: 0 };
    let middle = Position { timetable: timetable.clone(), idx: 1 };
    let earliest = timetables.earliest_filtered_vehicle_to_board(&150, &timetable, &middle, |_| true);
    assert_eq!(earliest, Some(Vehicle { timetable: timetable.clone(), idx: 1 }));
    let earliest = timetables.earliest_filtered_vehicle_to_board(&150, &timetable, &middle, |data| *data == 3);
    assert_eq!(earliest, Some(Vehicle { timetable: timetable.clone(), idx: 2 }));
    let earliest = timetables.earliest_filtered_vehicle_to_board(&400, &timetable, &middle, |_| true);
    assert_eq!(earliest, None);
    let latest = timetables.latest_filtered_vehicle_that_debark(&250, &timetable, &middle, |_| true);
    assert_eq!(latest, Some((Vehicle { timetable: timetable.clone(), idx: 1 }, &210, &Load::Low)));
    let latest = timetables.latest_filtered_vehicle_that_debark(&250, &timetable, &middle, |data| *data == 1);
    assert_eq!(latest, Some((Vehicle { timetable: timetable.clone(), idx: 0 }, &110, &Load::Low)));
    let latest = timetables.latest_filtered_vehicle_that_debark(&50, &timetable, &middle, |_| true);
    assert_eq!(latest, None);
    // one cannot debark at the first stop
    let first = Position { timetable: timetable.clone(), idx: 0 };
    let latest = timetables.latest_filtered_vehicle_that_debark(&1000, &timetable, &first, |_| true);
    assert_eq!(latest, None);
}
