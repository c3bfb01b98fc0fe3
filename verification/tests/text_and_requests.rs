use loki::models::{ModelRefs, StopPointIdx};
use loki::request::generic_request::{
    parse_arrivals, parse_arrivals_filtered, parse_datetime, parse_departures, parse_departures_filtered, Arrivals,
    BadRequest, Calendar, Departures,
};
use loki::request::request_input::{datetime_represent, request_input, DateTimeRepresent, JourneysRequestData, LocationContext, RequestParams, SolveError};
use loki::time::UtcDateTime;
use loki::transit_data::data_interface::TransitData;
use loki::transit_data::Stop;
use loki::text::{write_decimal, write_duration_text, write_padded_decimal, write_signed_decimal};

fn duration(seconds: i64) -> String {
    let mut text = String::new();
    write_duration_text(&mut text, seconds);
    text
}

#[test]
fn durations_are_written_in_hours_minutes_seconds() {
    assert_eq!(duration(3723), "1h02m03s");
    assert_eq!(duration(123), "2m03s");
    assert_eq!(duration(3), "3s");
    assert_eq!(duration(0), "0s");
    assert_eq!(duration(36000), "10h00m00s");
    assert_eq!(duration(-123), "-2m-3s");
    assert_eq!(duration(-3723), "-1h-2m-3s");
}

#[test]
fn numbers_are_written_in_decimal() {
    let mut text = String::new();
    write_decimal(&mut text, 0);
    write_decimal(&mut text, 1234567890);
    write_signed_decimal(&mut text, -42);
    write_signed_decimal(&mut text, i64::MIN);
    write_padded_decimal(&mut text, 7);
    write_padded_decimal(&mut text, 42);
    assert_eq!(text, format!("01234567890-42{}0742", i64::MIN));
}

#[test]
fn departures_and_arrivals_are_enumerated() {
    let mut departures = Departures::new(2, 4);
    assert_eq!(departures.next().map(|departure| departure.idx()), Some(2));
    assert_eq!(departures.next().map(|departure| departure.idx()), Some(3));
    assert!(departures.next().is_none());
    let mut arrivals = Arrivals::new(0, 1);
    assert_eq!(arrivals.next().map(|arrival| arrival.idx()), Some(0));
    assert!(arrivals.next().is_none());
}

fn request_model() -> ModelRefs {
    ModelRefs {
        vehicle_journey_names: vec![],
        line_names: vec![],
        route_names: vec![],
        stop_point_names: vec!["Gare".to_string(), "Mairie".to_string(), "Quai".to_string()],
        stop_point_ids: vec!["sp:gare".to_string(), "sp:mairie".to_string(), "sp:quai".to_string()],
        stop_times: vec![],
    }
}

fn entries(list: &[(&str, u32)]) -> Vec<(String, u32)> {
    list.iter().map(|(id, duration)| (id.to_string(), *duration)).collect()
}

#[test]
fn departures_keep_the_known_stop_points_in_order() {
    let model = request_model();
    let data = TransitData::new(UtcDateTime { seconds_since_epoch: 0 });
    let parsed = parse_departures(&entries(&[("sp:quai", 60), ("sp:unknown", 10), ("sp:gare", 120)]), &model, &data);
    assert_eq!(parsed, Ok(vec![(Stop { idx: 2 }, 60), (Stop { idx: 0 }, 120)]));
    let none = parse_departures(&entries(&[("sp:unknown", 10)]), &model, &data);
    assert_eq!(none, Err(BadRequest::NoValidDepartureStop));
    let empty = parse_arrivals(&entries(&[]), &model, &data);
    assert_eq!(empty, Err(BadRequest::NoValidArrivalStop));
}

#[test]
fn filtered_arrivals_drop_what_the_filter_refuses() {
    let model = request_model();
    let data = TransitData::new(UtcDateTime { seconds_since_epoch: 0 });
    let list = entries(&[("sp:gare", 1), ("sp:mairie", 2), ("sp:quai", 3)]);
    let parsed = parse_arrivals_filtered(&list, &model, &data, |stop_point: StopPointIdx| stop_point.idx != 1);
    assert_eq!(parsed, Ok(vec![(Stop { idx: 0 }, 1), (Stop { idx: 2 }, 3)]));
    let refused = parse_departures_filtered(&list, &model, &data, |_stop_point: StopPointIdx| false);
    assert_eq!(refused, Err(BadRequest::NoValidDepartureStop));
}

#[test]
fn requested_datetimes_must_lie_in_the_calendar() {
    let calendar = Calendar {
        first_datetime: UtcDateTime { seconds_since_epoch: 1000 },
        last_datetime: UtcDateTime { seconds_since_epoch: 5000 },
    };
    assert_eq!(parse_datetime(&UtcDateTime { seconds_since_epoch: 1000 }, &calendar), Ok(0));
    assert_eq!(parse_datetime(&UtcDateTime { seconds_since_epoch: 5000 }, &calendar), Ok(4000));
    assert_eq!(parse_datetime(&UtcDateTime { seconds_since_epoch: 999 }, &calendar), Err(BadRequest::RequestedDatetime));
    assert_eq!(parse_datetime(&UtcDateTime { seconds_since_epoch: 5001 }, &calendar), Err(BadRequest::RequestedDatetime));
}

fn location(place: &str, access_duration: i32) -> LocationContext {
    LocationContext { place: place.to_string(), access_duration }
}

fn defaults() -> RequestParams {
    RequestParams {
        leg_arrival_penalty: 60,
        leg_walking_penalty: 120,
        max_nb_of_legs: 10,
        max_journey_duration: 86400,
        too_late_threshold: 3600,
    }
}

fn journeys_request(datetimes: Vec<u64>, max_duration: i32, max_transfers: i32) -> JourneysRequestData {
    JourneysRequestData {
        origin: vec![location("stop_point:A", 30), location("stop_area:B", 10), location("stop_point:C", -5)],
        destination: vec![location("stop_point:D", 0)],
        datetimes,
        max_duration,
        max_transfers,
        clockwise: true,
    }
}

#[test]
fn request_input_keeps_the_stop_points() {
    let input = request_input(&journeys_request(vec![1_600_000_000, 5], 7200, 3), &defaults()).unwrap();
    assert_eq!(input.datetime, UtcDateTime { seconds_since_epoch: 1_600_000_000 });
    assert_eq!(input.departures_stop_point_and_fallback_duration, vec![("A".to_string(), 30)]);
    assert_eq!(input.arrivals_stop_point_and_fallback_duration, vec![("D".to_string(), 0)]);
    assert_eq!(input.max_journey_duration, 7200);
    assert_eq!(input.max_nb_of_legs, 4);
    assert_eq!(input.leg_walking_penalty, 120);
}

#[test]
fn request_input_falls_back_to_the_defaults() {
    let input = request_input(&journeys_request(vec![0], -1, 300), &defaults()).unwrap();
    assert_eq!(input.max_journey_duration, 86400);
    assert_eq!(input.max_nb_of_legs, 10);
}

#[test]
fn request_input_needs_a_departure_datetime() {
    assert!(matches!(request_input(&journeys_request(vec![], 0, 0), &defaults()), Err(SolveError::NoDepartureDatetime)));
    assert!(matches!(
        request_input(&journeys_request(vec![u64::MAX], 0, 0), &defaults()),
        Err(SolveError::DepartureDatetimeOutOfRange(u64::MAX))
    ));
}

#[test]
fn clockwise_requests_leave_at_the_datetime() {
    let mut request = journeys_request(vec![0], 0, 0);
    assert_eq!(datetime_represent(&request), DateTimeRepresent::Departure);
    request.clockwise = false;
    assert_eq!(datetime_represent(&request), DateTimeRepresent::Arrival);
}
