# loki

The core of a public transit journey planner, verified with Verus: timetables of
vehicles, the journeys built on them and their text output, the parsing of
requests, and a real-time model that applies and cancels disruptions.

## Layout

- `src/transit_data/ordered_timetable.rs`: timetables whose vehicles are kept
  ordered by their times, and stop patterns that group them; the earliest
  vehicle to board at a position.
- `src/timetables/generic_timetables.rs`: timetables keyed by their stops and
  flow directions, with loads; earliest boarding and latest debarking vehicles.
- `src/transit_data/data_interface.rs`: the transit data a journey is read from.
- `src/response.rs`: journeys, their validity, durations, sections and text.
- `src/request/generic_request.rs`: request types, the parsing of departures,
  arrivals and dates, and the names used in logs.
- `src/models/`: the base schedule, the real-time model, disruptions and how
  they are applied to and cancelled from the real-time model.
- `src/text.rs`, `src/time.rs`, `src/loads_data.rs`: numbers and durations as
  text, times of the dataset, loads.
- `app/`: logging setup.
- `tests/`: tests on concrete values.
