use vstd::prelude::*;

use crate::time::{PositiveDuration, UtcDateTime};

verus! {

/// A place of a journey request and how long it takes to reach it (or leave it), in seconds.
pub struct LocationContext {
    pub place: String,
    pub access_duration: i32,
}

/// What a journey request asks, as plain values.
pub struct JourneysRequestData {
    pub origin: Vec<LocationContext>,
    pub destination: Vec<LocationContext>,
    /// the requested departure times, in seconds since 1970-01-01 00:00:00 UTC
    pub datetimes: Vec<u64>,
    pub max_duration: i32,
    pub max_transfers: i32,
    pub clockwise: bool,
}

/// The parameters used when a request does not give them.
#[derive(Debug, Clone, Copy, PartialEq, Eq, Structural)]
pub struct RequestParams {
    pub leg_arrival_penalty: PositiveDuration,
    pub leg_walking_penalty: PositiveDuration,
    pub max_nb_of_legs: u8,
    pub max_journey_duration: PositiveDuration,
    pub too_late_threshold: PositiveDuration,
}

/// What the journey planner is asked to solve.
pub struct RequestInput {
    pub datetime: UtcDateTime,
    pub departures_stop_point_and_fallback_duration: Vec<(String, PositiveDuration)>,
    pub arrivals_stop_point_and_fallback_duration: Vec<(String, PositiveDuration)>,
    pub leg_arrival_penalty: PositiveDuration,
    pub leg_walking_penalty: PositiveDuration,
    pub max_nb_of_legs: u8,
    pub max_journey_duration: PositiveDuration,
    pub too_late_threshold: PositiveDuration,
}

/// Why a request cannot be turned into a request input.
#[derive(Debug, Clone, Copy, PartialEq, Eq, Structural)]
pub enum SolveError {
    /// The request gives no departure date and time.
    NoDepartureDatetime,
    /// The first departure date and time does not fit in an `i64`.
    DepartureDatetimeOutOfRange(u64),
}

/// Whether the requested date and time is the one to leave at or the one to arrive by.
#[derive(Debug, Clone, Copy, PartialEq, Eq, Structural)]
pub enum DateTimeRepresent {
    Departure,
    Arrival,
}

/// A clockwise request gives the date and time to leave at; another, the one to arrive by.
pub fn datetime_represent(request: &JourneysRequestData) -> (result: DateTimeRepresent)
    ensures
        result == (if request.clockwise { DateTimeRepresent::Departure } else { DateTimeRepresent::Arrival }),
{
    if request.clockwise {
        DateTimeRepresent::Departure
    } else {
        DateTimeRepresent::Arrival
    }
}

/// The prefix of the places that are stop points.
pub open spec fn stop_point_prefix() -> Seq<char> {
    seq!['s', 't', 'o', 'p', '_', 'p', 'o', 'i', 'n', 't', ':']
}

/// The stop point identifiers (the places that start with `stop_point:`, without it) with their
/// access durations, in order, of the locations whose access duration is not negative.
pub open spec fn kept_locations(locations: Seq<LocationContext>) -> Seq<(Seq<char>, PositiveDuration)>
    decreases locations.len(),
{
    if locations.len() == 0 {
        Seq::empty()
    } else {
        let previous = kept_locations(locations.drop_last());
        let location = locations.last();
        let place = location.place@;
        if location.access_duration >= 0 && place.len() >= 11 && place.subrange(0, 11) == stop_point_prefix() {
            previous.push((place.subrange(11, place.len() as int), location.access_duration as u32))
        } else {
            previous
        }
    }
}

/// A location that the planner is given: its access duration is not negative and its place
/// starts with `stop_point:`.
pub open spec fn location_kept(location: LocationContext) -> bool {
    &&& location.access_duration >= 0
    &&& location.place@.len() >= 11
    &&& location.place@.subrange(0, 11) == stop_point_prefix()
}

/// What the planner is given of a location: the identifier of its stop point, without the
/// `stop_point:` prefix, and its access duration.
pub open spec fn kept_entry(location: LocationContext) -> (Seq<char>, PositiveDuration) {
    (location.place@.subrange(11, location.place@.len() as int), location.access_duration as u32)
}

/// Every location whose access duration is not negative and whose place starts with
/// `stop_point:` is kept, in order, as its stop point identifier and duration, and no other:
/// the kept entries are the locations filtered by that condition, each turned into its entry.
/// So there are as many entries as such locations.
pub proof fn lemma_kept_locations_filter(locations: Seq<LocationContext>)
    ensures
        kept_locations(locations) == locations.filter(|l: LocationContext| location_kept(l)).map_values(
            |l: LocationContext| kept_entry(l),
        ),
        kept_locations(locations).len() == locations.filter(|l: LocationContext| location_kept(l)).len(),
    decreases locations.len(),
{
    reveal(Seq::filter);
    if locations.len() > 0 {
        lemma_kept_locations_filter(locations.drop_last());
        let kept = locations.drop_last().filter(|l: LocationContext| location_kept(l));
        let entries = kept.map_values(|l: LocationContext| kept_entry(l));
        if location_kept(locations.last()) {
            assert(kept.push(locations.last()).map_values(|l: LocationContext| kept_entry(l))
                =~= entries.push(kept_entry(locations.last())));
        }
    }
}

/// The stop point identifiers with their durations, as plain views.
pub open spec fn places_view(places: Seq<(String, PositiveDuration)>) -> Seq<(Seq<char>, PositiveDuration)> {
    places.map_values(|place: (String, PositiveDuration)| (place.0@, place.1))
}

/// The identifier of the stop point the place names, when it starts with `stop_point:`.
fn strip_stop_point_prefix(place: &String) -> (result: Option<String>)
    ensures
        place@.len() >= 11 && place@.subrange(0, 11) == stop_point_prefix()
            ==> (result matches Some(id) && id@ == place@.subrange(11, place@.len() as int)),
        !(place@.len() >= 11 && place@.subrange(0, 11) == stop_point_prefix()) ==> result is None,
{
    let prefix = "stop_point:";
    proof {
        reveal_strlit("stop_point:");
        assert(prefix@ =~= stop_point_prefix());
    }
    let text = place.as_str();
    let n = text.unicode_len();
    if n < 11 {
        return None;
    }
    let mut i: usize = 0;
    while i < 11
        invariant
            i <= 11,
            n == text@.len(),
            n >= 11,
            text@ == place@,
            prefix@ == stop_point_prefix(),
            forall|k: int| 0 <= k < i ==> text@[k] == prefix@[k],
        decreases 11 - i,
    {
        if text.get_char(i) != prefix.get_char(i) {
            proof {
                assert(text@.subrange(0, 11)[i as int] != stop_point_prefix()[i as int]);
            }
            return None;
        }
        i = i + 1;
    }
    proof {
        assert(text@.subrange(0, 11) =~= stop_point_prefix());
    }
    Some(String::from_str(text.substring_char(11, n)))
}

/// The stop points of the locations, kept as `kept_locations` says.
fn keep_locations(locations: &Vec<LocationContext>) -> (result: Vec<(String, PositiveDuration)>)
    ensures
        places_view(result@) == kept_locations(locations@),
{
    let mut result: Vec<(String, PositiveDuration)> = Vec::new();
    let mut i: usize = 0;
    while i < locations.len()
        invariant
            i <= locations@.len(),
            places_view(result@) == kept_locations(locations@.subrange(0, i as int)),
        decreases locations@.len() - i,
    {
        let location = &locations[i];
        proof {
            let prefix = locations@.subrange(0, i + 1);
            assert(prefix.drop_last() =~= locations@.subrange(0, i as int));
            assert(prefix.last() == locations@[i as int]);
        }
        let ghost before = result@;
        if location.access_duration >= 0 {
            match strip_stop_point_prefix(&location.place) {
                Some(id) => {
                    let duration: u32 = location.access_duration as u32;
                    result.push((id, duration));
                    proof {
                        assert(places_view(result@) =~= places_view(before).push((result@.last().0@, duration)));
                    }
                },
                None => {},
            }
        }
        i = i + 1;
    }
    proof {
        assert(locations@.subrange(0, i as int) =~= locations@);
    }
    result
}

/// The input of the journey planner for a request: its stop points with their fallback
/// durations (places that are not stop points, or whose duration is negative, are left out), its
/// first departure date and time, and its maximal duration and number of legs (the defaults when
/// the request's do not fit).
pub fn request_input(request: &JourneysRequestData, defaults: &RequestParams) -> (result: Result<RequestInput, SolveError>)
    requires
        request.max_transfers < i32::MAX,
    ensures
        request.datetimes@.len() == 0 ==> result == Err::<RequestInput, SolveError>(SolveError::NoDepartureDatetime),
        request.datetimes@.len() > 0 && request.datetimes@[0] > i64::MAX
            ==> result == Err::<RequestInput, SolveError>(SolveError::DepartureDatetimeOutOfRange(request.datetimes@[0])),
        request.datetimes@.len() > 0 && request.datetimes@[0] <= i64::MAX ==> result is Ok,
        result matches Ok(input) ==> ({
            &&& input.datetime.seconds_since_epoch == request.datetimes@[0]
            &&& places_view(input.departures_stop_point_and_fallback_duration@) == kept_locations(request.origin@)
            &&& places_view(input.arrivals_stop_point_and_fallback_duration@) == kept_locations(request.destination@)
            &&& places_view(input.departures_stop_point_and_fallback_duration@)
                == request.origin@.filter(|l: LocationContext| location_kept(l)).map_values(|l: LocationContext| kept_entry(l))
            &&& places_view(input.arrivals_stop_point_and_fallback_duration@)
                == request.destination@.filter(|l: LocationContext| location_kept(l)).map_values(|l: LocationContext| kept_entry(l))
            &&& input.max_journey_duration == (if 0 <= request.max_duration { request.max_duration as u32 } else { defaults.max_journey_duration })
            &&& input.max_nb_of_legs == (if 0 <= request.max_transfers + 1 <= 255 { (request.max_transfers + 1) as u8 } else { defaults.max_nb_of_legs })
            &&& input.leg_arrival_penalty == defaults.leg_arrival_penalty
            &&& input.leg_walking_penalty == defaults.leg_walking_penalty
            &&& input.too_late_threshold == defaults.too_late_threshold
        }),
{
    proof {
        lemma_kept_locations_filter(request.origin@);
        lemma_kept_locations_filter(request.destination@);
    }
    let departures = keep_locations(&request.origin);
    let arrivals = keep_locations(&request.destination);
    if request.datetimes.len() == 0 {
        return Err(SolveError::NoDepartureDatetime);
    }
    let timestamp = request.datetimes[0];
    if timestamp > 0x7fff_ffff_ffff_ffff {
        return Err(SolveError::DepartureDatetimeOutOfRange(timestamp));
    }
    let datetime = UtcDateTime { seconds_since_epoch: timestamp as i64 };
    let max_journey_duration: u32 = if request.max_duration >= 0 {
        request.max_duration as u32
    } else {
        defaults.max_journey_duration
    };
    let max_legs: i32 = request.max_transfers + 1;
    let max_nb_of_legs: u8 = if 0 <= max_legs && max_legs <= 255 {
        max_legs as u8
    } else {
        defaults.max_nb_of_legs
    };
    Ok(RequestInput {
        datetime,
        departures_stop_point_and_fallback_duration: departures,
        arrivals_stop_point_and_fallback_duration: arrivals,
        leg_arrival_penalty: defaults.leg_arrival_penalty,
        leg_walking_penalty: defaults.leg_walking_penalty,
        max_nb_of_legs,
        max_journey_duration,
        too_late_threshold: defaults.too_late_threshold,
    })
}

} // verus!
