use vstd::prelude::*;

use crate::loads_data::LoadsCount;
use crate::models::{ModelRefs, StopPointIdx};
use crate::response::MAX_DATETIME_SECONDS;
use crate::text::{decimal, write_decimal};
use crate::time::{compose_day_and_time, PositiveDuration, SecondsSinceDatasetUTCStart, UtcDateTime, SECONDS_IN_A_DAY};
use crate::timetables::generic_timetables::{Position, Trip};
use crate::transit_data::data_interface::{Mission, TransitData};
use crate::transit_data::Stop;

verus! {

/// Why a journey minimizing the arrival time could not be built.
#[derive(Debug, Clone, Copy, PartialEq, Eq, Structural)]
pub enum MinimizeArrivalTimeError {
    NoBoardTime(Trip, Position),
    NoDebarkTime(Trip, Position),
    NoTrip(SecondsSinceDatasetUTCStart, Mission, Position),
}

/// Why a journey maximizing the departure time could not be built.
#[derive(Debug, Clone, Copy, PartialEq, Eq, Structural)]
pub enum MaximizeDepartureTimeError {
    NoBoardTime(Trip, Position),
    NoDebarkTime(Trip, Position),
    NoTrip(SecondsSinceDatasetUTCStart, Mission, Position),
}

impl MinimizeArrivalTimeError {
    /// The name of the kind of error.
    pub open spec fn debug_text_spec(&self) -> Seq<char> {
        match self {
            MinimizeArrivalTimeError::NoTrip(_, _, _) => "NoTrip"@,
            MinimizeArrivalTimeError::NoBoardTime(_, _) => "NoBoardTime"@,
            MinimizeArrivalTimeError::NoDebarkTime(_, _) => "NoDebarkTime"@,
        }
    }

    /// The name of the kind of error, as the error is shown in logs.
    pub fn debug_text(&self) -> (result: String)
        ensures
            result@ == self.debug_text_spec(),
    {
        match self {
            MinimizeArrivalTimeError::NoTrip(_, _, _) => String::from_str("NoTrip"),
            MinimizeArrivalTimeError::NoBoardTime(_, _) => String::from_str("NoBoardTime"),
            MinimizeArrivalTimeError::NoDebarkTime(_, _) => String::from_str("NoDebarkTime"),
        }
    }
}

impl MaximizeDepartureTimeError {
    /// The name of the kind of error.
    pub open spec fn debug_text_spec(&self) -> Seq<char> {
        match self {
            MaximizeDepartureTimeError::NoTrip(_, _, _) => "NoTrip"@,
            MaximizeDepartureTimeError::NoBoardTime(_, _) => "NoBoardTime"@,
            MaximizeDepartureTimeError::NoDebarkTime(_, _) => "NoDebarkTime"@,
        }
    }

    /// The name of the kind of error, as the error is shown in logs.
    pub fn debug_text(&self) -> (result: String)
        ensures
            result@ == self.debug_text_spec(),
    {
        match self {
            MaximizeDepartureTimeError::NoTrip(_, _, _) => String::from_str("NoTrip"),
            MaximizeDepartureTimeError::NoBoardTime(_, _) => String::from_str("NoBoardTime"),
            MaximizeDepartureTimeError::NoDebarkTime(_, _) => String::from_str("NoDebarkTime"),
        }
    }
}

/// The criteria by which journeys are compared.
#[derive(Debug, Clone, Copy, PartialEq, Eq, Structural)]
pub struct Criteria {
    pub(super) time: SecondsSinceDatasetUTCStart,
    pub(super) nb_of_legs: u8,
    pub(super) fallback_duration: PositiveDuration,
    pub(super) transfers_duration: PositiveDuration,
    pub(super) loads_count: LoadsCount,
}

/// The types of a request on the transit data `Data`.
pub struct Types<Data> {
    _phantom: core::marker::PhantomData<Data>,
}

/// A departure stop of a request, identified by its index.
#[derive(Debug, Clone, Copy, PartialEq, Eq, Structural)]
pub struct Departure {
    pub(super) idx: usize,
}

/// An arrival stop of a request, identified by its index.
#[derive(Debug, Clone, Copy, PartialEq, Eq, Structural)]
pub struct Arrival {
    pub(super) idx: usize,
}

/// The departures of a request, in order.
pub struct Departures {
    pub(super) inner: core::ops::Range<usize>,
}

impl Departures {
    pub closed spec fn start(&self) -> usize {
        self.inner.start
    }

    pub closed spec fn end(&self) -> usize {
        self.inner.end
    }

    /// The departures with an index in `start..end`.
    pub fn new(start: usize, end: usize) -> (result: Self)
        ensures
            result.start() == start,
            result.end() == end,
    {
        Departures { inner: core::ops::Range { start, end } }
    }

    /// The next departure, if any.
    pub fn next(&mut self) -> (result: Option<Departure>)
        ensures
            old(self).start() < old(self).end() ==> (result matches Some(item) && item.index() == old(self).start()),
            old(self).start() < old(self).end() ==> final(self).start() == old(self).start() + 1 && final(self).end() == old(self).end(),
            old(self).start() >= old(self).end() ==> result is None && *final(self) == *old(self),
    {
        if self.inner.start < self.inner.end {
            let idx = self.inner.start;
            self.inner.start = idx + 1;
            Some(Departure { idx })
        } else {
            None
        }
    }
}

impl Departure {
    pub closed spec fn index(&self) -> usize {
        self.idx
    }

    pub fn idx(&self) -> (result: usize)
        ensures
            result == self.index(),
    {
        self.idx
    }
}

impl Arrival {
    pub closed spec fn index(&self) -> usize {
        self.idx
    }

    pub fn idx(&self) -> (result: usize)
        ensures
            result == self.index(),
    {
        self.idx
    }
}

/// The arrivals of a request, in order.
pub struct Arrivals {
    pub(super) inner: core::ops::Range<usize>,
}

impl Arrivals {
    pub closed spec fn start(&self) -> usize {
        self.inner.start
    }

    pub closed spec fn end(&self) -> usize {
        self.inner.end
    }

    /// The arrivals with an index in `start..end`.
    pub fn new(start: usize, end: usize) -> (result: Self)
        ensures
            result.start() == start,
            result.end() == end,
    {
        Arrivals { inner: core::ops::Range { start, end } }
    }

    /// The next arrival, if any.
    pub fn next(&mut self) -> (result: Option<Arrival>)
        ensures
            old(self).start() < old(self).end() ==> (result matches Some(item) && item.index() == old(self).start()),
            old(self).start() < old(self).end() ==> final(self).start() == old(self).start() + 1 && final(self).end() == old(self).end(),
            old(self).start() >= old(self).end() ==> result is None && *final(self) == *old(self),
    {
        if self.inner.start < self.inner.end {
            let idx = self.inner.start;
            self.inner.start = idx + 1;
            Some(Arrival { idx })
        } else {
            None
        }
    }
}

/// Why a request cannot be answered.
#[derive(Debug, Clone, Copy, PartialEq, Eq, Structural)]
pub enum BadRequest {
    /// The requested date and time lies outside the dates of the dataset.
    RequestedDatetime,
    /// None of the departure stop points is usable.
    NoValidDepartureStop,
    /// None of the arrival stop points is usable.
    NoValidArrivalStop,
}

/// The dates and times, in UTC, that the dataset covers, bounds included.
#[derive(Debug, Clone, Copy, PartialEq, Eq, Structural)]
pub struct Calendar {
    pub first_datetime: UtcDateTime,
    pub last_datetime: UtcDateTime,
}

impl Calendar {
    /// The seconds since the start of the dataset at `datetime`, when the dataset covers it.
    pub fn from_naive_datetime(&self, datetime: &UtcDateTime) -> (result: Option<SecondsSinceDatasetUTCStart>)
        ensures
            result == (if self.first_datetime.seconds_since_epoch <= datetime.seconds_since_epoch <= self.last_datetime.seconds_since_epoch {
                Some((datetime.seconds_since_epoch - self.first_datetime.seconds_since_epoch) as u64)
            } else {
                None::<u64>
            }),
    {
        if self.first_datetime.seconds_since_epoch <= datetime.seconds_since_epoch
            && datetime.seconds_since_epoch <= self.last_datetime.seconds_since_epoch {
            let offset: i128 = datetime.seconds_since_epoch as i128 - self.first_datetime.seconds_since_epoch as i128;
            Some(offset as u64)
        } else {
            None
        }
    }
}

/// The seconds since the start of the dataset at the requested date and time; refused when the
/// dataset does not cover it.
pub fn parse_datetime(datetime: &UtcDateTime, calendar: &Calendar) -> (result: Result<SecondsSinceDatasetUTCStart, BadRequest>)
    ensures
        result == (match calendar.from_naive_datetime_spec(*datetime) {
            Some(seconds) => Ok(seconds),
            None => Err(BadRequest::RequestedDatetime),
        }),
        result is Ok <==> calendar.first_datetime.seconds_since_epoch <= datetime.seconds_since_epoch
            <= calendar.last_datetime.seconds_since_epoch,
        result matches Ok(seconds) ==> calendar.first_datetime.seconds_since_epoch + seconds
            == datetime.seconds_since_epoch,
        result is Err ==> result == Err::<SecondsSinceDatasetUTCStart, BadRequest>(BadRequest::RequestedDatetime),
{
    match calendar.from_naive_datetime(datetime) {
        Some(seconds) => Ok(seconds),
        None => Err(BadRequest::RequestedDatetime),
    }
}

/// A datetime that the calendar covers is placed at its offset from the first datetime of the
/// calendar: adding the offset back to the first datetime gives the datetime again. A datetime
/// that the calendar does not cover is placed nowhere.
pub proof fn lemma_from_naive_datetime_offset(calendar: Calendar, datetime: UtcDateTime)
    ensures
        calendar.first_datetime.seconds_since_epoch <= datetime.seconds_since_epoch
            <= calendar.last_datetime.seconds_since_epoch ==> (calendar.from_naive_datetime_spec(datetime) matches Some(seconds)
            && calendar.first_datetime.seconds_since_epoch + seconds == datetime.seconds_since_epoch),
        !(calendar.first_datetime.seconds_since_epoch <= datetime.seconds_since_epoch
            <= calendar.last_datetime.seconds_since_epoch) ==> calendar.from_naive_datetime_spec(datetime) is None,
{
}

impl Calendar {
    pub open spec fn from_naive_datetime_spec(&self, datetime: UtcDateTime) -> Option<SecondsSinceDatasetUTCStart> {
        if self.first_datetime.seconds_since_epoch <= datetime.seconds_since_epoch <= self.last_datetime.seconds_since_epoch {
            Some((datetime.seconds_since_epoch - self.first_datetime.seconds_since_epoch) as u64)
        } else {
            None
        }
    }
}

/// The stops, with their fallback durations and in order, of the entries whose stop point the
/// model knows and that `kept` keeps (stops are numbered as the stop points).
pub open spec fn parsed_stops(model: &ModelRefs, entries: Seq<(String, PositiveDuration)>, kept: Seq<bool>) -> Seq<(Stop, PositiveDuration)>
    decreases entries.len(),
{
    if entries.len() == 0 {
        Seq::empty()
    } else {
        let previous = parsed_stops(model, entries.drop_last(), kept.drop_last());
        match model.stop_point_index(entries.last().0@) {
            Some(s) => if kept.last() {
                previous.push((Stop { idx: s as usize }, entries.last().1))
            } else {
                previous
            },
            None => previous,
        }
    }
}

/// The entry, with the filter's answer for it, is parsed: the model knows its stop point and the
/// filter keeps it.
pub open spec fn entry_parsed(model: &ModelRefs, entry: ((String, PositiveDuration), bool)) -> bool {
    model.stop_point_index(entry.0.0@) is Some && entry.1
}

/// What a parsed entry gives: the stop of its stop point, with its fallback duration.
pub open spec fn parsed_entry(model: &ModelRefs, entry: ((String, PositiveDuration), bool)) -> (Stop, PositiveDuration) {
    (Stop { idx: model.stop_point_index(entry.0.0@)->Some_0 as usize }, entry.0.1)
}

/// Every entry whose stop point the model knows and that the filter keeps gives its stop and
/// fallback duration, in order, and no other entry gives anything: the parsed stops are the
/// entries, paired with the filter's answers, filtered by that condition and each turned into
/// its stop.
pub proof fn lemma_parsed_stops_filter(model: &ModelRefs, entries: Seq<(String, PositiveDuration)>, kept: Seq<bool>)
    requires
        kept.len() == entries.len(),
    ensures
        parsed_stops(model, entries, kept) == entries.zip_with(kept).filter(
            |e: ((String, PositiveDuration), bool)| entry_parsed(model, e),
        ).map_values(|e: ((String, PositiveDuration), bool)| parsed_entry(model, e)),
    decreases entries.len(),
{
    reveal(Seq::filter);
    if entries.len() > 0 {
        lemma_parsed_stops_filter(model, entries.drop_last(), kept.drop_last());
        let pairs = entries.zip_with(kept);
        assert(pairs.drop_last() =~= entries.drop_last().zip_with(kept.drop_last()));
        assert(pairs.last() == (entries.last(), kept.last()));
        let filtered = pairs.drop_last().filter(|e: ((String, PositiveDuration), bool)| entry_parsed(model, e));
        if entry_parsed(model, pairs.last()) {
            assert(filtered.push(pairs.last()).map_values(|e: ((String, PositiveDuration), bool)| parsed_entry(model, e))
                =~= filtered.map_values(|e: ((String, PositiveDuration), bool)| parsed_entry(model, e)).push(parsed_entry(model, pairs.last())));
        }
    }
}

/// `kept` holds, for each entry whose stop point the model knows, what the filter answered.
pub open spec fn filter_answers<Filter: Fn(StopPointIdx) -> bool>(
    model: &ModelRefs,
    entries: Seq<(String, PositiveDuration)>,
    filter: Filter,
    kept: Seq<bool>,
) -> bool {
    &&& kept.len() == entries.len()
    &&& forall|i: int| 0 <= i < entries.len() ==> match model.stop_point_index((#[trigger] entries[i]).0@) {
        Some(s) => filter.ensures((StopPointIdx { idx: s as usize },), kept[i]),
        None => true,
    }
}

/// The parsed stops, or `error` when there is none.
pub open spec fn parsed_or(stops: Seq<(Stop, PositiveDuration)>, result: Result<Vec<(Stop, PositiveDuration)>, BadRequest>, error: BadRequest) -> bool {
    if stops.len() == 0 {
        result == Err::<Vec<(Stop, PositiveDuration)>, BadRequest>(error)
    } else {
        result matches Ok(v) && v@ == stops
    }
}

/// Two answers that agree on the entries whose stop point the model knows keep the same stops.
pub proof fn lemma_parsed_stops_same(model: &ModelRefs, entries: Seq<(String, PositiveDuration)>, k1: Seq<bool>, k2: Seq<bool>)
    requires
        k1.len() == entries.len(),
        k2.len() == entries.len(),
        forall|i: int| 0 <= i < entries.len() && (#[trigger] model.stop_point_index(entries[i].0@)) is Some ==> k1[i] == k2[i],
    ensures
        parsed_stops(model, entries, k1) == parsed_stops(model, entries, k2),
    decreases entries.len(),
{
    if entries.len() > 0 {
        let n = entries.len() - 1;
        assert forall|i: int| 0 <= i < entries.drop_last().len()
            && (#[trigger] model.stop_point_index(entries.drop_last()[i].0@)) is Some implies k1.drop_last()[i] == k2.drop_last()[i] by {
            assert(entries.drop_last()[i] == entries[i]);
            assert(model.stop_point_index(entries[i].0@) is Some);
        }
        lemma_parsed_stops_same(model, entries.drop_last(), k1.drop_last(), k2.drop_last());
        if model.stop_point_index(entries[n].0@) is Some {
            assert(k1[n] == k2[n]);
        }
    }
}

/// The stops of the entries whose stop point the model knows and the filter keeps, with their
/// fallback durations, in order; `error` when there is none.
fn parse_stops_filtered<Filter: Fn(StopPointIdx) -> bool>(
    stop_point_and_fallback_duration: &[(String, PositiveDuration)],
    model: &ModelRefs,
    transit_data: &TransitData,
    filter: Filter,
    error: BadRequest,
) -> (result: Result<Vec<(Stop, PositiveDuration)>, BadRequest>)
    requires
        forall|s: StopPointIdx| filter.requires((s,)),
    ensures
        exists|kept: Seq<bool>| #![trigger parsed_stops(model, stop_point_and_fallback_duration@, kept)]
            filter_answers(model, stop_point_and_fallback_duration@, filter, kept)
                && parsed_or(parsed_stops(model, stop_point_and_fallback_duration@, kept), result, error),
{
    let entries = stop_point_and_fallback_duration;
    let mut stops: Vec<(Stop, PositiveDuration)> = Vec::new();
    let ghost mut kept: Seq<bool> = Seq::empty();
    let mut i: usize = 0;
    while i < entries.len()
        invariant
            i <= entries@.len(),
            forall|s: StopPointIdx| filter.requires((s,)),
            filter_answers(model, entries@.subrange(0, i as int), filter, kept),
            stops@ == parsed_stops(model, entries@.subrange(0, i as int), kept),
        decreases entries@.len() - i,
    {
        let ghost before = kept;
        let entry = &entries[i];
        proof {
            let prefix = entries@.subrange(0, i + 1);
            assert(prefix.drop_last() =~= entries@.subrange(0, i as int));
            assert(prefix.last() == entries@[i as int]);
        }
        match model.stop_point_idx(&entry.0) {
            Some(stop_point) => {
                let keep = filter(stop_point);
                proof {
                    kept = kept.push(keep);
                }
                if keep {
                    match transit_data.stop_point_idx_to_stop(&stop_point) {
                        Some(stop) => {
                            stops.push((stop, entry.1));
                        },
                        None => {},
                    }
                }
            },
            None => {
                proof {
                    kept = kept.push(false);
                }
            },
        }
        proof {
            let prefix = entries@.subrange(0, i + 1);
            assert(kept.drop_last() =~= before);
            assert forall|k: int| 0 <= k < prefix.len() implies match model.stop_point_index((#[trigger] prefix[k]).0@) {
                Some(s) => filter.ensures((StopPointIdx { idx: s as usize },), kept[k]),
                None => true,
            } by {
                if k < i {
                    assert(prefix[k] == entries@.subrange(0, i as int)[k]);
                    assert(kept[k] == before[k]);
                }
            }
        }
        i = i + 1;
    }
    proof {
        assert(entries@.subrange(0, i as int) =~= entries@);
    }
    if stops.len() == 0 {
        Err(error)
    } else {
        Ok(stops)
    }
}

/// The stops of the departure stop points that the model knows and the filter keeps, with their
/// fallback durations, in order; refused when there is none.
pub fn parse_departures_filtered<Filter: Fn(StopPointIdx) -> bool>(
    departures_stop_point_and_fallback_duration: &[(String, PositiveDuration)],
    model: &ModelRefs,
    transit_data: &TransitData,
    filter: Filter,
) -> (result: Result<Vec<(Stop, PositiveDuration)>, BadRequest>)
    requires
        forall|s: StopPointIdx| filter.requires((s,)),
    ensures
        exists|kept: Seq<bool>| #![trigger parsed_stops(model, departures_stop_point_and_fallback_duration@, kept)]
            filter_answers(model, departures_stop_point_and_fallback_duration@, filter, kept)
                && parsed_or(parsed_stops(model, departures_stop_point_and_fallback_duration@, kept), result,
                    BadRequest::NoValidDepartureStop),
{
    parse_stops_filtered(departures_stop_point_and_fallback_duration, model, transit_data, filter, BadRequest::NoValidDepartureStop)
}

/// The stops of the arrival stop points that the model knows and the filter keeps, with their
/// fallback durations, in order; refused when there is none.
pub fn parse_arrivals_filtered<Filter: Fn(StopPointIdx) -> bool>(
    arrivals_stop_point_and_fallback_duration: &[(String, PositiveDuration)],
    model: &ModelRefs,
    transit_data: &TransitData,
    filter: Filter,
) -> (result: Result<Vec<(Stop, PositiveDuration)>, BadRequest>)
    requires
        forall|s: StopPointIdx| filter.requires((s,)),
    ensures
        exists|kept: Seq<bool>| #![trigger parsed_stops(model, arrivals_stop_point_and_fallback_duration@, kept)]
            filter_answers(model, arrivals_stop_point_and_fallback_duration@, filter, kept)
                && parsed_or(parsed_stops(model, arrivals_stop_point_and_fallback_duration@, kept), result,
                    BadRequest::NoValidArrivalStop),
{
    parse_stops_filtered(arrivals_stop_point_and_fallback_duration, model, transit_data, filter, BadRequest::NoValidArrivalStop)
}

/// Keeps every stop point.
fn keep_all(_stop_point: StopPointIdx) -> (result: bool)
    ensures
        result,
{
    true
}

/// Keeps all the entries.
pub open spec fn all_kept(entries: Seq<(String, PositiveDuration)>) -> Seq<bool> {
    Seq::new(entries.len(), |i: int| true)
}

/// The stops of the departure stop points that the model knows, with their fallback durations,
/// in order; refused when there is none.
pub fn parse_departures(
    departures_stop_point_and_fallback_duration: &[(String, PositiveDuration)],
    model: &ModelRefs,
    transit_data: &TransitData,
) -> (result: Result<Vec<(Stop, PositiveDuration)>, BadRequest>)
    ensures
        parsed_or(parsed_stops(model, departures_stop_point_and_fallback_duration@, all_kept(departures_stop_point_and_fallback_duration@)),
            result, BadRequest::NoValidDepartureStop),
{
    let result = parse_departures_filtered(departures_stop_point_and_fallback_duration, model, transit_data, keep_all);
    proof {
        let entries = departures_stop_point_and_fallback_duration@;
        let kept = choose|kept: Seq<bool>| filter_answers(model, entries, keep_all, kept)
            && parsed_or(parsed_stops(model, entries, kept), result, BadRequest::NoValidDepartureStop);
        assert forall|i: int| 0 <= i < entries.len() && (#[trigger] model.stop_point_index(entries[i].0@)) is Some
            implies kept[i] == all_kept(entries)[i] by {
            assert(match model.stop_point_index(entries[i].0@) {
                Some(s) => keep_all.ensures((StopPointIdx { idx: s as usize },), kept[i]),
                None => true,
            });
        }
        lemma_parsed_stops_same(model, entries, kept, all_kept(entries));
    }
    result
}

/// The stops of the arrival stop points that the model knows, with their fallback durations, in
/// order; refused when there is none.
pub fn parse_arrivals(
    arrivals_stop_point_and_fallback_duration: &[(String, PositiveDuration)],
    model: &ModelRefs,
    transit_data: &TransitData,
) -> (result: Result<Vec<(Stop, PositiveDuration)>, BadRequest>)
    ensures
        parsed_or(parsed_stops(model, arrivals_stop_point_and_fallback_duration@, all_kept(arrivals_stop_point_and_fallback_duration@)),
            result, BadRequest::NoValidArrivalStop),
{
    let result = parse_arrivals_filtered(arrivals_stop_point_and_fallback_duration, model, transit_data, keep_all);
    proof {
        let entries = arrivals_stop_point_and_fallback_duration@;
        let kept = choose|kept: Seq<bool>| filter_answers(model, entries, keep_all, kept)
            && parsed_or(parsed_stops(model, entries, kept), result, BadRequest::NoValidArrivalStop);
        assert forall|i: int| 0 <= i < entries.len() && (#[trigger] model.stop_point_index(entries[i].0@)) is Some
            implies kept[i] == all_kept(entries)[i] by {
            assert(match model.stop_point_index(entries[i].0@) {
                Some(s) => keep_all.ensures((StopPointIdx { idx: s as usize },), kept[i]),
                None => true,
            });
        }
        lemma_parsed_stops_same(model, entries, kept, all_kept(entries));
    }
    result
}

/// How chrono writes (with `Display`, as in `2015-09-05`) the date of the UTC date and time
/// `seconds_since_epoch` seconds after 1970-01-01 00:00:00.
pub uninterp spec fn date_text(seconds_since_epoch: i64) -> Seq<char>;

/// Writes the date of a date and time with chrono: `NaiveDateTime::from_timestamp` (which panics
/// only out of chrono's range of about 262,000 years around year 0, far wider than the range
/// required here), `NaiveDateTime::date`, then `NaiveDate`'s `Display`. The contract claims that
/// the text is `date_text` of the number of seconds, and nothing more.
#[verifier::external_body]
fn write_day(datetime: &UtcDateTime) -> (result: String)
    requires
        -MAX_DATETIME_SECONDS <= datetime.seconds_since_epoch <= MAX_DATETIME_SECONDS,
    ensures
        result@ == date_text(datetime.seconds_since_epoch),
{
    #[allow(deprecated)]
    let datetime = chrono::NaiveDateTime::from_timestamp(datetime.seconds_since_epoch, 0);
    datetime.date().to_string()
}

/// The identifier of the stop point of the stop.
pub fn stop_name(stop: &Stop, model: &ModelRefs, transit_data: &TransitData) -> (result: String)
    requires
        stop.idx < model.stop_point_ids@.len(),
    ensures
        result@ == model.stop_point_ids@[stop.idx as int]@,
{
    let stop_point_idx = transit_data.stop_point_idx(stop);
    model.stop_point_id(&stop_point_idx).clone()
}

/// The name of a trip: the identifier of its vehicle journey, its date and the identifier of
/// its route, joined by `_`.
pub fn trip_name(trip: &Trip, model: &ModelRefs, transit_data: &TransitData) -> (result: String)
    requires
        transit_data.wf(),
        transit_data.valid_trip(*trip),
        model.knows_vehicle_journey(transit_data.timetables_view().timetable(trip.vehicle.timetable.idx as int)
            .data_of_vehicle(trip.vehicle.idx as int)),
        transit_data.timetables_view().timetable(trip.vehicle.timetable.idx as int).data_of_vehicle(trip.vehicle.idx as int).idx
            < model.route_names@.len(),
    ensures
        ({
            let vehicle_journey = transit_data.timetables_view().timetable(trip.vehicle.timetable.idx as int)
                .data_of_vehicle(trip.vehicle.idx as int);
            result@ == model.vehicle_journey_names@[vehicle_journey.idx as int]@ + "_"@
                + date_text((transit_data.first_datetime_view().seconds_since_epoch + trip.day.days * SECONDS_IN_A_DAY) as i64)
                + "_"@ + model.route_names@[vehicle_journey.idx as int]@
        }),
{
    let vehicle_journey_idx = transit_data.vehicle_journey_idx(trip);
    let date = transit_data.day_of(trip);
    let seconds = compose_day_and_time(&date, &0);
    proof {
        crate::time::lemma_compose_bounds(date, 0);
    }
    let day_start = transit_data.to_naive_datetime(&seconds);
    let mut result = String::new();
    result.append(model.vehicle_journey_name(&vehicle_journey_idx));
    result.append("_");
    let day = write_day(&day_start);
    result.append(day.as_str());
    result.append("_");
    result.append(model.route_names[vehicle_journey_idx.idx].as_str());
    result
}

/// The name of a mission: its number.
pub fn mission_name(mission: &Mission, _model: &ModelRefs, _transit_data: &TransitData) -> (result: String)
    ensures
        result@ == decimal(mission.idx as nat),
{
    let mut result = String::new();
    write_decimal(&mut result, mission.idx as u64);
    result
}

/// The name of a position of a mission: the identifier of its stop point and the number of the
/// mission, joined by `_`.
pub fn position_name(position: &Position, mission: &Mission, model: &ModelRefs, transit_data: &TransitData) -> (result: String)
    requires
        *mission == position.timetable,
        transit_data.timetables_view().valid_position(*position),
        transit_data.stop_spec(*position).idx < model.stop_point_ids@.len(),
    ensures
        result@ == model.stop_point_ids@[transit_data.stop_spec(*position).idx as int]@ + "_"@ + decimal(mission.idx as nat),
{
    let stop = transit_data.stop_of(position, mission);
    let mut result = stop_name(&stop, model, transit_data);
    result.append("_");
    let mission_text = mission_name(mission, model, transit_data);
    result.append(mission_text.as_str());
    result
}

} // verus!
