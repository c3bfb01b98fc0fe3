use vstd::prelude::*;

use super::{flow_allows_board, flow_allows_debark, FlowDirection, StopFlows};
use crate::loads_data::Load;
use crate::models::StopTimeIdx;
use crate::time::{DaysSinceDatasetStart, SecondsSinceTimezonedDayStart};
use crate::transit_data::ordered_timetable;
use crate::transit_data::ordered_timetable::{
    all_le, compare_vehicle_times, first_decreasing_pair, Comparison,
};
use crate::transit_data::Stop;

verus! {

pub type Time = SecondsSinceTimezonedDayStart;

/// A timetable, identified by its index.
#[derive(Debug, Clone, Copy, PartialEq, Eq, Hash, Structural)]
pub struct Timetable {
    pub idx: usize,
}

/// A position along the stops of a timetable.
#[derive(Debug, Clone, Copy, PartialEq, Eq, Structural)]
pub struct Position {
    pub timetable: Timetable,
    pub idx: usize,
}

/// A vehicle of a timetable.
#[derive(Debug, Clone, Copy, PartialEq, Eq, Structural)]
pub struct Vehicle {
    pub timetable: Timetable,
    pub idx: usize,
}

/// A vehicle running on a given day.
#[derive(Debug, Clone, Copy, PartialEq, Eq, Structural)]
pub struct Trip {
    pub vehicle: Vehicle,
    pub day: DaysSinceDatasetStart,
}

/// A pair of positions at which the times of a vehicle are incoherent.
#[derive(Debug, Clone, Copy, PartialEq, Eq, Structural)]
pub struct PositionPair {
    pub upstream: StopTimeIdx,
    pub downstream: StopTimeIdx,
}

/// Why the times of a vehicle cannot be inserted.
#[derive(Debug, Clone, Copy, PartialEq, Eq, Structural)]
pub enum VehicleTimesError {
    /// board_time[upstream] > debark_time[downstream]
    DebarkBeforeUpstreamBoard(PositionPair),
    /// board_time[upstream] > board_time[downstream]
    DecreasingBoardTime(PositionPair),
    /// debark_time[upstream] > debark_time[downstream]
    DecreasingDebarkTime(PositionPair),
    LessThanTwoStops,
}

/// Combines the comparisons of board times and of debark times of two vehicles:
/// `None` when they go in opposite directions.
pub open spec fn combined(a: Comparison, b: Comparison) -> Option<Comparison> {
    match (a, b) {
        (Comparison::Less, Comparison::Less)
        | (Comparison::Less, Comparison::Equal)
        | (Comparison::Equal, Comparison::Less) => Some(Comparison::Less),
        (Comparison::Equal, Comparison::Equal) => Some(Comparison::Equal),
        (Comparison::Greater, Comparison::Greater)
        | (Comparison::Greater, Comparison::Equal)
        | (Comparison::Equal, Comparison::Greater) => Some(Comparison::Greater),
        _ => None,
    }
}

fn combine(a: Comparison, b: Comparison) -> (result: Option<Comparison>)
    ensures
        result == combined(a, b),
{
    match (a, b) {
        (Comparison::Less, Comparison::Less)
        | (Comparison::Less, Comparison::Equal)
        | (Comparison::Equal, Comparison::Less) => Some(Comparison::Less),
        (Comparison::Equal, Comparison::Equal) => Some(Comparison::Equal),
        (Comparison::Greater, Comparison::Greater)
        | (Comparison::Greater, Comparison::Equal)
        | (Comparison::Equal, Comparison::Greater) => Some(Comparison::Greater),
        _ => None,
    }
}

/// The board times at the first `n` positions at which one can board, each with its position.
pub open spec fn enumerated_board_times(
    flows: Seq<FlowDirection>,
    board_times: Seq<Time>,
    n: int,
) -> Seq<(usize, Time)>
    decreases n,
{
    if n <= 0 {
        Seq::empty()
    } else {
        let previous = enumerated_board_times(flows, board_times, n - 1);
        if flow_allows_board(flows[n - 1]) {
            previous.push(((n - 1) as usize, board_times[n - 1]))
        } else {
            previous
        }
    }
}

/// The debark times at the first `n` positions at which one can debark, each with its position.
pub open spec fn enumerated_debark_times(
    flows: Seq<FlowDirection>,
    debark_times: Seq<Time>,
    n: int,
) -> Seq<(usize, Time)>
    decreases n,
{
    if n <= 0 {
        Seq::empty()
    } else {
        let previous = enumerated_debark_times(flows, debark_times, n - 1);
        if flow_allows_debark(flows[n - 1]) {
            previous.push(((n - 1) as usize, debark_times[n - 1]))
        } else {
            previous
        }
    }
}

/// At `position` one can board, at the next position one can debark, and the debark time
/// there is earlier than the board time at `position`.
pub open spec fn debark_before_board_at(
    flows: Seq<FlowDirection>,
    board_times: Seq<Time>,
    debark_times: Seq<Time>,
    position: int,
) -> bool {
    &&& flow_allows_board(flows[position])
    &&& flow_allows_debark(flows[position + 1])
    &&& board_times[position] > debark_times[position + 1]
}

/// The first position, from `from` on, at which `debark_before_board_at` holds.
pub open spec fn first_debark_before_board_from(
    flows: Seq<FlowDirection>,
    board_times: Seq<Time>,
    debark_times: Seq<Time>,
    from: int,
) -> Option<int>
    decreases flows.len() - from,
{
    if from < 0 || from + 1 >= flows.len() {
        None
    } else if debark_before_board_at(flows, board_times, debark_times, from) {
        Some(from)
    } else {
        first_debark_before_board_from(flows, board_times, debark_times, from + 1)
    }
}

pub open spec fn position_pair(upstream: int, downstream: int) -> PositionPair {
    PositionPair {
        upstream: StopTimeIdx { idx: upstream as usize },
        downstream: StopTimeIdx { idx: downstream as usize },
    }
}

/// The first incoherence found in the times of a vehicle: less than two stops, then
/// board times that decrease, then debark times that decrease, then a debark before the
/// board at the previous position.
pub open spec fn vehicle_times_error(
    flows: Seq<FlowDirection>,
    board_times: Seq<Time>,
    debark_times: Seq<Time>,
) -> Option<VehicleTimesError> {
    let n = flows.len() as int;
    if n < 2 {
        Some(VehicleTimesError::LessThanTwoStops)
    } else {
        match first_decreasing_pair(enumerated_board_times(flows, board_times, n)) {
            Some(pair) => Some(
                VehicleTimesError::DecreasingBoardTime(position_pair(pair.0 as int, pair.1 as int)),
            ),
            None => match first_decreasing_pair(enumerated_debark_times(flows, debark_times, n)) {
                Some(pair) => Some(
                    VehicleTimesError::DecreasingDebarkTime(
                        position_pair(pair.0 as int, pair.1 as int),
                    ),
                ),
                None => match first_debark_before_board_from(flows, board_times, debark_times, 0) {
                    Some(position) => Some(
                        VehicleTimesError::DebarkBeforeUpstreamBoard(
                            position_pair(position, position + 1),
                        ),
                    ),
                    None => None,
                },
            },
        }
    }
}

/// Checks that the enumerated values are increasing. Returns the pair of positions
/// of the first decrease otherwise.
fn is_increasing(enumerated_values: &Vec<(usize, Time)>) -> (result: Result<(), PositionPair>)
    ensures
        result == match first_decreasing_pair(enumerated_values@) {
            Some(pair) => Err(position_pair(pair.0 as int, pair.1 as int)),
            None => Ok::<(), PositionPair>(()),
        },
{
    if enumerated_values.len() == 0 {
        return Ok(());
    }
    let (mut prev_position, mut prev_value) = enumerated_values[0];
    let mut i: usize = 1;
    while i < enumerated_values.len()
        invariant
            1 <= i <= enumerated_values.len(),
            prev_position == enumerated_values@[i - 1].0,
            prev_value == enumerated_values@[i - 1].1,
            ordered_timetable::first_decrease_from(enumerated_values@, 1)
                == ordered_timetable::first_decrease_from(enumerated_values@, i as int),
        decreases enumerated_values.len() - i,
    {
        let (position, value) = enumerated_values[i];
        if value < prev_value {
            let pair = PositionPair {
                upstream: StopTimeIdx { idx: prev_position },
                downstream: StopTimeIdx { idx: position },
            };
            return Err(pair);
        }
        prev_position = position;
        prev_value = value;
        i = i + 1;
    }
    Ok(())
}

/// The board times at the positions before `n` at which one can board, each with its position:
/// the positions increase, and each position at which one can board is there.
proof fn lemma_enumerated_board_times(flows: Seq<FlowDirection>, board_times: Seq<Time>, n: int)
    requires
        0 <= n <= flows.len(),
        n <= usize::MAX,
    ensures
        forall|k: int| 0 <= k < enumerated_board_times(flows, board_times, n).len() ==> {
            let entry = #[trigger] enumerated_board_times(flows, board_times, n)[k];
            &&& 0 <= entry.0 < n
            &&& flow_allows_board(flows[entry.0 as int])
            &&& entry.1 == board_times[entry.0 as int]
        },
        forall|k1: int, k2: int| 0 <= k1 < k2 < enumerated_board_times(flows, board_times, n).len()
            ==> (#[trigger] enumerated_board_times(flows, board_times, n)[k1]).0 < (#[trigger] enumerated_board_times(flows, board_times, n)[k2]).0,
        forall|p: int| 0 <= p < n && #[trigger] flow_allows_board(flows[p]) ==> exists|k: int|
            0 <= k < enumerated_board_times(flows, board_times, n).len() && (#[trigger] enumerated_board_times(flows, board_times, n)[k]).0 == p,
    decreases n,
{
    if n > 0 {
        lemma_enumerated_board_times(flows, board_times, n - 1);
        let previous = enumerated_board_times(flows, board_times, n - 1);
        let e = enumerated_board_times(flows, board_times, n);
        assert forall|k: int| 0 <= k < previous.len() implies e[k] == previous[k] by {}
        assert forall|p: int| 0 <= p < n && #[trigger] flow_allows_board(flows[p]) implies exists|k: int|
            0 <= k < e.len() && (#[trigger] e[k]).0 == p by {
            if p < n - 1 {
                let k = choose|k: int| 0 <= k < previous.len() && (#[trigger] previous[k]).0 == p;
                assert(e[k] == previous[k]);
            } else {
                assert(e[previous.len() as int].0 == p);
            }
        }
    }
}

/// The debark times at the positions before `n` at which one can debark, each with its
/// position: the positions increase, and each position at which one can debark is there.
proof fn lemma_enumerated_debark_times(flows: Seq<FlowDirection>, debark_times: Seq<Time>, n: int)
    requires
        0 <= n <= flows.len(),
        n <= usize::MAX,
    ensures
        forall|k: int| 0 <= k < enumerated_debark_times(flows, debark_times, n).len() ==> {
            let entry = #[trigger] enumerated_debark_times(flows, debark_times, n)[k];
            &&& 0 <= entry.0 < n
            &&& flow_allows_debark(flows[entry.0 as int])
            &&& entry.1 == debark_times[entry.0 as int]
        },
        forall|k1: int, k2: int| 0 <= k1 < k2 < enumerated_debark_times(flows, debark_times, n).len()
            ==> (#[trigger] enumerated_debark_times(flows, debark_times, n)[k1]).0 < (#[trigger] enumerated_debark_times(flows, debark_times, n)[k2]).0,
        forall|p: int| 0 <= p < n && #[trigger] flow_allows_debark(flows[p]) ==> exists|k: int|
            0 <= k < enumerated_debark_times(flows, debark_times, n).len() && (#[trigger] enumerated_debark_times(flows, debark_times, n)[k]).0 == p,
    decreases n,
{
    if n > 0 {
        lemma_enumerated_debark_times(flows, debark_times, n - 1);
        let previous = enumerated_debark_times(flows, debark_times, n - 1);
        let e = enumerated_debark_times(flows, debark_times, n);
        assert forall|k: int| 0 <= k < previous.len() implies e[k] == previous[k] by {}
        assert forall|p: int| 0 <= p < n && #[trigger] flow_allows_debark(flows[p]) implies exists|k: int|
            0 <= k < e.len() && (#[trigger] e[k]).0 == p by {
            if p < n - 1 {
                let k = choose|k: int| 0 <= k < previous.len() && (#[trigger] previous[k]).0 == p;
                assert(e[k] == previous[k]);
            } else {
                assert(e[previous.len() as int].0 == p);
            }
        }
    }
}

/// Values that never decrease from one to the next never decrease at all.
proof fn lemma_consecutive_sorted(values: Seq<(usize, Time)>, m: int)
    requires
        0 <= m < values.len(),
        forall|k: int| 1 <= k < values.len() ==> values[k - 1].1 <= (#[trigger] values[k]).1,
    ensures
        forall|k: int| 0 <= k <= m ==> (#[trigger] values[k]).1 <= values[m].1,
    decreases m,
{
    if m > 0 {
        lemma_consecutive_sorted(values, m - 1);
        assert(values[m - 1].1 <= values[m].1);
    }
}

/// Times listed with their increasing positions, every allowed position before `n` being
/// listed.
pub open spec fn lists_allowed_times(values: Seq<(usize, Time)>, times: Seq<Time>, allowed: spec_fn(int) -> bool, n: int) -> bool {
    &&& forall|k: int| 0 <= k < values.len() ==> {
        let entry = #[trigger] values[k];
        &&& 0 <= entry.0 < n
        &&& allowed(entry.0 as int)
        &&& entry.1 == times[entry.0 as int]
    }
    &&& forall|k1: int, k2: int| 0 <= k1 < k2 < values.len() ==> (#[trigger] values[k1]).0 < (#[trigger] values[k2]).0
    &&& forall|p: int| 0 <= p < n && #[trigger] allowed(p) ==> exists|k: int| 0 <= k < values.len() && (#[trigger] values[k]).0 == p
}

/// The times at allowed positions before `n` never decrease.
pub open spec fn allowed_times_sorted(times: Seq<Time>, allowed: spec_fn(int) -> bool, n: int) -> bool {
    forall|i: int, j: int| #![trigger times[i], times[j]] 0 <= i < j < n && allowed(i) && allowed(j) ==> times[i] <= times[j]
}

/// Listed times that never decrease from one to the next never decrease at allowed positions.
proof fn lemma_listed_times_sorted_none(values: Seq<(usize, Time)>, times: Seq<Time>, allowed: spec_fn(int) -> bool, n: int)
    requires
        lists_allowed_times(values, times, allowed, n),
        forall|k: int| 1 <= k < values.len() ==> values[k - 1].1 <= (#[trigger] values[k]).1,
    ensures
        allowed_times_sorted(times, allowed, n),
{
    assert forall|i: int, j: int| #![trigger times[i], times[j]]
        0 <= i < j < n && allowed(i) && allowed(j) implies times[i] <= times[j] by {
        let k1 = choose|k: int| 0 <= k < values.len() && (#[trigger] values[k]).0 == i;
        let k2 = choose|k: int| 0 <= k < values.len() && (#[trigger] values[k]).0 == j;
        if k2 < k1 {
            assert(values[k2].0 < values[k1].0);
        }
        assert(k1 != k2);
        lemma_consecutive_sorted(values, k2);
        assert(values[k1].1 <= values[k2].1);
    }
}

/// Of listed times, there is no first decreasing pair exactly when the times at allowed
/// positions never decrease.
proof fn lemma_listed_times_sorted(values: Seq<(usize, Time)>, times: Seq<Time>, allowed: spec_fn(int) -> bool, n: int)
    requires
        lists_allowed_times(values, times, allowed, n),
    ensures
        first_decreasing_pair(values) is None <==> allowed_times_sorted(times, allowed, n),
{
    ordered_timetable::lemma_first_decreasing_pair(values);
    if first_decreasing_pair(values) is None {
        lemma_listed_times_sorted_none(values, times, allowed, n);
    } else {
        let k = choose|k: int| 1 <= k < values.len() && (#[trigger] values[k]).1 < values[k - 1].1
            && first_decreasing_pair(values)->Some_0 == (values[k - 1].0, values[k].0)
            && forall|m: int| 1 <= m < k ==> values[m - 1].1 <= (#[trigger] values[m]).1;
        let i = values[k - 1].0 as int;
        let j = values[k].0 as int;
        assert(values[k - 1].0 < values[k].0);
        assert(allowed(i) && allowed(j));
        assert(times[i] > times[j]);
    }
}

/// From `from` on, there is no position with a debark before the board upstream exactly when
/// no position from `from` on has one.
proof fn lemma_first_debark_before_board_from(flows: Seq<FlowDirection>, board_times: Seq<Time>, debark_times: Seq<Time>, from: int)
    requires
        0 <= from,
    ensures
        first_debark_before_board_from(flows, board_times, debark_times, from) is None <==> forall|p: int|
            from <= p < flows.len() - 1 ==> !#[trigger] debark_before_board_at(flows, board_times, debark_times, p),
    decreases flows.len() - from,
{
    if from + 1 < flows.len() && !debark_before_board_at(flows, board_times, debark_times, from) {
        lemma_first_debark_before_board_from(flows, board_times, debark_times, from + 1);
    }
}

/// The times of a vehicle are accepted exactly when it has at least two stops, its board times
/// never decrease along the positions at which one can board, its debark times never decrease
/// along the positions at which one can debark, and at no position at which one can board is
/// the debark time at the next position, where one can debark, earlier than the board time.
pub proof fn lemma_vehicle_times_coherent(flows: Seq<FlowDirection>, board_times: Seq<Time>, debark_times: Seq<Time>)
    requires
        flows.len() <= usize::MAX,
    ensures
        vehicle_times_error(flows, board_times, debark_times) is None <==> {
            &&& flows.len() >= 2
            &&& forall|i: int, j: int| #![trigger board_times[i], board_times[j]] 0 <= i < j < flows.len()
                && flow_allows_board(flows[i]) && flow_allows_board(flows[j]) ==> board_times[i] <= board_times[j]
            &&& forall|i: int, j: int| #![trigger debark_times[i], debark_times[j]] 0 <= i < j < flows.len()
                && flow_allows_debark(flows[i]) && flow_allows_debark(flows[j]) ==> debark_times[i] <= debark_times[j]
            &&& forall|p: int| 0 <= p < flows.len() - 1 ==> !#[trigger] debark_before_board_at(flows, board_times, debark_times, p)
        },
{
    let n = flows.len() as int;
    if n >= 2 {
        lemma_enumerated_board_times(flows, board_times, n);
        lemma_enumerated_debark_times(flows, debark_times, n);
        let board_allowed = |p: int| flow_allows_board(flows[p]);
        let debark_allowed = |p: int| flow_allows_debark(flows[p]);
        assert(lists_allowed_times(enumerated_board_times(flows, board_times, n), board_times, board_allowed, n));
        assert(lists_allowed_times(enumerated_debark_times(flows, debark_times, n), debark_times, debark_allowed, n));
        lemma_listed_times_sorted(enumerated_board_times(flows, board_times, n), board_times, board_allowed, n);
        lemma_listed_times_sorted(enumerated_debark_times(flows, debark_times, n), debark_times, debark_allowed, n);
        lemma_first_debark_before_board_from(flows, board_times, debark_times, 0);
    }
}

/// Checks that the times of a vehicle are coherent with its flows.
pub(super) fn inspect(flows: &Vec<FlowDirection>, board_times: &Vec<Time>, debark_times: &Vec<Time>) -> (result: Result<(), VehicleTimesError>)
    requires
        flows.len() == board_times.len(),
        flows.len() == debark_times.len(),
    ensures
        result == match vehicle_times_error(flows@, board_times@, debark_times@) {
            Some(error) => Err(error),
            None => Ok::<(), VehicleTimesError>(()),
        },
{
    let nb_of_positions = flows.len();
    if nb_of_positions < 2 {
        return Err(VehicleTimesError::LessThanTwoStops);
    }
    let mut valid_enumerated_board_times: Vec<(usize, Time)> = Vec::new();
    let mut valid_enumerated_debark_times: Vec<(usize, Time)> = Vec::new();
    let mut position: usize = 0;
    while position < nb_of_positions
        invariant
            nb_of_positions == flows.len(),
            flows.len() == board_times.len(),
            flows.len() == debark_times.len(),
            position <= nb_of_positions,
            valid_enumerated_board_times@ == enumerated_board_times(flows@, board_times@, position as int),
            valid_enumerated_debark_times@ == enumerated_debark_times(flows@, debark_times@, position as int),
        decreases nb_of_positions - position,
    {
        match flows[position] {
            FlowDirection::BoardOnly => {
                valid_enumerated_board_times.push((position, board_times[position]));
            },
            FlowDirection::DebarkOnly => {
                valid_enumerated_debark_times.push((position, debark_times[position]));
            },
            FlowDirection::BoardAndDebark => {
                valid_enumerated_board_times.push((position, board_times[position]));
                valid_enumerated_debark_times.push((position, debark_times[position]));
            },
            FlowDirection::NoBoardDebark => {},
        }
        position = position + 1;
    }
    if let Err(position_pair) = is_increasing(&valid_enumerated_board_times) {
        return Err(VehicleTimesError::DecreasingBoardTime(position_pair));
    }
    if let Err(position_pair) = is_increasing(&valid_enumerated_debark_times) {
        return Err(VehicleTimesError::DecreasingDebarkTime(position_pair));
    }
    let mut board_idx: usize = 0;
    while board_idx + 1 < nb_of_positions
        invariant
            nb_of_positions == flows.len(),
            flows.len() == board_times.len(),
            flows.len() == debark_times.len(),
            board_idx + 1 <= nb_of_positions,
            nb_of_positions >= 2,
            first_decreasing_pair(enumerated_board_times(flows@, board_times@, nb_of_positions as int)) is None,
            first_decreasing_pair(enumerated_debark_times(flows@, debark_times@, nb_of_positions as int)) is None,
            first_debark_before_board_from(flows@, board_times@, debark_times@, 0)
                == first_debark_before_board_from(flows@, board_times@, debark_times@, board_idx as int),
        decreases nb_of_positions - board_idx,
    {
        let debark_idx = board_idx + 1;
        let can_board = match flows[board_idx] {
            FlowDirection::BoardAndDebark | FlowDirection::BoardOnly => true,
            FlowDirection::NoBoardDebark | FlowDirection::DebarkOnly => false,
        };
        let can_debark = match flows[debark_idx] {
            FlowDirection::BoardAndDebark | FlowDirection::DebarkOnly => true,
            FlowDirection::NoBoardDebark | FlowDirection::BoardOnly => false,
        };
        if can_board && can_debark && board_times[board_idx] > debark_times[debark_idx] {
            let position_pair = PositionPair {
                upstream: StopTimeIdx { idx: board_idx },
                downstream: StopTimeIdx { idx: debark_idx },
            };
            return Err(VehicleTimesError::DebarkBeforeUpstreamBoard(position_pair));
        }
        board_idx = board_idx + 1;
    }
    Ok(())
}

/// `result` is the first vehicle of `timetable`, in its order, that one can board at `position`
/// no earlier than `waiting_time` and that `filter` accepts; `None` when every vehicle is either
/// boarded earlier or rejected by `filter`.
pub open spec fn is_earliest_filtered_vehicle<VehicleData, Filter: Fn(&VehicleData) -> bool>(
    timetable: TimetableData<VehicleData>,
    waiting_time: Time,
    position: int,
    filter: Filter,
    result: Option<usize>,
) -> bool {
    match result {
        Some(vehicle) => {
            &&& vehicle < timetable.nb_vehicles()
            &&& waiting_time <= timetable.vehicle_board_time(vehicle as int, position)
            &&& call_ensures(filter, (&timetable.data_of_vehicle(vehicle as int),), true)
            &&& forall|v: int|
                0 <= v < vehicle ==> timetable.vehicle_board_time(v, position) < waiting_time
                    || call_ensures(filter, (&#[trigger] timetable.data_of_vehicle(v),), false)
        },
        None => forall|v: int|
            0 <= v < timetable.nb_vehicles() ==> timetable.vehicle_board_time(v, position) < waiting_time
                || call_ensures(filter, (&#[trigger] timetable.data_of_vehicle(v),), false),
    }
}

/// `result` is the last vehicle of `timetable`, in its order, that debarks at `position`
/// no later than `time` and that `filter` accepts; `None` when every vehicle is either
/// debarked later or rejected by `filter`.
pub open spec fn is_latest_filtered_vehicle<VehicleData, Filter: Fn(&VehicleData) -> bool>(
    timetable: TimetableData<VehicleData>,
    time: Time,
    position: int,
    filter: Filter,
    result: Option<usize>,
) -> bool {
    match result {
        Some(vehicle) => {
            &&& vehicle < timetable.nb_vehicles()
            &&& timetable.vehicle_debark_time(vehicle as int, position) <= time
            &&& call_ensures(filter, (&timetable.data_of_vehicle(vehicle as int),), true)
            &&& forall|v: int|
                vehicle < v < timetable.nb_vehicles() ==> time < timetable.vehicle_debark_time(v, position)
                    || call_ensures(filter, (&#[trigger] timetable.data_of_vehicle(v),), false)
        },
        None => forall|v: int|
            0 <= v < timetable.nb_vehicles() ==> time < timetable.vehicle_debark_time(v, position)
                || call_ensures(filter, (&#[trigger] timetable.data_of_vehicle(v),), false),
    }
}

/// The vehicles of a timetable: they all stop at the same stops with the same flows,
/// and are ordered by increasing times; each carries its data and its loads.
pub struct TimetableData<VehicleData> {
    pub(super) stop_flows: StopFlows,
    /// the vehicles, each with its data and `loads[position]`, the load between
    /// `position` and `position + 1`
    pub(super) vehicles: ordered_timetable::TimetableData<(VehicleData, Vec<Load>)>,
}

impl<VehicleData> TimetableData<VehicleData> {
    pub closed spec fn nb_positions(&self) -> nat {
        self.stop_flows@.len()
    }

    pub closed spec fn nb_vehicles(&self) -> nat {
        self.vehicles.nb_vehicles()
    }

    /// The vehicles, each with its data and its loads, ordered by increasing times.
    pub closed spec fn ordered_vehicles(&self) -> ordered_timetable::TimetableData<(VehicleData, Vec<Load>)> {
        self.vehicles
    }

    pub closed spec fn stop_flows_view(&self) -> Seq<(Stop, FlowDirection)> {
        self.stop_flows@
    }

    pub closed spec fn vehicle_board_time(&self, vehicle: int, position: int) -> Time {
        self.vehicles.board_time(vehicle, position)
    }

    pub closed spec fn vehicle_debark_time(&self, vehicle: int, position: int) -> Time {
        self.vehicles.debark_time(vehicle, position)
    }

    pub closed spec fn data_of_vehicle(&self, vehicle: int) -> VehicleData {
        self.vehicles.vehicle_data(vehicle).0
    }

    /// The load of `vehicle` between `position` and `position + 1`.
    pub closed spec fn load(&self, vehicle: int, position: int) -> Load {
        self.vehicles.vehicle_data(vehicle).1@[position]
    }

    /// The time at which one can board `vehicle` at `position`, if one can board there.
    pub open spec fn board_time_if_allowed(&self, vehicle: int, position: int) -> Option<Time> {
        if flow_allows_board(self.stop_flows_view()[position].1) {
            Some(self.vehicle_board_time(vehicle, position))
        } else {
            None
        }
    }

    /// The time at which one can debark from `vehicle` at `position`, if one can debark there.
    pub open spec fn debark_time_if_allowed(&self, vehicle: int, position: int) -> Option<Time> {
        if flow_allows_debark(self.stop_flows_view()[position].1) {
            Some(self.vehicle_debark_time(vehicle, position))
        } else {
            None
        }
    }

    /// A timetable has one position per stop, at least two of them, its vehicles are ordered
    /// by increasing times, and each vehicle has a load between consecutive positions.
    pub closed spec fn wf(&self) -> bool {
        &&& self.vehicles.wf()
        &&& self.vehicles.nb_positions() == self.stop_flows@.len()
        &&& !flow_allows_debark(self.stop_flows@[0].1)
        &&& !flow_allows_board(self.stop_flows@.last().1)
        &&& forall|v: int|
            0 <= v < self.vehicles.nb_vehicles() ==> (#[trigger] self.vehicles.vehicle_data(v)).1@.len()
                + 1 == self.stop_flows@.len()
    }

    /// Vehicles are ordered by increasing times: a vehicle never boards nor debarks
    /// later than a vehicle that comes after it.
    pub proof fn lemma_vehicles_ordered(&self, v1: int, v2: int, position: int)
        requires
            self.wf(),
            0 <= v1 <= v2 < self.nb_vehicles(),
            0 <= position < self.nb_positions(),
        ensures
            self.vehicle_board_time(v1, position) <= self.vehicle_board_time(v2, position),
            self.vehicle_debark_time(v1, position) <= self.vehicle_debark_time(v2, position),
    {
        self.vehicles.lemma_vehicles_ordered(v1, v2, position);
    }

    pub proof fn lemma_wf_sizes(&self)
        requires
            self.wf(),
        ensures
            self.nb_positions() >= 2,
            !flow_allows_debark(self.stop_flows_view()[0].1),
            !flow_allows_board(self.stop_flows_view().last().1),
            self.ordered_vehicles().nb_positions() == self.nb_positions(),
            self.ordered_vehicles().wf(),
    {
        self.vehicles.lemma_wf_sizes();
    }

    fn new(
        stop_flows: StopFlows,
        board_times: Vec<Time>,
        debark_times: Vec<Time>,
        loads: Vec<Load>,
        vehicle_data: VehicleData,
    ) -> (result: Self)
        requires
            stop_flows.len() >= 2,
            board_times.len() == stop_flows.len(),
            debark_times.len() == stop_flows.len(),
            loads.len() + 1 == stop_flows.len(),
            !flow_allows_debark(stop_flows@[0].1),
            !flow_allows_board(stop_flows@.last().1),
        ensures
            result.wf(),
            result.stop_flows_view() == stop_flows@,
            result.nb_vehicles() == 1,
            result.vehicles.board_times_of(0) == board_times@,
            result.vehicles.debark_times_of(0) == debark_times@,
            result.vehicles.vehicle_data(0) == (vehicle_data, loads),
    {
        let mut vehicles = ordered_timetable::TimetableData::new(stop_flows.len());
        let ghost empty = vehicles;
        assert(vehicles.accepts(board_times@, debark_times@));
        vehicles.insert(board_times, debark_times, (vehicle_data, loads));
        assert(empty.insertion_index_from(board_times@, debark_times@, 0) == 0);
        Self { stop_flows, vehicles }
    }

    /// Inserts the vehicle if the timetable accepts it; returns whether it did.
    fn try_insert(
        &mut self,
        board_times: Vec<Time>,
        debark_times: Vec<Time>,
        loads: Vec<Load>,
        vehicle_data: VehicleData,
    ) -> (result: bool)
        requires
            old(self).wf(),
            board_times.len() == old(self).nb_positions(),
            debark_times.len() == old(self).nb_positions(),
            loads.len() + 1 == old(self).nb_positions(),
        ensures
            result == old(self).vehicles.accepts(board_times@, debark_times@),
            result ==> final(self).wf() && final(self).stop_flows == old(self).stop_flows
                && final(self).vehicles.is_insertion_of(
                old(self).vehicles,
                board_times@,
                debark_times@,
                (vehicle_data, loads),
            ),
            !result ==> *final(self) == *old(self),
    {
        if self.vehicles.accept(&board_times, &debark_times) {
            let ghost old_vehicles = self.vehicles;
            let ghost data = (vehicle_data, loads);
            self.vehicles.insert(board_times, debark_times, (vehicle_data, loads));
            proof {
                let idx = old_vehicles.insertion_index_from(board_times@, debark_times@, 0);
                old_vehicles.lemma_insertion_index_bounds(board_times@, debark_times@, 0);
                assert(old_vehicles == old(self).vehicles);
                assert forall|v: int| 0 <= v < self.vehicles.nb_vehicles() implies (#[trigger] self.vehicles.vehicle_data(v)).1@.len()
                    + 1 == self.stop_flows@.len() by {
                    if v < idx {
                        assert(self.vehicles.vehicle_data(v) == old_vehicles.vehicle_data(v));
                        assert(old_vehicles.vehicle_data(v).1@.len() + 1 == self.stop_flows@.len());
                    } else if v == idx {
                        assert(self.vehicles.vehicle_data(v) == data);
                    } else {
                        assert(self.vehicles.vehicle_data(v) == old_vehicles.vehicle_data(v - 1));
                        assert(old_vehicles.vehicle_data(v - 1).1@.len() + 1 == self.stop_flows@.len());
                    }
                }
            }
            true
        } else {
            false
        }
    }

    fn nb_of_vehicle(&self) -> (result: usize)
        ensures
            result == self.nb_vehicles(),
    {
        self.vehicles.nb_of_vehicles()
    }

    fn nb_of_positions(&self) -> (result: usize)
        ensures
            result == self.nb_positions(),
    {
        self.stop_flows.len()
    }

    fn vehicle_data(&self, vehicle_idx: usize) -> (result: &VehicleData)
        requires
            vehicle_idx < self.nb_vehicles(),
        ensures
            *result == self.data_of_vehicle(vehicle_idx as int),
    {
        &self.vehicles.vehicle_data_at(vehicle_idx).0
    }

    fn stop_at(&self, position_idx: usize) -> (result: &Stop)
        requires
            position_idx < self.nb_positions(),
        ensures
            *result == self.stop_flows_view()[position_idx as int].0,
    {
        &self.stop_flows[position_idx].0
    }

    fn can_board(&self, position_idx: usize) -> (result: bool)
        requires
            position_idx < self.nb_positions(),
        ensures
            result == flow_allows_board(self.stop_flows_view()[position_idx as int].1),
    {
        match self.stop_flows[position_idx].1 {
            FlowDirection::BoardOnly | FlowDirection::BoardAndDebark => true,
            FlowDirection::DebarkOnly | FlowDirection::NoBoardDebark => false,
        }
    }

    fn can_debark(&self, position_idx: usize) -> (result: bool)
        requires
            position_idx < self.nb_positions(),
        ensures
            result == flow_allows_debark(self.stop_flows_view()[position_idx as int].1),
    {
        match self.stop_flows[position_idx].1 {
            FlowDirection::DebarkOnly | FlowDirection::BoardAndDebark => true,
            FlowDirection::BoardOnly | FlowDirection::NoBoardDebark => false,
        }
    }

    /// The time at which one debarks from the vehicle at the position, whatever the flow there.
    fn arrival_time(&self, vehicle_idx: usize, position_idx: usize) -> (result: &Time)
        requires
            self.wf(),
            vehicle_idx < self.nb_vehicles(),
            position_idx < self.nb_positions(),
        ensures
            *result == self.vehicle_debark_time(vehicle_idx as int, position_idx as int),
    {
        self.vehicles.debark_time_at(
            &ordered_timetable::Vehicle { idx: vehicle_idx },
            &ordered_timetable::Position { idx: position_idx },
        )
    }

    /// The time at which one boards the vehicle at the position, whatever the flow there.
    fn departure_time(&self, vehicle_idx: usize, position_idx: usize) -> (result: &Time)
        requires
            self.wf(),
            vehicle_idx < self.nb_vehicles(),
            position_idx < self.nb_positions(),
        ensures
            *result == self.vehicle_board_time(vehicle_idx as int, position_idx as int),
    {
        self.vehicles.board_time_at(
            &ordered_timetable::Vehicle { idx: vehicle_idx },
            &ordered_timetable::Position { idx: position_idx },
        )
    }

    fn debark_time(&self, vehicle_idx: usize, position_idx: usize) -> (result: Option<&Time>)
        requires
            self.wf(),
            vehicle_idx < self.nb_vehicles(),
            position_idx < self.nb_positions(),
        ensures
            result == match self.debark_time_if_allowed(vehicle_idx as int, position_idx as int) {
                Some(time) => Some(&time),
                None => None::<&Time>,
            },
    {
        if self.can_debark(position_idx) {
            Some(self.arrival_time(vehicle_idx, position_idx))
        } else {
            None
        }
    }

    fn board_time(&self, vehicle_idx: usize, position_idx: usize) -> (result: Option<&Time>)
        requires
            self.wf(),
            vehicle_idx < self.nb_vehicles(),
            position_idx < self.nb_positions(),
        ensures
            result == match self.board_time_if_allowed(vehicle_idx as int, position_idx as int) {
                Some(time) => Some(&time),
                None => None::<&Time>,
            },
    {
        if self.can_board(position_idx) {
            Some(self.departure_time(vehicle_idx, position_idx))
        } else {
            None
        }
    }

    /// The load of the vehicle between `position_idx - 1` and `position_idx`.
    fn load_before(&self, vehicle_idx: usize, position_idx: usize) -> (result: &Load)
        requires
            self.wf(),
            vehicle_idx < self.nb_vehicles(),
            1 <= position_idx < self.nb_positions(),
        ensures
            *result == self.load(vehicle_idx as int, position_idx - 1),
    {
        let loads = &self.vehicles.vehicle_data_at(vehicle_idx).1;
        &loads[position_idx - 1]
    }

    /// The load of the vehicle between `position_idx` and `position_idx + 1`.
    fn load_after(&self, vehicle_idx: usize, position_idx: usize) -> (result: &Load)
        requires
            self.wf(),
            vehicle_idx < self.nb_vehicles(),
            position_idx + 1 < self.nb_positions(),
        ensures
            *result == self.load(vehicle_idx as int, position_idx as int),
    {
        let loads = &self.vehicles.vehicle_data_at(vehicle_idx).1;
        &loads[position_idx]
    }

    /// The first vehicle, among those `filter` accepts, that one can board at the position
    /// no earlier than `waiting_time`, if one can board there.
    fn earliest_filtered_vehicle_to_board<Filter>(
        &self,
        waiting_time: &Time,
        position_idx: usize,
        filter: &Filter,
    ) -> (result: Option<usize>) where Filter: Fn(&VehicleData) -> bool
        requires
            self.wf(),
            position_idx < self.nb_positions(),
            forall|data: &VehicleData| #[trigger] filter.requires((data,)),
        ensures
            !flow_allows_board(self.stop_flows_view()[position_idx as int].1) ==> result is None,
            flow_allows_board(self.stop_flows_view()[position_idx as int].1) ==> is_earliest_filtered_vehicle(
                *self,
                *waiting_time,
                position_idx as int,
                *filter,
                result,
            ),
    {
        if !self.can_board(position_idx) {
            return None;
        }
        let nb_of_vehicles = self.nb_of_vehicle();
        let mut idx: usize = 0;
        while idx < nb_of_vehicles
            invariant
                self.wf(),
                position_idx < self.nb_positions(),
                nb_of_vehicles == self.nb_vehicles(),
                forall|data: &VehicleData| #[trigger] filter.requires((data,)),
                idx <= nb_of_vehicles,
                flow_allows_board(self.stop_flows_view()[position_idx as int].1),
                forall|v: int|
                    0 <= v < idx ==> self.vehicle_board_time(v, position_idx as int) < *waiting_time
                        || call_ensures(*filter, (&#[trigger] self.data_of_vehicle(v),), false),
            decreases nb_of_vehicles - idx,
        {
            let accepted = filter(self.vehicle_data(idx));
            if accepted {
                let board_time = self.departure_time(idx, position_idx);
                if *waiting_time <= *board_time {
                    return Some(idx);
                }
            }
            idx = idx + 1;
        }
        None
    }

    /// The last vehicle, among those `filter` accepts, that debarks at the position
    /// no later than `time`, with its debark time there, if one can debark there.
    fn latest_filtered_vehicle_that_debark<Filter>(
        &self,
        time: &Time,
        position_idx: usize,
        filter: Filter,
    ) -> (result: Option<(usize, &Time)>) where Filter: Fn(&VehicleData) -> bool
        requires
            self.wf(),
            position_idx < self.nb_positions(),
            forall|data: &VehicleData| #[trigger] filter.requires((data,)),
        ensures
            !flow_allows_debark(self.stop_flows_view()[position_idx as int].1) ==> result is None,
            flow_allows_debark(self.stop_flows_view()[position_idx as int].1) ==> is_latest_filtered_vehicle(
                *self,
                *time,
                position_idx as int,
                filter,
                match result {
                    Some((vehicle, _)) => Some(vehicle),
                    None => None,
                },
            ),
            result matches Some((vehicle, debark_time)) ==> *debark_time == self.vehicle_debark_time(
                vehicle as int,
                position_idx as int,
            ),
    {
        if !self.can_debark(position_idx) {
            return None;
        }
        let nb_of_vehicles = self.nb_of_vehicle();
        let mut remaining: usize = nb_of_vehicles;
        while remaining > 0
            invariant
                self.wf(),
                position_idx < self.nb_positions(),
                nb_of_vehicles == self.nb_vehicles(),
                forall|data: &VehicleData| #[trigger] filter.requires((data,)),
                remaining <= nb_of_vehicles,
                flow_allows_debark(self.stop_flows_view()[position_idx as int].1),
                forall|v: int|
                    remaining <= v < nb_of_vehicles ==> *time < self.vehicle_debark_time(v, position_idx as int)
                        || call_ensures(filter, (&#[trigger] self.data_of_vehicle(v),), false),
            decreases remaining,
        {
            let idx = remaining - 1;
            let accepted = filter(self.vehicle_data(idx));
            if accepted {
                let debark_time = self.arrival_time(idx, position_idx);
                if *debark_time <= *time {
                    return Some((idx, debark_time));
                }
            }
            remaining = idx;
        }
        None
    }
}

/// The timetables listed for these stop flows, looking at the entries from `from` on.
pub open spec fn timetables_with_from(
    entries: Seq<(StopFlows, Vec<Timetable>)>,
    stop_flows: Seq<(Stop, FlowDirection)>,
    from: int,
) -> Seq<Timetable>
    decreases entries.len() - from,
{
    if from < 0 || from >= entries.len() {
        Seq::empty()
    } else if entries[from].0@ == stop_flows {
        entries[from].1@
    } else {
        timetables_with_from(entries, stop_flows, from + 1)
    }
}

/// The number of vehicles in the first `n` timetables.
pub open spec fn nb_of_vehicles_in<VehicleData>(timetables: Seq<TimetableData<VehicleData>>, n: int) -> nat
    decreases n,
{
    if n <= 0 {
        0
    } else {
        nb_of_vehicles_in(timetables, n - 1) + timetables[n - 1].nb_vehicles()
    }
}

/// Changing one timetable for one with one more vehicle adds one vehicle to the count.
proof fn lemma_nb_of_vehicles_update<VehicleData>(
    timetables: Seq<TimetableData<VehicleData>>,
    idx: int,
    timetable: TimetableData<VehicleData>,
    n: int,
)
    requires
        0 <= idx < n <= timetables.len(),
        timetable.nb_vehicles() == timetables[idx].nb_vehicles() + 1,
    ensures
        nb_of_vehicles_in(timetables.update(idx, timetable), n) == nb_of_vehicles_in(timetables, n) + 1,
    decreases n,
{
    if n - 1 > idx {
        lemma_nb_of_vehicles_update(timetables, idx, timetable, n - 1);
    } else {
        lemma_nb_of_vehicles_same(timetables, timetables.update(idx, timetable), n - 1);
    }
}

/// The count only depends on the first `n` timetables.
proof fn lemma_nb_of_vehicles_same<VehicleData>(
    timetables: Seq<TimetableData<VehicleData>>,
    others: Seq<TimetableData<VehicleData>>,
    n: int,
)
    requires
        0 <= n <= timetables.len(),
        n <= others.len(),
        forall|t: int| 0 <= t < n ==> timetables[t] == others[t],
    ensures
        nb_of_vehicles_in(timetables, n) == nb_of_vehicles_in(others, n),
    decreases n,
{
    if n > 0 {
        lemma_nb_of_vehicles_same(timetables, others, n - 1);
    }
}

/// The flow directions of a vehicle journey as stored: one cannot debark at the first stop,
/// nor board at the last one.
pub open spec fn corrected_flow(flow: FlowDirection, position: int, nb_of_positions: int) -> FlowDirection {
    if position == 0 {
        match flow {
            FlowDirection::BoardAndDebark => FlowDirection::BoardOnly,
            FlowDirection::DebarkOnly => FlowDirection::NoBoardDebark,
            _ => flow,
        }
    } else if position == nb_of_positions - 1 {
        match flow {
            FlowDirection::BoardAndDebark => FlowDirection::DebarkOnly,
            FlowDirection::BoardOnly => FlowDirection::NoBoardDebark,
            _ => flow,
        }
    } else {
        flow
    }
}

/// The times stored for a vehicle: where one can only board, the debark time is the board
/// time, and where one can only debark, the board time is the debark time.
pub open spec fn corrected_times(board_time: Time, debark_time: Time, flow: FlowDirection) -> (Time, Time) {
    match flow {
        FlowDirection::BoardOnly => (board_time, board_time),
        FlowDirection::DebarkOnly => (debark_time, debark_time),
        _ => (board_time, debark_time),
    }
}

/// The stops of a vehicle journey, each with its corrected flow direction.
pub open spec fn corrected_stop_flows(stops: Seq<Stop>, flows: Seq<FlowDirection>) -> Seq<(Stop, FlowDirection)> {
    Seq::new(stops.len(), |i: int| (stops[i], corrected_flow(flows[i], i, flows.len() as int)))
}

/// The corrected board times of a vehicle journey.
pub open spec fn corrected_board_times(flows: Seq<FlowDirection>, board_times: Seq<Time>, debark_times: Seq<Time>) -> Seq<Time> {
    Seq::new(flows.len(), |i: int| corrected_times(board_times[i], debark_times[i], corrected_flow(flows[i], i, flows.len() as int)).0)
}

/// The corrected debark times of a vehicle journey.
pub open spec fn corrected_debark_times(flows: Seq<FlowDirection>, board_times: Seq<Time>, debark_times: Seq<Time>) -> Seq<Time> {
    Seq::new(flows.len(), |i: int| corrected_times(board_times[i], debark_times[i], corrected_flow(flows[i], i, flows.len() as int)).1)
}

/// All the timetables, and, for each sequence of stop flows, the timetables whose vehicles
/// run along it.
pub struct GenericTimetables<VehicleData> {
    pub(super) stop_flows_to_timetables: Vec<(StopFlows, Vec<Timetable>)>,
    pub(super) timetable_datas: Vec<TimetableData<VehicleData>>,
}

impl<VehicleData> GenericTimetables<VehicleData> {
    pub closed spec fn nb_timetables(&self) -> nat {
        self.timetable_datas@.len()
    }

    pub closed spec fn timetables_view(&self) -> Seq<TimetableData<VehicleData>> {
        self.timetable_datas@
    }

    pub closed spec fn stop_flows_entries(&self) -> Seq<(StopFlows, Vec<Timetable>)> {
        self.stop_flows_to_timetables@
    }

    pub closed spec fn timetable(&self, idx: int) -> TimetableData<VehicleData> {
        self.timetable_datas@[idx]
    }

    /// The timetables whose vehicles run along these stop flows, in the order they were created.
    pub closed spec fn timetables_with(&self, stop_flows: Seq<(Stop, FlowDirection)>) -> Seq<Timetable> {
        timetables_with_from(self.stop_flows_to_timetables@, stop_flows, 0)
    }

    /// The number of vehicles in all the timetables.
    pub closed spec fn nb_trips(&self) -> nat {
        nb_of_vehicles_in(self.timetable_datas@, self.timetable_datas@.len() as int)
    }

    /// Every timetable is well formed, no sequence of stop flows is listed twice, and each
    /// listed timetable exists and runs along the stop flows it is listed for.
    pub closed spec fn wf(&self) -> bool {
        let entries = self.stop_flows_to_timetables@;
        &&& forall|t: int| 0 <= t < self.timetable_datas@.len() ==> (#[trigger] self.timetable_datas@[t]).wf()
        &&& forall|i: int, j: int| 0 <= i < j < entries.len() ==> (#[trigger] entries[i]).0@ != (#[trigger] entries[j]).0@
        &&& forall|i: int, k: int|
            0 <= i < entries.len() && 0 <= k < (#[trigger] entries[i]).1@.len() ==> {
                let timetable = #[trigger] entries[i].1@[k];
                &&& timetable.idx < self.timetable_datas@.len()
                &&& self.timetable_datas@[timetable.idx as int].stop_flows_view() == entries[i].0@
            }
    }

    pub proof fn lemma_timetables_with(&self, stop_flows: Seq<(Stop, FlowDirection)>, k: int)
        requires
            self.wf(),
            0 <= k < self.timetables_with(stop_flows).len(),
        ensures
            self.timetables_with(stop_flows)[k].idx < self.nb_timetables(),
            self.timetable(self.timetables_with(stop_flows)[k].idx as int).stop_flows_view() == stop_flows,
    {
        self.lemma_timetables_with_from(stop_flows, k, 0);
    }

    proof fn lemma_timetables_with_from(&self, stop_flows: Seq<(Stop, FlowDirection)>, k: int, from: int)
        requires
            self.wf(),
            0 <= k < timetables_with_from(self.stop_flows_to_timetables@, stop_flows, from).len(),
        ensures
            ({
                let timetable = timetables_with_from(self.stop_flows_to_timetables@, stop_flows, from)[k];
                &&& timetable.idx < self.nb_timetables()
                &&& self.timetable(timetable.idx as int).stop_flows_view() == stop_flows
            }),
        decreases self.stop_flows_to_timetables@.len() - from,
    {
        let entries = self.stop_flows_to_timetables@;
        if 0 <= from < entries.len() && entries[from].0@ != stop_flows {
            self.lemma_timetables_with_from(stop_flows, k, from + 1);
        } else {
            assert(entries[from].1@[k] == entries[from].1@[k]);
        }
    }

    pub fn new() -> (result: Self)
        ensures
            result.wf(),
            result.nb_timetables() == 0,
            result.nb_trips() == 0,
            forall|stop_flows: Seq<(Stop, FlowDirection)>| result.timetables_with(stop_flows).len() == 0,
    {
        Self { stop_flows_to_timetables: Vec::new(), timetable_datas: Vec::new() }
    }

    pub fn nb_of_timetables(&self) -> (result: usize)
        ensures
            result == self.nb_timetables(),
    {
        self.timetable_datas.len()
    }

    pub fn timetable_data(&self, timetable: &Timetable) -> (result: &TimetableData<VehicleData>)
        requires
            timetable.idx < self.nb_timetables(),
        ensures
            *result == self.timetable(timetable.idx as int),
    {
        &self.timetable_datas[timetable.idx]
    }

    pub fn timetable_data_mut(&mut self, timetable: &Timetable) -> (result: &mut TimetableData<VehicleData>)
        requires
            timetable.idx < old(self).nb_timetables(),
        ensures
            *result == old(self).timetable(timetable.idx as int),
            final(self).timetables_view() == old(self).timetables_view().update(timetable.idx as int, *final(result)),
            final(self).stop_flows_entries() == old(self).stop_flows_entries(),
    {
        &mut self.timetable_datas[timetable.idx]
    }

    pub fn vehicle_data(&self, vehicle: &Vehicle) -> (result: &VehicleData)
        requires
            self.valid_vehicle(*vehicle),
        ensures
            *result == self.timetable(vehicle.timetable.idx as int).data_of_vehicle(vehicle.idx as int),
    {
        self.timetable_data(&vehicle.timetable).vehicle_data(vehicle.idx)
    }

    pub fn stoptime_idx(&self, position: &Position) -> (result: usize)
        ensures
            result == position.idx,
    {
        position.idx
    }

    pub fn timetable_of(&self, vehicle: &Vehicle) -> (result: Timetable)
        ensures
            result == vehicle.timetable,
    {
        vehicle.timetable
    }

    /// A vehicle of an existing timetable.
    pub open spec fn valid_vehicle(&self, vehicle: Vehicle) -> bool {
        &&& vehicle.timetable.idx < self.nb_timetables()
        &&& vehicle.idx < self.timetable(vehicle.timetable.idx as int).nb_vehicles()
    }

    /// A position along the stops of an existing timetable.
    pub open spec fn valid_position(&self, position: Position) -> bool {
        &&& position.timetable.idx < self.nb_timetables()
        &&& position.idx < self.timetable(position.timetable.idx as int).nb_positions()
    }

    pub fn stop_at(&self, position: &Position, timetable: &Timetable) -> (result: &Stop)
        requires
            *timetable == position.timetable,
            self.valid_position(*position),
        ensures
            *result == self.timetable(timetable.idx as int).stop_flows_view()[position.idx as int].0,
    {
        self.timetable_data(timetable).stop_at(position.idx)
    }

    pub fn is_upstream(&self, upstream: &Position, downstream: &Position, timetable: &Timetable) -> (result: bool)
        requires
            upstream.timetable == *timetable,
        ensures
            result == (upstream.idx < downstream.idx),
    {
        upstream.idx < downstream.idx
    }

    pub fn next_position(&self, position: &Position, timetable: &Timetable) -> (result: Option<Position>)
        requires
            self.wf(),
            position.timetable == *timetable,
            timetable.idx < self.nb_timetables(),
        ensures
            result == if position.idx + 1 < self.timetable(timetable.idx as int).nb_positions() {
                Some(Position { timetable: position.timetable, idx: (position.idx + 1) as usize })
            } else {
                None::<Position>
            },
    {
        let timetable_data = self.timetable_data(&position.timetable);
        proof {
            assert(self.timetable_datas@[timetable.idx as int].wf());
            timetable_data.lemma_wf_sizes();
        }
        if position.idx < timetable_data.nb_of_positions() - 1 {
            let result = Position { timetable: position.timetable, idx: position.idx + 1 };
            Some(result)
        } else {
            None
        }
    }

    pub fn previous_position(&self, position: &Position, timetable: &Timetable) -> (result: Option<Position>)
        requires
            position.timetable == *timetable,
        ensures
            result == if position.idx >= 1 {
                Some(Position { timetable: position.timetable, idx: (position.idx - 1) as usize })
            } else {
                None::<Position>
            },
    {
        if position.idx >= 1 {
            let result = Position { timetable: position.timetable, idx: position.idx - 1 };
            Some(result)
        } else {
            None
        }
    }

    /// The time at which one can debark from the vehicle at the position, with the load of the
    /// vehicle just before, if one can debark there.
    pub fn debark_time(&self, vehicle: &Vehicle, position: &Position) -> (result: Option<(&Time, &Load)>)
        requires
            self.wf(),
            vehicle.timetable == position.timetable,
            self.valid_vehicle(*vehicle),
            self.valid_position(*position),
        ensures
            ({
                let timetable = self.timetable(vehicle.timetable.idx as int);
                match timetable.debark_time_if_allowed(vehicle.idx as int, position.idx as int) {
                    Some(time) => result matches Some((t, load)) && *t == time && position.idx >= 1
                        && *load == timetable.load(vehicle.idx as int, position.idx - 1),
                    None => result is None,
                }
            }),
    {
        let timetable_data = self.timetable_data(&vehicle.timetable);
        proof {
            assert(self.timetable_datas@[vehicle.timetable.idx as int].wf());
            timetable_data.lemma_wf_sizes();
        }
        let time = timetable_data.debark_time(vehicle.idx, position.idx)?;
        let load = timetable_data.load_before(vehicle.idx, position.idx);
        Some((time, load))
    }

    /// The time at which one can board the vehicle at the position, with the load of the
    /// vehicle just after, if one can board there.
    pub fn board_time(&self, vehicle: &Vehicle, position: &Position) -> (result: Option<(&Time, &Load)>)
        requires
            self.wf(),
            vehicle.timetable == position.timetable,
            self.valid_vehicle(*vehicle),
            self.valid_position(*position),
        ensures
            ({
                let timetable = self.timetable(vehicle.timetable.idx as int);
                match timetable.board_time_if_allowed(vehicle.idx as int, position.idx as int) {
                    Some(time) => result matches Some((t, load)) && *t == time && position.idx + 1
                        < timetable.nb_positions() && *load == timetable.load(vehicle.idx as int, position.idx as int),
                    None => result is None,
                }
            }),
    {
        let timetable_data = self.timetable_data(&vehicle.timetable);
        proof {
            assert(self.timetable_datas@[vehicle.timetable.idx as int].wf());
            timetable_data.lemma_wf_sizes();
        }
        let time = timetable_data.board_time(vehicle.idx, position.idx)?;
        let load = timetable_data.load_after(vehicle.idx, position.idx);
        Some((time, load))
    }

    /// The time at which the vehicle reaches the position, with its load just before.
    pub fn arrival_time(&self, vehicle: &Vehicle, position: &Position) -> (result: (&Time, &Load))
        requires
            self.wf(),
            vehicle.timetable == position.timetable,
            self.valid_vehicle(*vehicle),
            self.valid_position(*position),
            position.idx >= 1,
        ensures
            *result.0 == self.timetable(vehicle.timetable.idx as int).vehicle_debark_time(vehicle.idx as int, position.idx as int),
            *result.1 == self.timetable(vehicle.timetable.idx as int).load(vehicle.idx as int, position.idx - 1),
    {
        let timetable_data = self.timetable_data(&vehicle.timetable);
        proof {
            assert(self.timetable_datas@[vehicle.timetable.idx as int].wf());
        }
        let time = timetable_data.arrival_time(vehicle.idx, position.idx);
        let load = timetable_data.load_before(vehicle.idx, position.idx);
        (time, load)
    }

    /// The time at which the vehicle leaves the position, with its load just after.
    pub fn departure_time(&self, vehicle: &Vehicle, position: &Position) -> (result: (&Time, &Load))
        requires
            self.wf(),
            vehicle.timetable == position.timetable,
            self.valid_vehicle(*vehicle),
            self.valid_position(*position),
            position.idx + 1 < self.timetable(position.timetable.idx as int).nb_positions(),
        ensures
            *result.0 == self.timetable(vehicle.timetable.idx as int).vehicle_board_time(vehicle.idx as int, position.idx as int),
            *result.1 == self.timetable(vehicle.timetable.idx as int).load(vehicle.idx as int, position.idx as int),
    {
        let timetable_data = self.timetable_data(&vehicle.timetable);
        proof {
            assert(self.timetable_datas@[vehicle.timetable.idx as int].wf());
        }
        let time = timetable_data.departure_time(vehicle.idx, position.idx);
        let load = timetable_data.load_after(vehicle.idx, position.idx);
        (time, load)
    }

    /// If we are waiting at `position` at `waiting_time`, the vehicle, among those on which
    /// `filter` returns true, to board that allows to debark at the subsequent positions at the
    /// earliest time.
    pub fn earliest_filtered_vehicle_to_board<Filter>(
        &self,
        waiting_time: &Time,
        timetable: &Timetable,
        position: &Position,
        filter: Filter,
    ) -> (result: Option<Vehicle>) where Filter: Fn(&VehicleData) -> bool
        requires
            self.wf(),
            position.timetable == *timetable,
            self.valid_position(*position),
            forall|data: &VehicleData| #[trigger] filter.requires((data,)),
        ensures
            ({
                let timetable_data = self.timetable(timetable.idx as int);
                let found = match result {
                    Some(vehicle) => Some(vehicle.idx),
                    None => None,
                };
                &&& result matches Some(vehicle) ==> vehicle.timetable == *timetable
                &&& !flow_allows_board(timetable_data.stop_flows_view()[position.idx as int].1) ==> result is None
                &&& flow_allows_board(timetable_data.stop_flows_view()[position.idx as int].1) ==> is_earliest_filtered_vehicle(
                    timetable_data,
                    *waiting_time,
                    position.idx as int,
                    filter,
                    found,
                )
            }),
            // no vehicle that one can board then, and that the filter cannot reject,
            // debarks anywhere earlier than the returned one
            result matches Some(vehicle) ==> forall|v: int, p: int|
                0 <= v < self.timetable(timetable.idx as int).nb_vehicles() && 0 <= p
                    < self.timetable(timetable.idx as int).nb_positions() && *waiting_time
                    <= self.timetable(timetable.idx as int).vehicle_board_time(v, position.idx as int)
                    && !call_ensures(filter, (&self.timetable(timetable.idx as int).data_of_vehicle(v),), false)
                    ==> #[trigger] self.timetable(timetable.idx as int).vehicle_debark_time(vehicle.idx as int, p)
                    <= #[trigger] self.timetable(timetable.idx as int).vehicle_debark_time(v, p),
    {
        let timetable_data = self.timetable_data(timetable);
        proof {
            assert(self.timetable_datas@[timetable.idx as int].wf());
        }
        let found = timetable_data.earliest_filtered_vehicle_to_board(waiting_time, position.idx, &filter);
        match found {
            Some(idx) => {
                proof {
                    assert forall|v: int, p: int|
                        0 <= v < timetable_data.nb_vehicles() && 0 <= p < timetable_data.nb_positions()
                            && *waiting_time <= timetable_data.vehicle_board_time(v, position.idx as int)
                            && !call_ensures(filter, (&timetable_data.data_of_vehicle(v),), false)
                        implies #[trigger] timetable_data.vehicle_debark_time(idx as int, p)
                        <= #[trigger] timetable_data.vehicle_debark_time(v, p) by {
                        if v < idx {
                            assert(timetable_data.vehicle_board_time(v, position.idx as int) < *waiting_time
                                || call_ensures(filter, (&timetable_data.data_of_vehicle(v),), false));
                        } else {
                            timetable_data.lemma_vehicles_ordered(idx as int, v, p);
                        }
                    }
                }
                Some(Vehicle { timetable: *timetable, idx })
            },
            None => None,
        }
    }

    /// If we must debark at `position` no later than `time`, the vehicle, among those on which
    /// `filter` returns true, that debarks there the latest, with its debark time and its load
    /// just before.
    pub fn latest_filtered_vehicle_that_debark<Filter>(
        &self,
        time: &Time,
        timetable: &Timetable,
        position: &Position,
        filter: Filter,
    ) -> (result: Option<(Vehicle, &Time, &Load)>) where Filter: Fn(&VehicleData) -> bool
        requires
            self.wf(),
            position.timetable == *timetable,
            self.valid_position(*position),
            forall|data: &VehicleData| #[trigger] filter.requires((data,)),
        ensures
            ({
                let timetable_data = self.timetable(timetable.idx as int);
                let found = match result {
                    Some((vehicle, _, _)) => Some(vehicle.idx),
                    None => None,
                };
                &&& !flow_allows_debark(timetable_data.stop_flows_view()[position.idx as int].1) ==> result is None
                &&& flow_allows_debark(timetable_data.stop_flows_view()[position.idx as int].1) ==> is_latest_filtered_vehicle(
                    timetable_data,
                    *time,
                    position.idx as int,
                    filter,
                    found,
                )
                &&& result matches Some((vehicle, debark_time, load)) ==> {
                    &&& vehicle.timetable == *timetable
                    &&& *debark_time == timetable_data.vehicle_debark_time(vehicle.idx as int, position.idx as int)
                    &&& position.idx >= 1
                    &&& *load == timetable_data.load(vehicle.idx as int, position.idx - 1)
                }
            }),
            // no vehicle that debarks by then, and that the filter cannot reject,
            // boards anywhere later than the returned one
            result matches Some((vehicle, _, _)) ==> forall|v: int, p: int|
                0 <= v < self.timetable(timetable.idx as int).nb_vehicles() && 0 <= p
                    < self.timetable(timetable.idx as int).nb_positions()
                    && self.timetable(timetable.idx as int).vehicle_debark_time(v, position.idx as int) <= *time
                    && !call_ensures(filter, (&self.timetable(timetable.idx as int).data_of_vehicle(v),), false)
                    ==> #[trigger] self.timetable(timetable.idx as int).vehicle_board_time(v, p)
                    <= #[trigger] self.timetable(timetable.idx as int).vehicle_board_time(vehicle.idx as int, p),
    {
        let timetable_data = self.timetable_data(timetable);
        proof {
            assert(self.timetable_datas@[timetable.idx as int].wf());
            timetable_data.lemma_wf_sizes();
        }
        let found = timetable_data.latest_filtered_vehicle_that_debark(time, position.idx, &filter);
        match found {
            Some((idx, debark_time)) => {
                let load = timetable_data.load_before(idx, position.idx);
                proof {
                    assert forall|v: int, p: int|
                        0 <= v < timetable_data.nb_vehicles() && 0 <= p < timetable_data.nb_positions()
                            && timetable_data.vehicle_debark_time(v, position.idx as int) <= *time
                            && !call_ensures(filter, (&timetable_data.data_of_vehicle(v),), false)
                        implies #[trigger] timetable_data.vehicle_board_time(v, p)
                        <= #[trigger] timetable_data.vehicle_board_time(idx as int, p) by {
                        if v > idx {
                            assert(*time < timetable_data.vehicle_debark_time(v, position.idx as int)
                                || call_ensures(filter, (&timetable_data.data_of_vehicle(v),), false));
                        } else {
                            timetable_data.lemma_vehicles_ordered(v, idx as int, p);
                        }
                    }
                }
                Some((Vehicle { timetable: *timetable, idx }, debark_time, load))
            },
            None => None,
        }
    }

    /// The number of vehicles in all the timetables.
    pub fn nb_of_trips(&self) -> (result: usize)
        requires
            self.nb_trips() <= usize::MAX,
        ensures
            result == self.nb_trips(),
    {
        let mut result: usize = 0;
        let mut idx: usize = 0;
        while idx < self.timetable_datas.len()
            invariant
                idx <= self.timetable_datas@.len(),
                result == nb_of_vehicles_in(self.timetable_datas@, idx as int),
                nb_of_vehicles_in(self.timetable_datas@, self.timetable_datas@.len() as int) <= usize::MAX,
            decreases self.timetable_datas@.len() - idx,
        {
            proof {
                lemma_nb_of_vehicles_grow(self.timetable_datas@, idx as int + 1, self.timetable_datas@.len() as int);
            }
            result = result + self.timetable_datas[idx].nb_of_vehicle();
            idx = idx + 1;
        }
        result
    }

    /// The index of the entry listing the timetables for these stop flows, if there is one.
    fn find_stop_flows(&self, stop_flows: &StopFlows) -> (result: Option<usize>)
        requires
            self.wf(),
        ensures
            match result {
                Some(entry) => entry < self.stop_flows_to_timetables@.len()
                    && self.stop_flows_to_timetables@[entry as int].0@ == stop_flows@
                    && self.timetables_with(stop_flows@) == self.stop_flows_to_timetables@[entry as int].1@,
                None => forall|i: int| 0 <= i < self.stop_flows_to_timetables@.len()
                    ==> (#[trigger] self.stop_flows_to_timetables@[i]).0@ != stop_flows@,
            },
    {
        let nb_of_entries = self.stop_flows_to_timetables.len();
        let mut entry: usize = 0;
        while entry < nb_of_entries
            invariant
                self.wf(),
                nb_of_entries == self.stop_flows_to_timetables@.len(),
                entry <= nb_of_entries,
                forall|i: int| 0 <= i < entry ==> (#[trigger] self.stop_flows_to_timetables@[i]).0@ != stop_flows@,
                timetables_with_from(self.stop_flows_to_timetables@, stop_flows@, 0)
                    == timetables_with_from(self.stop_flows_to_timetables@, stop_flows@, entry as int),
            decreases nb_of_entries - entry,
        {
            if same_stop_flows(&self.stop_flows_to_timetables[entry].0, stop_flows) {
                return Some(entry);
            }
            entry = entry + 1;
        }
        None
    }

    /// Inserts the vehicle in a timetable if the given debark times, board times and loads
    /// are coherent: in the first timetable, among those for its stop flows, that accepts it,
    /// or else in a new timetable. Returns a VehicleTimesError otherwise.
    pub fn insert(
        &mut self,
        stops: Vec<Stop>,
        flows: Vec<FlowDirection>,
        board_times: Vec<Time>,
        debark_times: Vec<Time>,
        loads: Vec<Load>,
        vehicle_data: VehicleData,
    ) -> (result: Result<Timetable, VehicleTimesError>)
        requires
            old(self).wf(),
            flows.len() == stops.len(),
            board_times.len() == stops.len(),
            debark_times.len() == stops.len(),
            loads.len() + 1 == stops.len(),
        ensures
            match vehicle_times_error(flows@, board_times@, debark_times@) {
                Some(error) => result == Err::<Timetable, VehicleTimesError>(error) && *final(self) == *old(self),
                None => result is Ok && final(self).inserted(
                    *old(self),
                    result->Ok_0,
                    corrected_stop_flows(stops@, flows@),
                    corrected_board_times(flows@, board_times@, debark_times@),
                    corrected_debark_times(flows@, board_times@, debark_times@),
                    (vehicle_data, loads),
                ),
            },
    {
        inspect(&flows, &board_times, &debark_times)?;
        let nb_of_positions = stops.len();
        let ghost corrected_board = corrected_board_times(flows@, board_times@, debark_times@);
        let ghost corrected_debark = corrected_debark_times(flows@, board_times@, debark_times@);
        let ghost stop_flows_spec = corrected_stop_flows(stops@, flows@);

        let mut stop_flows: StopFlows = Vec::new();
        let mut stop_flows_key: StopFlows = Vec::new();
        let mut corrected_board_times_vec: Vec<Time> = Vec::new();
        let mut corrected_debark_times_vec: Vec<Time> = Vec::new();
        let mut position_idx: usize = 0;
        while position_idx < nb_of_positions
            invariant
                nb_of_positions == stops.len(),
                flows.len() == nb_of_positions,
                board_times.len() == nb_of_positions,
                debark_times.len() == nb_of_positions,
                nb_of_positions >= 2,
                position_idx <= nb_of_positions,
                stop_flows@.len() == position_idx,
                stop_flows_key@.len() == position_idx,
                corrected_board_times_vec@.len() == position_idx,
                corrected_debark_times_vec@.len() == position_idx,
                corrected_board == corrected_board_times(flows@, board_times@, debark_times@),
                corrected_debark == corrected_debark_times(flows@, board_times@, debark_times@),
                stop_flows_spec == corrected_stop_flows(stops@, flows@),
                forall|i: int| 0 <= i < position_idx ==> #[trigger] stop_flows@[i] == stop_flows_spec[i],
                forall|i: int| 0 <= i < position_idx ==> #[trigger] stop_flows_key@[i] == stop_flows_spec[i],
                forall|i: int| 0 <= i < position_idx ==> #[trigger] corrected_board_times_vec@[i] == corrected_board[i],
                forall|i: int| 0 <= i < position_idx ==> #[trigger] corrected_debark_times_vec@[i] == corrected_debark[i],
            decreases nb_of_positions - position_idx,
        {
            let flow = flows[position_idx];
            let corrected_flow = if position_idx == 0 {
                match flow {
                    FlowDirection::BoardAndDebark => FlowDirection::BoardOnly,
                    FlowDirection::DebarkOnly => FlowDirection::NoBoardDebark,
                    _ => flow,
                }
            } else if position_idx == nb_of_positions - 1 {
                match flow {
                    FlowDirection::BoardAndDebark => FlowDirection::DebarkOnly,
                    FlowDirection::BoardOnly => FlowDirection::NoBoardDebark,
                    _ => flow,
                }
            } else {
                flow
            };
            let board_time = board_times[position_idx];
            let debark_time = debark_times[position_idx];
            let (corrected_board_time, corrected_debark_time) = match corrected_flow {
                FlowDirection::BoardOnly => (board_time, board_time),
                FlowDirection::DebarkOnly => (debark_time, debark_time),
                FlowDirection::BoardAndDebark | FlowDirection::NoBoardDebark => (board_time, debark_time),
            };
            stop_flows.push((stops[position_idx], corrected_flow));
            stop_flows_key.push((stops[position_idx], corrected_flow));
            corrected_board_times_vec.push(corrected_board_time);
            corrected_debark_times_vec.push(corrected_debark_time);
            position_idx = position_idx + 1;
        }
        assert(stop_flows@ =~= stop_flows_spec);
        assert(stop_flows_key@ =~= stop_flows_spec);
        assert(corrected_board_times_vec@ =~= corrected_board);
        assert(corrected_debark_times_vec@ =~= corrected_debark);

        let ghost old_self = *self;
        let has_entry = self.find_stop_flows(&stop_flows);
        if let Some(entry) = has_entry {
            let nb_of_candidates = self.stop_flows_to_timetables[entry].1.len();
            let mut candidate_idx: usize = 0;
            while candidate_idx < nb_of_candidates
                invariant
                    *self == old_self,
                    old_self.wf(),
                    entry < self.stop_flows_to_timetables@.len(),
                    self.stop_flows_to_timetables@[entry as int].0@ == stop_flows_spec,
                    self.timetables_with(stop_flows_spec) == self.stop_flows_to_timetables@[entry as int].1@,
                    nb_of_candidates == self.stop_flows_to_timetables@[entry as int].1@.len(),
                    candidate_idx <= nb_of_candidates,
                    nb_of_positions == stops.len(),
                    stop_flows_spec.len() == nb_of_positions,
                    corrected_board_times_vec@ == corrected_board,
                    corrected_debark_times_vec@ == corrected_debark,
                    corrected_board.len() == nb_of_positions,
                    corrected_debark.len() == nb_of_positions,
                    loads.len() + 1 == nb_of_positions,
                    old_self == *old(self),
                    vehicle_times_error(flows@, board_times@, debark_times@) is None,
                    stop_flows_spec == corrected_stop_flows(stops@, flows@),
                    corrected_board == corrected_board_times(flows@, board_times@, debark_times@),
                    corrected_debark == corrected_debark_times(flows@, board_times@, debark_times@),
                    first_accepting_timetable_from(old_self, old_self.timetables_with(stop_flows_spec), corrected_board, corrected_debark, 0)
                        == first_accepting_timetable_from(old_self, old_self.timetables_with(stop_flows_spec), corrected_board, corrected_debark, candidate_idx as int),
                decreases nb_of_candidates - candidate_idx,
            {
                let timetable = self.stop_flows_to_timetables[entry].1[candidate_idx];
                proof {
                    self.lemma_timetables_with(stop_flows_spec, candidate_idx as int);
                    assert(self.timetable_datas@[timetable.idx as int].wf());
                }
                if self.timetable_datas[timetable.idx].vehicles.accept(&corrected_board_times_vec, &corrected_debark_times_vec) {
                    let ghost data = (vehicle_data, loads);
                    let inserted = self.timetable_datas[timetable.idx].try_insert(
                        corrected_board_times_vec,
                        corrected_debark_times_vec,
                        loads,
                        vehicle_data,
                    );
                    proof {
                        assert(inserted);
                        let t = timetable.idx as int;
                        assert(self.timetable_datas@ == old_self.timetable_datas@.update(t, self.timetable_datas@[t]));
                        lemma_nb_of_vehicles_update(old_self.timetable_datas@, t, self.timetable_datas@[t], old_self.timetable_datas@.len() as int);
                        assert forall|i: int| 0 <= i < self.timetable_datas@.len() implies (#[trigger] self.timetable_datas@[i]).wf() by {
                            if i != t {
                                assert(old_self.timetable_datas@[i].wf());
                            }
                        }
                        assert(self.stop_flows_to_timetables == old_self.stop_flows_to_timetables);
                        assert forall|i: int, k: int|
                            0 <= i < self.stop_flows_to_timetables@.len() && 0 <= k < (#[trigger] self.stop_flows_to_timetables@[i]).1@.len() implies {
                                let timetable = #[trigger] self.stop_flows_to_timetables@[i].1@[k];
                                &&& timetable.idx < self.timetable_datas@.len()
                                &&& self.timetable_datas@[timetable.idx as int].stop_flows_view() == self.stop_flows_to_timetables@[i].0@
                            } by {
                            let other = self.stop_flows_to_timetables@[i].1@[k];
                            assert(old_self.timetable_datas@[other.idx as int].stop_flows_view() == old_self.stop_flows_to_timetables@[i].0@);
                        }
                        assert(self.wf());
                        assert(first_accepting_timetable_from(old_self, old_self.timetables_with(stop_flows_spec), corrected_board, corrected_debark, candidate_idx as int) == Some(candidate_idx as int));
                        assert(self.inserted(old_self, timetable, stop_flows_spec, corrected_board, corrected_debark, data));
                    }
                    return Ok(timetable);
                }
                candidate_idx = candidate_idx + 1;
            }
        }
        let ghost data = (vehicle_data, loads);
        proof {
            match has_entry {
                Some(entry) => {},
                None => {
                    lemma_timetables_with_no_match(old_self.stop_flows_to_timetables@, stop_flows_spec, 0);
                },
            }
            assert(first_accepting_timetable_from(old_self, old_self.timetables_with(stop_flows_spec), corrected_board, corrected_debark, 0) is None);
            assert(stop_flows_spec[0].1 == corrected_flow(flows@[0], 0, nb_of_positions as int));
            assert(stop_flows_spec.last().1 == corrected_flow(flows@[nb_of_positions - 1], nb_of_positions - 1, nb_of_positions as int));
        }
        let new_timetable_data = TimetableData::new(
            stop_flows,
            corrected_board_times_vec,
            corrected_debark_times_vec,
            loads,
            vehicle_data,
        );
        let timetable = Timetable { idx: self.timetable_datas.len() };
        self.timetable_datas.push(new_timetable_data);
        match has_entry {
            Some(entry) => {
                self.stop_flows_to_timetables[entry].1.push(timetable);
            },
            None => {
                let mut timetables: Vec<Timetable> = Vec::new();
                timetables.push(timetable);
                self.stop_flows_to_timetables.push((stop_flows_key, timetables));
            },
        }
        proof {
            let n = old_self.timetable_datas@.len() as int;
            assert(self.timetable_datas@ == old_self.timetable_datas@.push(new_timetable_data));
            lemma_nb_of_vehicles_same(old_self.timetable_datas@, self.timetable_datas@, n);
            assert(self.nb_trips() == old_self.nb_trips() + 1);
            assert forall|t: int| 0 <= t < self.timetable_datas@.len() implies (#[trigger] self.timetable_datas@[t]).wf() by {
                if t < n {
                    assert(old_self.timetable_datas@[t].wf());
                }
            }
            let old_entries = old_self.stop_flows_to_timetables@;
            let entries = self.stop_flows_to_timetables@;
            match has_entry {
                Some(entry) => {
                    let e = entry as int;
                    assert(entries == old_entries.update(e, (old_entries[e].0, entries[e].1)));
                    assert(entries[e].1@ == old_entries[e].1@.push(timetable));
                    assert forall|other: Seq<(Stop, FlowDirection)>| other != stop_flows_spec implies self.timetables_with(other) == old_self.timetables_with(other) by {
                        lemma_timetables_with_update_entry(old_entries, e, entries[e], other, 0);
                    }
                    lemma_timetables_with_update_entry(old_entries, e, entries[e], stop_flows_spec, 0);
                    assert forall|i: int, j: int| 0 <= i < j < entries.len() implies (#[trigger] entries[i]).0@ != (#[trigger] entries[j]).0@ by {
                        assert(old_entries[i].0@ != old_entries[j].0@);
                    }
                    assert forall|i: int, k: int|
                        0 <= i < entries.len() && 0 <= k < (#[trigger] entries[i]).1@.len() implies {
                            let timetable = #[trigger] entries[i].1@[k];
                            &&& timetable.idx < self.timetable_datas@.len()
                            &&& self.timetable_datas@[timetable.idx as int].stop_flows_view() == entries[i].0@
                        } by {
                        if i == e && k == old_entries[e].1@.len() {
                        } else {
                            let other = old_entries[i].1@[k];
                            assert(other == entries[i].1@[k]);
                            assert(old_self.timetable_datas@[other.idx as int].stop_flows_view() == old_entries[i].0@);
                        }
                    }
                },
                None => {
                    assert(entries == old_entries.push((stop_flows_key, entries.last().1)));
                    assert forall|other: Seq<(Stop, FlowDirection)>| other != stop_flows_spec implies self.timetables_with(other) == old_self.timetables_with(other) by {
                        lemma_timetables_with_push_entry(old_entries, stop_flows_key, entries.last().1, other, 0);
                    }
                    lemma_timetables_with_push_entry(old_entries, stop_flows_key, entries.last().1, stop_flows_spec, 0);
                    lemma_timetables_with_no_match(old_entries, stop_flows_spec, 0);
                    assert(entries.last().1@ =~= seq![timetable]);
                    assert(old_self.timetables_with(stop_flows_spec).push(timetable) =~= seq![timetable]);
                    assert forall|i: int, j: int| 0 <= i < j < entries.len() implies (#[trigger] entries[i]).0@ != (#[trigger] entries[j]).0@ by {
                        if j < old_entries.len() {
                            assert(old_entries[i].0@ != old_entries[j].0@);
                        } else {
                            assert(old_entries[i].0@ != stop_flows_spec);
                        }
                    }
                    assert forall|i: int, k: int|
                        0 <= i < entries.len() && 0 <= k < (#[trigger] entries[i]).1@.len() implies {
                            let timetable = #[trigger] entries[i].1@[k];
                            &&& timetable.idx < self.timetable_datas@.len()
                            &&& self.timetable_datas@[timetable.idx as int].stop_flows_view() == entries[i].0@
                        } by {
                        if i < old_entries.len() {
                            let other = old_entries[i].1@[k];
                            assert(old_self.timetable_datas@[other.idx as int].stop_flows_view() == old_entries[i].0@);
                        }
                    }
                },
            }
            assert(self.wf());
            assert(self.inserted(old_self, timetable, stop_flows_spec, corrected_board, corrected_debark, data));
        }
        Ok(timetable)
    }

    /// `self` is the well-formed result of inserting, in `before`, a vehicle with these stop flows,
    /// (corrected) times and data into `timetable`: the first timetable listed for these stop flows
    /// that accepts it, or else a new timetable, listed for them, after all the others.
    pub open spec fn inserted(
        &self,
        before: Self,
        timetable: Timetable,
        stop_flows: Seq<(Stop, FlowDirection)>,
        board: Seq<Time>,
        debark: Seq<Time>,
        data: (VehicleData, Vec<Load>),
    ) -> bool {
        let candidates = before.timetables_with(stop_flows);
        &&& self.wf()
        &&& self.nb_trips() == before.nb_trips() + 1
        &&& match first_accepting_timetable_from(before, candidates, board, debark, 0) {
            Some(k) => {
                &&& timetable == candidates[k]
                &&& self.nb_timetables() == before.nb_timetables()
                &&& self.timetable(timetable.idx as int).stop_flows_view() == stop_flows
                &&& self.timetable(timetable.idx as int).ordered_vehicles().is_insertion_of(
                    before.timetable(timetable.idx as int).ordered_vehicles(),
                    board,
                    debark,
                    data,
                )
                &&& forall|t: int| 0 <= t < self.nb_timetables() && t != timetable.idx ==> #[trigger] self.timetable(t) == before.timetable(t)
                &&& forall|other: Seq<(Stop, FlowDirection)>| self.timetables_with(other) == before.timetables_with(other)
            },
            None => {
                let added = self.timetable(timetable.idx as int);
                &&& timetable.idx == before.nb_timetables()
                &&& self.nb_timetables() == before.nb_timetables() + 1
                &&& forall|t: int| 0 <= t < before.nb_timetables() ==> #[trigger] self.timetable(t) == before.timetable(t)
                &&& added.stop_flows_view() == stop_flows
                &&& added.nb_vehicles() == 1
                &&& added.ordered_vehicles().board_times_of(0) == board
                &&& added.ordered_vehicles().debark_times_of(0) == debark
                &&& added.ordered_vehicles().vehicle_data(0) == data
                &&& self.timetables_with(stop_flows) == candidates.push(timetable)
                &&& forall|other: Seq<(Stop, FlowDirection)>| other != stop_flows ==> self.timetables_with(other) == before.timetables_with(other)
            },
        }
    }
}

/// The index of the first timetable in `candidates`, from `from` on, that accepts a vehicle
/// with these times.
pub open spec fn first_accepting_timetable_from<VehicleData>(
    timetables: GenericTimetables<VehicleData>,
    candidates: Seq<Timetable>,
    board: Seq<Time>,
    debark: Seq<Time>,
    from: int,
) -> Option<int>
    decreases candidates.len() - from,
{
    if from < 0 || from >= candidates.len() {
        None
    } else if timetables.timetable(candidates[from].idx as int).ordered_vehicles().accepts(board, debark) {
        Some(from)
    } else {
        first_accepting_timetable_from(timetables, candidates, board, debark, from + 1)
    }
}

/// No entry lists these stop flows: no timetable is listed for them.
proof fn lemma_timetables_with_no_match(
    entries: Seq<(StopFlows, Vec<Timetable>)>,
    stop_flows: Seq<(Stop, FlowDirection)>,
    from: int,
)
    requires
        0 <= from,
        forall|i: int| from <= i < entries.len() ==> (#[trigger] entries[i]).0@ != stop_flows,
    ensures
        timetables_with_from(entries, stop_flows, from) == Seq::<Timetable>::empty(),
    decreases entries.len() - from,
{
    if from < entries.len() {
        lemma_timetables_with_no_match(entries, stop_flows, from + 1);
    }
}

/// Adding an entry for stop flows not listed yet lists its timetables for them, and only for them.
proof fn lemma_timetables_with_push_entry(
    entries: Seq<(StopFlows, Vec<Timetable>)>,
    key: StopFlows,
    timetables: Vec<Timetable>,
    stop_flows: Seq<(Stop, FlowDirection)>,
    from: int,
)
    requires
        0 <= from <= entries.len(),
        forall|i: int| 0 <= i < entries.len() ==> (#[trigger] entries[i]).0@ != key@,
    ensures
        stop_flows == key@ ==> timetables_with_from(entries.push((key, timetables)), stop_flows, from) == timetables@,
        stop_flows != key@ ==> timetables_with_from(entries.push((key, timetables)), stop_flows, from)
            == timetables_with_from(entries, stop_flows, from),
    decreases entries.len() - from,
{
    let pushed = entries.push((key, timetables));
    if from < entries.len() {
        assert(pushed[from] == entries[from]);
        lemma_timetables_with_push_entry(entries, key, timetables, stop_flows, from + 1);
    } else {
        assert(pushed[from] == (key, timetables));
        assert(timetables_with_from(entries, stop_flows, from) == Seq::<Timetable>::empty());
        assert(timetables_with_from(pushed, stop_flows, from + 1) == Seq::<Timetable>::empty());
    }
}

/// Changing the timetables listed in one entry, whose stop flows are listed nowhere else,
/// changes what is listed for those stop flows, and nothing else.
proof fn lemma_timetables_with_update_entry(
    entries: Seq<(StopFlows, Vec<Timetable>)>,
    e: int,
    entry: (StopFlows, Vec<Timetable>),
    stop_flows: Seq<(Stop, FlowDirection)>,
    from: int,
)
    requires
        0 <= from <= e < entries.len(),
        entry.0@ == entries[e].0@,
        forall|i: int, j: int| 0 <= i < j < entries.len() ==> (#[trigger] entries[i]).0@ != (#[trigger] entries[j]).0@,
    ensures
        stop_flows == entries[e].0@ ==> timetables_with_from(entries.update(e, entry), stop_flows, from) == entry.1@,
        stop_flows == entries[e].0@ ==> timetables_with_from(entries, stop_flows, from) == entries[e].1@,
        stop_flows != entries[e].0@ ==> timetables_with_from(entries.update(e, entry), stop_flows, from)
            == timetables_with_from(entries, stop_flows, from),
    decreases entries.len() - from,
{
    let updated = entries.update(e, entry);
    if from < e {
        assert(updated[from] == entries[from]);
        assert(entries[from].0@ != entries[e].0@);
        lemma_timetables_with_update_entry(entries, e, entry, stop_flows, from + 1);
    } else if stop_flows != entries[e].0@ && from + 1 < entries.len() {
        lemma_timetables_with_unchanged_after(entries, updated, stop_flows, from + 1);
    } else if stop_flows != entries[e].0@ {
    }
}

/// What is listed for some stop flows only depends on the entries from `from` on.
proof fn lemma_timetables_with_unchanged_after(
    entries: Seq<(StopFlows, Vec<Timetable>)>,
    others: Seq<(StopFlows, Vec<Timetable>)>,
    stop_flows: Seq<(Stop, FlowDirection)>,
    from: int,
)
    requires
        0 <= from,
        entries.len() == others.len(),
        forall|i: int| from <= i < entries.len() ==> #[trigger] entries[i] == others[i],
    ensures
        timetables_with_from(entries, stop_flows, from) == timetables_with_from(others, stop_flows, from),
    decreases entries.len() - from,
{
    if from < entries.len() {
        lemma_timetables_with_unchanged_after(entries, others, stop_flows, from + 1);
    }
}

/// Whether two sequences of stop flows are the same.
fn same_stop_flows(a: &StopFlows, b: &StopFlows) -> (result: bool)
    ensures
        result == (a@ == b@),
{
    if a.len() != b.len() {
        return false;
    }
    let mut i: usize = 0;
    while i < a.len()
        invariant
            a@.len() == b@.len(),
            i <= a@.len(),
            forall|k: int| 0 <= k < i ==> a@[k] == b@[k],
        decreases a@.len() - i,
    {
        let (stop_a, flow_a) = a[i];
        let (stop_b, flow_b) = b[i];
        if stop_a.idx != stop_b.idx || flow_a != flow_b {
            assert(a@[i as int] != b@[i as int]);
            return false;
        }
        i = i + 1;
    }
    assert(a@ =~= b@);
    true
}

/// The count of vehicles only grows with the number of timetables looked at.
proof fn lemma_nb_of_vehicles_grow<VehicleData>(timetables: Seq<TimetableData<VehicleData>>, m: int, n: int)
    requires
        0 <= m <= n,
    ensures
        nb_of_vehicles_in(timetables, m) <= nb_of_vehicles_in(timetables, n),
    decreases n - m,
{
    if m < n {
        lemma_nb_of_vehicles_grow(timetables, m, n - 1);
    }
}

} // verus!
