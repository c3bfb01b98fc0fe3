use vstd::prelude::*;

use super::{flow_allows_board, flow_allows_debark, FlowDirection, Stop};
use crate::time::SecondsSinceDayStart;

verus! {

pub type Time = SecondsSinceDayStart;

/// A position (the index of a stop) along a stop pattern.
#[derive(Debug, Clone, Copy, PartialEq, Eq, Structural)]
pub struct Position {
    pub idx: usize,
}

/// A timetable of a stop pattern, identified by its index.
#[derive(Debug, Clone, Copy, PartialEq, Eq, Structural)]
pub struct Timetable {
    pub idx: usize,
}

/// A vehicle of a timetable, identified by its index.
#[derive(Debug, Clone, Copy, PartialEq, Eq, Structural)]
pub struct Vehicle {
    pub idx: usize,
}

/// How two sequences of times of the same length compare, position by position.
#[derive(Debug, Clone, Copy, PartialEq, Eq, Structural)]
pub enum Comparison {
    Less,
    Equal,
    Greater,
}

/// `lower[i] <= upper[i]` at every position.
pub open spec fn all_le(lower: Seq<Time>, upper: Seq<Time>) -> bool {
    forall|i: int| 0 <= i < lower.len() ==> lower[i] <= upper[i]
}

/// The partial order between two sequences of times of the same length:
///    - `Some(Equal)`   if `lower[i] == upper[i]` for all `i`
///    - `Some(Less)`    if `lower[i] <= upper[i]` for all `i` (and they differ)
///    - `Some(Greater)` if `lower[i] >= upper[i]` for all `i` (and they differ)
///    - `None` otherwise (the two sequences are not comparable)
pub open spec fn compare_times(lower: Seq<Time>, upper: Seq<Time>) -> Option<Comparison> {
    if lower =~= upper {
        Some(Comparison::Equal)
    } else if all_le(lower, upper) {
        Some(Comparison::Less)
    } else if all_le(upper, lower) {
        Some(Comparison::Greater)
    } else {
        None
    }
}

/// Comparing the other way round gives the reverse answer: what is less one way is greater the
/// other way, what is equal or not comparable stays so.
pub proof fn lemma_compare_times_reversed(lower: Seq<Time>, upper: Seq<Time>)
    requires
        lower.len() == upper.len(),
    ensures
        compare_times(upper, lower) == match compare_times(lower, upper) {
            Some(Comparison::Less) => Some(Comparison::Greater),
            Some(Comparison::Greater) => Some(Comparison::Less),
            other => other,
        },
{
    if all_le(lower, upper) && all_le(upper, lower) {
        assert(lower =~= upper);
    }
}

/// Compares `lower` and `upper` position by position (see `compare_times`).
pub(crate) fn compare_vehicle_times(lower: &Vec<Time>, upper: &Vec<Time>) -> (result: Option<Comparison>)
    requires
        lower.len() == upper.len(),
    ensures
        result == compare_times(lower@, upper@),
{
    let mut seen_less = false;
    let mut seen_greater = false;
    let mut i: usize = 0;
    while i < lower.len()
        invariant
            lower.len() == upper.len(),
            i <= lower.len(),
            seen_less <==> exists|k: int| 0 <= k < i && lower@[k] < upper@[k],
            seen_greater <==> exists|k: int| 0 <= k < i && lower@[k] > upper@[k],
            !(seen_less && seen_greater),
        decreases lower.len() - i,
    {
        if lower[i] < upper[i] {
            seen_less = true;
        } else if lower[i] > upper[i] {
            seen_greater = true;
        }
        if seen_less && seen_greater {
            return None;
        }
        i = i + 1;
    }
    if !seen_less && !seen_greater {
        assert(lower@ =~= upper@);
        Some(Comparison::Equal)
    } else if seen_less {
        assert(!(lower@ =~= upper@));
        Some(Comparison::Less)
    } else {
        assert(!(lower@ =~= upper@));
        assert(!all_le(lower@, upper@));
        Some(Comparison::Greater)
    }
}

/// The index of the first value that is smaller than the value just before it,
/// looking at the indices `from`, `from + 1`, ...
pub open spec fn first_decrease_from(values: Seq<(usize, Time)>, from: int) -> Option<int>
    decreases values.len() - from,
{
    if from < 1 || from >= values.len() {
        None
    } else if values[from].1 < values[from - 1].1 {
        Some(from)
    } else {
        first_decrease_from(values, from + 1)
    }
}

/// The pair of positions `(upstream, downstream)` at which the values
/// first decrease, if they do.
pub open spec fn first_decreasing_pair(values: Seq<(usize, Time)>) -> Option<(usize, usize)> {
    match first_decrease_from(values, 1) {
        Some(i) => Some((values[i - 1].0, values[i].0)),
        None => None,
    }
}

/// From `from` on, the first decrease is the first index at which the value is smaller than
/// the one before; there is none exactly when the values never decrease from `from - 1` on.
proof fn lemma_first_decrease_from(values: Seq<(usize, Time)>, from: int)
    requires
        1 <= from,
    ensures
        first_decrease_from(values, from) is None <==> forall|k: int| from <= k < values.len() ==> values[k - 1].1 <= (#[trigger] values[k]).1,
        first_decrease_from(values, from) matches Some(i) ==> (from <= i < values.len() && values[i].1 < values[i - 1].1
            && forall|k: int| from <= k < i ==> values[k - 1].1 <= (#[trigger] values[k]).1),
    decreases values.len() - from,
{
    if from < values.len() && values[from].1 >= values[from - 1].1 {
        lemma_first_decrease_from(values, from + 1);
        assert forall|k: int| from <= k < values.len() && (forall|m: int| from + 1 <= m < values.len() ==> values[m - 1].1 <= (#[trigger] values[m]).1)
            implies values[k - 1].1 <= (#[trigger] values[k]).1 by {
            if k > from {
                assert(values[k - 1].1 <= values[k].1);
            }
        }
    }
}

/// The values decrease nowhere exactly when there is no first decreasing pair; where they do,
/// the pair is that of the positions at the first index whose value is smaller than the one
/// before, and the values do not decrease before it.
pub proof fn lemma_first_decreasing_pair(values: Seq<(usize, Time)>)
    ensures
        first_decreasing_pair(values) is None <==> forall|k: int| 1 <= k < values.len() ==> values[k - 1].1 <= (#[trigger] values[k]).1,
        first_decreasing_pair(values) matches Some(pair) ==> exists|i: int| 1 <= i < values.len()
            && (#[trigger] values[i]).1 < values[i - 1].1 && pair == (values[i - 1].0, values[i].0)
            && forall|k: int| 1 <= k < i ==> values[k - 1].1 <= (#[trigger] values[k]).1,
{
    lemma_first_decrease_from(values, 1);
    if let Some(i) = first_decrease_from(values, 1) {
        assert(values[i].1 < values[i - 1].1);
    }
}

/// Checks that the enumerated values are increasing. Returns the pair of positions
/// of the first decrease otherwise.
fn is_increasing(enumerated_values: &Vec<(usize, Time)>) -> (result: Result<(), (usize, usize)>)
    requires
        enumerated_values.len() >= 1,
    ensures
        result == match first_decreasing_pair(enumerated_values@) {
            Some(pair) => Err(pair),
            None => Ok(()),
        },
{
    let (mut prev_position, mut prev_value) = enumerated_values[0];
    let mut i: usize = 1;
    while i < enumerated_values.len()
        invariant
            1 <= i <= enumerated_values.len(),
            prev_position == enumerated_values@[i - 1].0,
            prev_value == enumerated_values@[i - 1].1,
            first_decrease_from(enumerated_values@, 1) == first_decrease_from(enumerated_values@, i as int),
        decreases enumerated_values.len() - i,
    {
        let (position, value) = enumerated_values[i];
        if value < prev_value {
            return Err((prev_position, position));
        }
        prev_position = position;
        prev_value = value;
        i = i + 1;
    }
    Ok(())
}


/// A sequence of times that never decreases.
pub open spec fn is_sorted(times: Seq<Time>) -> bool {
    forall|i: int, j: int| 0 <= i <= j < times.len() ==> times[i] <= times[j]
}

/// Inserting, in a sorted sequence, a value that is not smaller than the values
/// before the insertion index and not larger than those after it keeps it sorted.
proof fn lemma_insert_keeps_sorted(times: Seq<Time>, idx: int, value: Time)
    requires
        is_sorted(times),
        0 <= idx <= times.len(),
        forall|i: int| 0 <= i < idx ==> times[i] <= value,
        forall|i: int| idx <= i < times.len() ==> value <= times[i],
    ensures
        is_sorted(times.insert(idx, value)),
{
    let inserted = times.insert(idx, value);
    assert forall|i: int, j: int| 0 <= i <= j < inserted.len() implies inserted[i] <= inserted[j] by {
        if i < idx {
            if j < idx {
            } else if j == idx {
            } else {
                assert(inserted[j] == times[j - 1]);
            }
        } else if i == idx {
            if j > idx {
                assert(inserted[j] == times[j - 1]);
            }
        } else {
            assert(inserted[i] == times[i - 1]);
            assert(inserted[j] == times[j - 1]);
        }
    }
}

/// `compare_times(vehicle, new)` is `Greater` or `Equal` exactly when the new times
/// are, at every position, not later than those of the vehicle.
proof fn lemma_compare_not_less(vehicle: Seq<Time>, new: Seq<Time>)
    requires
        vehicle.len() == new.len(),
    ensures
        (compare_times(vehicle, new) == Some(Comparison::Greater) || compare_times(vehicle, new)
            == Some(Comparison::Equal)) <==> all_le(new, vehicle),
        (compare_times(vehicle, new) == Some(Comparison::Less) || compare_times(vehicle, new)
            == Some(Comparison::Equal)) <==> all_le(vehicle, new),
{
    if all_le(new, vehicle) && all_le(vehicle, new) {
        assert(vehicle =~= new);
    }
}

/// A vehicle whose times are `(vehicle_board, vehicle_debark)` can share a timetable with a
/// vehicle whose times are `(board, debark)`: both sequences of times are comparable, and
/// not in opposite directions.
pub open spec fn compatible_times(
    vehicle_board: Seq<Time>,
    board: Seq<Time>,
    vehicle_debark: Seq<Time>,
    debark: Seq<Time>,
) -> bool {
    let board_comparison = compare_times(vehicle_board, board);
    let debark_comparison = compare_times(vehicle_debark, debark);
    &&& board_comparison is Some
    &&& debark_comparison is Some
    &&& !(board_comparison == Some(Comparison::Greater) && debark_comparison == Some(
        Comparison::Less,
    ))
    &&& !(board_comparison == Some(Comparison::Less) && debark_comparison == Some(
        Comparison::Greater,
    ))
}

/// The vehicle whose times are `(vehicle_board, vehicle_debark)` does not come before the
/// vehicle whose times are `(board, debark)`: at every position it boards and debarks no earlier.
pub open spec fn not_before(
    vehicle_board: Seq<Time>,
    board: Seq<Time>,
    vehicle_debark: Seq<Time>,
    debark: Seq<Time>,
) -> bool {
    all_le(board, vehicle_board) && all_le(debark, vehicle_debark)
}

/// The vehicles of a timetable, all running along the same stops, stored position by position.
pub struct TimetableData<VehicleData> {
    /// vehicles data, ordered by increasing times
    /// meaning that if v1 is before v2 in this vector,
    /// then for all `position` we have
    ///    debark_times_by_position[position][v1] <= debark_times_by_position[position][v2]
    vehicles_data: Vec<VehicleData>,
    /// `board_times_by_position[position][vehicle]`
    ///   is the time at which a traveler waiting
    ///   at `position` can board `vehicle`;
    ///   for each `position` it is sorted by increasing times
    board_times_by_position: Vec<Vec<Time>>,
    /// `debark_times_by_position[position][vehicle]`
    ///   is the time at which a traveler being inside `vehicle`
    ///   will debark at `position`;
    ///   for each `position` it is sorted by increasing times
    debark_times_by_position: Vec<Vec<Time>>,
    /// the board time of the last vehicle at each position (zero when there is no vehicle)
    latest_board_time_by_position: Vec<Time>,
}

impl<VehicleData> TimetableData<VehicleData> {
    pub closed spec fn nb_positions(&self) -> nat {
        self.board_times_by_position@.len()
    }

    pub closed spec fn nb_vehicles(&self) -> nat {
        self.vehicles_data@.len()
    }

    pub closed spec fn board_time(&self, vehicle: int, position: int) -> Time {
        self.board_times_by_position@[position]@[vehicle]
    }

    pub closed spec fn debark_time(&self, vehicle: int, position: int) -> Time {
        self.debark_times_by_position@[position]@[vehicle]
    }

    pub closed spec fn latest_board_time(&self, position: int) -> Time {
        self.latest_board_time_by_position@[position]
    }

    pub closed spec fn vehicle_data(&self, vehicle: int) -> VehicleData {
        self.vehicles_data@[vehicle]
    }

    /// The board times of `vehicle`, position by position.
    pub open spec fn board_times_of(&self, vehicle: int) -> Seq<Time> {
        Seq::new(self.nb_positions(), |position: int| self.board_time(vehicle, position))
    }

    /// The debark times of `vehicle`, position by position.
    pub open spec fn debark_times_of(&self, vehicle: int) -> Seq<Time> {
        Seq::new(self.nb_positions(), |position: int| self.debark_time(vehicle, position))
    }

    /// The well-formedness of a timetable: every vehicle has a time at each position,
    /// vehicles are ordered by increasing board and debark times at every position,
    /// and the latest board time at a position is that of the last vehicle.
    pub closed spec fn wf(&self) -> bool {
        let n = self.nb_positions();
        let nv = self.nb_vehicles();
        &&& n >= 2
        &&& self.debark_times_by_position@.len() == n
        &&& self.latest_board_time_by_position@.len() == n
        &&& forall|p: int| 0 <= p < n ==> (#[trigger] self.board_times_by_position@[p])@.len() == nv
        &&& forall|p: int| 0 <= p < n ==> (#[trigger] self.debark_times_by_position@[p])@.len() == nv
        &&& forall|p: int| 0 <= p < n ==> is_sorted(#[trigger] self.board_times_by_position@[p]@)
        &&& forall|p: int| 0 <= p < n ==> is_sorted(#[trigger] self.debark_times_by_position@[p]@)
        &&& forall|p: int|
            0 <= p < n ==> #[trigger] self.latest_board_time(p) == if nv == 0 {
                0
            } else {
                self.board_time(nv - 1, p)
            }
    }

    /// Vehicles are ordered by increasing times: a vehicle never boards nor debarks
    /// later than a vehicle that comes after it.
    pub proof fn lemma_vehicles_ordered(&self, v1: int, v2: int, position: int)
        requires
            self.wf(),
            0 <= v1 <= v2 < self.nb_vehicles(),
            0 <= position < self.nb_positions(),
        ensures
            self.board_time(v1, position) <= self.board_time(v2, position),
            self.debark_time(v1, position) <= self.debark_time(v2, position),
    {
        assert(is_sorted(self.board_times_by_position@[position]@));
        assert(is_sorted(self.debark_times_by_position@[position]@));
    }

    /// The latest board time at a position is the board time of the last vehicle, the largest of
    /// all, or 0 when there is no vehicle.
    pub proof fn lemma_latest_board_time(&self, position: int)
        requires
            self.wf(),
            0 <= position < self.nb_positions(),
        ensures
            self.latest_board_time(position) == (if self.nb_vehicles() == 0 {
                0
            } else {
                self.board_time(self.nb_vehicles() - 1, position)
            }),
            forall|v: int| 0 <= v < self.nb_vehicles() ==> #[trigger] self.board_time(v, position) <= self.latest_board_time(position),
    {
        assert(is_sorted(self.board_times_by_position@[position]@));
        let nv = self.nb_vehicles() as int;
        assert forall|v: int| 0 <= v < nv implies #[trigger] self.board_time(v, position) <= self.latest_board_time(position) by {
            assert(self.board_times_by_position@[position]@[v] <= self.board_times_by_position@[position]@[nv - 1]);
        }
    }

    /// The insertion index, looked for from `from` on, lies between `from` and the number of vehicles.
    pub proof fn lemma_insertion_index_bounds(&self, board: Seq<Time>, debark: Seq<Time>, from: int)
        requires
            0 <= from <= self.nb_vehicles(),
        ensures
            from <= self.insertion_index_from(board, debark, from) <= self.nb_vehicles(),
        decreases self.nb_vehicles() - from,
    {
        if from < self.nb_vehicles() {
            self.lemma_insertion_index_bounds(board, debark, from + 1);
        }
    }

    /// A well-formed timetable has at least two positions.
    pub proof fn lemma_wf_sizes(&self)
        requires
            self.wf(),
        ensures
            self.nb_positions() >= 2,
    {
    }

    /// A timetable accepts a vehicle with these times when it is compatible with all its vehicles.
    pub open spec fn accepts(&self, board: Seq<Time>, debark: Seq<Time>) -> bool {
        forall|v: int|
            0 <= v < self.nb_vehicles() ==> compatible_times(
                #[trigger] self.board_times_of(v),
                board,
                self.debark_times_of(v),
                debark,
            )
    }

    /// The index at which a vehicle with these times goes: that of the first vehicle, from
    /// `from` on, that comes not before it, or the number of vehicles if there is none.
    pub open spec fn insertion_index_from(
        &self,
        board: Seq<Time>,
        debark: Seq<Time>,
        from: int,
    ) -> int
        decreases self.nb_vehicles() - from,
    {
        if from < 0 || from >= self.nb_vehicles() {
            self.nb_vehicles() as int
        } else if not_before(self.board_times_of(from), board, self.debark_times_of(from), debark) {
            from
        } else {
            self.insertion_index_from(board, debark, from + 1)
        }
    }

    /// `self` is the well-formed timetable obtained from `before` by inserting a vehicle with
    /// these times and data at its insertion index, the other vehicles keeping their order.
    pub open spec fn is_insertion_of(
        &self,
        before: Self,
        board: Seq<Time>,
        debark: Seq<Time>,
        data: VehicleData,
    ) -> bool {
        let idx = before.insertion_index_from(board, debark, 0);
        &&& self.wf()
        &&& self.nb_positions() == before.nb_positions()
        &&& self.nb_vehicles() == before.nb_vehicles() + 1
        &&& self.board_times_of(idx) == board
        &&& self.debark_times_of(idx) == debark
        &&& self.vehicle_data(idx) == data
        &&& forall|v: int| 0 <= v < idx ==> (#[trigger] self.board_times_of(v)) == before.board_times_of(v)
        &&& forall|v: int| 0 <= v < idx ==> (#[trigger] self.debark_times_of(v)) == before.debark_times_of(v)
        &&& forall|v: int| 0 <= v < idx ==> (#[trigger] self.vehicle_data(v)) == before.vehicle_data(v)
        &&& forall|v: int| idx < v < self.nb_vehicles() ==> (#[trigger] self.board_times_of(v)) == before.board_times_of(v - 1)
        &&& forall|v: int| idx < v < self.nb_vehicles() ==> (#[trigger] self.debark_times_of(v)) == before.debark_times_of(v - 1)
        &&& forall|v: int| idx < v < self.nb_vehicles() ==> (#[trigger] self.vehicle_data(v)) == before.vehicle_data(v - 1)
    }

    pub(crate) fn new(nb_of_positions: usize) -> (result: Self)
        requires
            nb_of_positions >= 2,
        ensures
            result.wf(),
            result.nb_positions() == nb_of_positions,
            result.nb_vehicles() == 0,
    {
        let mut debark_times_by_position: Vec<Vec<Time>> = Vec::new();
        let mut board_times_by_position: Vec<Vec<Time>> = Vec::new();
        let mut latest_board_time_by_position: Vec<Time> = Vec::new();
        let mut i: usize = 0;
        while i < nb_of_positions
            invariant
                i <= nb_of_positions,
                debark_times_by_position@.len() == i,
                board_times_by_position@.len() == i,
                latest_board_time_by_position@.len() == i,
                forall|p: int| 0 <= p < i ==> (#[trigger] board_times_by_position@[p])@.len() == 0,
                forall|p: int| 0 <= p < i ==> (#[trigger] debark_times_by_position@[p])@.len() == 0,
                forall|p: int| 0 <= p < i ==> #[trigger] latest_board_time_by_position@[p] == 0,
            decreases nb_of_positions - i,
        {
            debark_times_by_position.push(Vec::new());
            board_times_by_position.push(Vec::new());
            latest_board_time_by_position.push(0);
            i = i + 1;
        }
        Self {
            vehicles_data: Vec::new(),
            debark_times_by_position,
            board_times_by_position,
            latest_board_time_by_position,
        }
    }

    pub(crate) fn debark_time_at(&self, vehicle: &Vehicle, position: &Position) -> (result: &Time)
        requires
            self.wf(),
            vehicle.idx < self.nb_vehicles(),
            position.idx < self.nb_positions(),
        ensures
            *result == self.debark_time(vehicle.idx as int, position.idx as int),
    {
        &self.debark_times_by_position[position.idx][vehicle.idx]
    }

    pub(crate) fn board_time_at(&self, vehicle: &Vehicle, position: &Position) -> (result: &Time)
        requires
            self.wf(),
            vehicle.idx < self.nb_vehicles(),
            position.idx < self.nb_positions(),
        ensures
            *result == self.board_time(vehicle.idx as int, position.idx as int),
    {
        &self.board_times_by_position[position.idx][vehicle.idx]
    }

    fn latest_board_time_at(&self, position: &Position) -> (result: &Time)
        requires
            self.wf(),
            position.idx < self.nb_positions(),
        ensures
            *result == self.latest_board_time(position.idx as int),
    {
        &self.latest_board_time_by_position[position.idx]
    }

    pub(crate) fn nb_of_positions(&self) -> (result: usize)
        ensures
            result == self.nb_positions(),
    {
        self.board_times_by_position.len()
    }

    pub(crate) fn nb_of_vehicles(&self) -> (result: usize)
        ensures
            result == self.nb_vehicles(),
    {
        self.vehicles_data.len()
    }

    pub(crate) fn vehicle_data_at(&self, vehicle_idx: usize) -> (result: &VehicleData)
        requires
            vehicle_idx < self.nb_vehicles(),
        ensures
            *result == self.vehicle_data(vehicle_idx as int),
    {
        &self.vehicles_data[vehicle_idx]
    }

    /// The debark times of the vehicle, position by position.
    fn vehicle_debark_times(&self, vehicle_idx: usize) -> (result: Vec<Time>)
        requires
            self.wf(),
            vehicle_idx < self.nb_vehicles(),
        ensures
            result@ == self.debark_times_of(vehicle_idx as int),
    {
        let mut result: Vec<Time> = Vec::new();
        let mut position: usize = 0;
        let n = self.debark_times_by_position.len();
        while position < n
            invariant
                self.wf(),
                vehicle_idx < self.nb_vehicles(),
                n == self.nb_positions(),
                position <= n,
                result@.len() == position,
                forall|p: int| 0 <= p < position ==> result@[p] == self.debark_time(vehicle_idx as int, p),
            decreases n - position,
        {
            result.push(self.debark_times_by_position[position][vehicle_idx]);
            position = position + 1;
        }
        assert(result@ =~= self.debark_times_of(vehicle_idx as int));
        result
    }

    /// The board times of the vehicle, position by position.
    fn vehicle_board_times(&self, vehicle_idx: usize) -> (result: Vec<Time>)
        requires
            self.wf(),
            vehicle_idx < self.nb_vehicles(),
        ensures
            result@ == self.board_times_of(vehicle_idx as int),
    {
        let mut result: Vec<Time> = Vec::new();
        let mut position: usize = 0;
        let n = self.board_times_by_position.len();
        while position < n
            invariant
                self.wf(),
                vehicle_idx < self.nb_vehicles(),
                n == self.nb_positions(),
                position <= n,
                result@.len() == position,
                forall|p: int| 0 <= p < position ==> result@[p] == self.board_time(vehicle_idx as int, p),
            decreases n - position,
        {
            result.push(self.board_times_by_position[position][vehicle_idx]);
            position = position + 1;
        }
        assert(result@ =~= self.board_times_of(vehicle_idx as int));
        result
    }

    /// Whether a vehicle with these times can be inserted while keeping the vehicles
    /// ordered by increasing times.
    pub(crate) fn accept(&self, board_times: &Vec<Time>, debark_times: &Vec<Time>) -> (result: bool)
        requires
            self.wf(),
            board_times.len() == self.nb_positions(),
            debark_times.len() == self.nb_positions(),
        ensures
            result == self.accepts(board_times@, debark_times@),
    {
        let nb_of_vehicles = self.nb_of_vehicles();
        let mut vehicle_idx: usize = 0;
        while vehicle_idx < nb_of_vehicles
            invariant
                self.wf(),
                nb_of_vehicles == self.nb_vehicles(),
                board_times.len() == self.nb_positions(),
                debark_times.len() == self.nb_positions(),
                vehicle_idx <= nb_of_vehicles,
                forall|v: int|
                    0 <= v < vehicle_idx ==> compatible_times(
                        #[trigger] self.board_times_of(v),
                        board_times@,
                        self.debark_times_of(v),
                        debark_times@,
                    ),
            decreases nb_of_vehicles - vehicle_idx,
        {
            let vehicle_debark_times = self.vehicle_debark_times(vehicle_idx);
            let debark_comparison = compare_vehicle_times(&vehicle_debark_times, debark_times);
            if debark_comparison.is_none() {
                assert(!compatible_times(
                    self.board_times_of(vehicle_idx as int),
                    board_times@,
                    self.debark_times_of(vehicle_idx as int),
                    debark_times@,
                ));
                return false;
            }
            let vehicle_board_times = self.vehicle_board_times(vehicle_idx);
            let board_comparison = compare_vehicle_times(&vehicle_board_times, board_times);
            if board_comparison.is_none() {
                assert(!compatible_times(
                    self.board_times_of(vehicle_idx as int),
                    board_times@,
                    self.debark_times_of(vehicle_idx as int),
                    debark_times@,
                ));
                return false;
            }
            let opposite = match (board_comparison, debark_comparison) {
                (Some(Comparison::Greater), Some(Comparison::Less)) => true,
                (Some(Comparison::Less), Some(Comparison::Greater)) => true,
                _ => false,
            };
            if opposite {
                assert(!compatible_times(
                    self.board_times_of(vehicle_idx as int),
                    board_times@,
                    self.debark_times_of(vehicle_idx as int),
                    debark_times@,
                ));
                return false;
            }
            vehicle_idx = vehicle_idx + 1;
        }
        true
    }

    /// The index of the first vehicle that comes not before a vehicle with these times,
    /// or the number of vehicles if there is none.
    fn insertion_index(&self, board_times: &Vec<Time>, debark_times: &Vec<Time>) -> (result: usize)
        requires
            self.wf(),
            board_times.len() == self.nb_positions(),
            debark_times.len() == self.nb_positions(),
        ensures
            result == self.insertion_index_from(board_times@, debark_times@, 0),
            result <= self.nb_vehicles(),
    {
        let nb_of_vehicles = self.nb_of_vehicles();
        let mut vehicle_idx: usize = 0;
        while vehicle_idx < nb_of_vehicles
            invariant
                self.wf(),
                nb_of_vehicles == self.nb_vehicles(),
                board_times.len() == self.nb_positions(),
                debark_times.len() == self.nb_positions(),
                vehicle_idx <= nb_of_vehicles,
                self.insertion_index_from(board_times@, debark_times@, 0)
                    == self.insertion_index_from(board_times@, debark_times@, vehicle_idx as int),
            decreases nb_of_vehicles - vehicle_idx,
        {
            let vehicle_debark_times = self.vehicle_debark_times(vehicle_idx);
            let debark_comparison = compare_vehicle_times(&vehicle_debark_times, debark_times);
            let vehicle_board_times = self.vehicle_board_times(vehicle_idx);
            let board_comparison = compare_vehicle_times(&vehicle_board_times, board_times);
            proof {
                lemma_compare_not_less(vehicle_debark_times@, debark_times@);
                lemma_compare_not_less(vehicle_board_times@, board_times@);
            }
            let found = match (board_comparison, debark_comparison) {
                (Some(Comparison::Greater), Some(Comparison::Greater))
                | (Some(Comparison::Equal), Some(Comparison::Greater))
                | (Some(Comparison::Greater), Some(Comparison::Equal))
                | (Some(Comparison::Equal), Some(Comparison::Equal)) => true,
                _ => false,
            };
            if found {
                return vehicle_idx;
            }
            vehicle_idx = vehicle_idx + 1;
        }
        nb_of_vehicles
    }

    /// Around the insertion index of an accepted vehicle, the vehicles before it are not later,
    /// and those from it on are not earlier, than the new vehicle.
    proof fn lemma_insertion_index(&self, board: Seq<Time>, debark: Seq<Time>, from: int)
        requires
            self.wf(),
            board.len() == self.nb_positions(),
            debark.len() == self.nb_positions(),
            self.accepts(board, debark),
            0 <= from <= self.nb_vehicles(),
            forall|v: int|
                0 <= v < from ==> !not_before(
                    #[trigger] self.board_times_of(v),
                    board,
                    self.debark_times_of(v),
                    debark,
                ),
        ensures
            ({
                let idx = self.insertion_index_from(board, debark, from);
                &&& from <= idx <= self.nb_vehicles()
                &&& forall|v: int|
                    0 <= v < idx ==> all_le(#[trigger] self.board_times_of(v), board) && all_le(
                        self.debark_times_of(v),
                        debark,
                    )
                &&& forall|v: int|
                    idx <= v < self.nb_vehicles() ==> all_le(board, #[trigger] self.board_times_of(v))
                        && all_le(debark, self.debark_times_of(v))
            }),
        decreases self.nb_vehicles() - from,
    {
        let idx = self.insertion_index_from(board, debark, from);
        if from < self.nb_vehicles() && !not_before(
            self.board_times_of(from),
            board,
            self.debark_times_of(from),
            debark,
        ) {
            self.lemma_insertion_index(board, debark, from + 1);
        }
        assert forall|v: int| 0 <= v < idx implies all_le(#[trigger] self.board_times_of(v), board)
            && all_le(self.debark_times_of(v), debark) by {
            lemma_compare_not_less(self.board_times_of(v), board);
            lemma_compare_not_less(self.debark_times_of(v), debark);
            assert(compatible_times(
                self.board_times_of(v),
                board,
                self.debark_times_of(v),
                debark,
            ));
        }
        assert forall|v: int| idx <= v < self.nb_vehicles() implies all_le(
            board,
            #[trigger] self.board_times_of(v),
        ) && all_le(debark, self.debark_times_of(v)) by {
            assert forall|p: int| 0 <= p < self.nb_positions() implies board[p]
                <= self.board_times_of(v)[p] && debark[p] <= self.debark_times_of(v)[p] by {
                self.lemma_vehicles_ordered(idx, v, p);
                assert(board[p] <= self.board_times_of(idx)[p]);
                assert(debark[p] <= self.debark_times_of(idx)[p]);
            }
        }
    }

    /// Inserts a vehicle that the timetable accepts, keeping vehicles ordered by increasing times:
    /// it goes before the first vehicle that comes not before it.
    pub(crate) fn insert(&mut self, board_times: Vec<Time>, debark_times: Vec<Time>, vehicle_data: VehicleData)
        requires
            old(self).wf(),
            board_times.len() == old(self).nb_positions(),
            debark_times.len() == old(self).nb_positions(),
            old(self).accepts(board_times@, debark_times@),
        ensures
            final(self).is_insertion_of(*old(self), board_times@, debark_times@, vehicle_data),
    {
        let insert_idx = self.insertion_index(&board_times, &debark_times);
        proof {
            self.lemma_insertion_index(board_times@, debark_times@, 0);
        }
        let ghost old_self = *self;
        let nb_of_positions = self.nb_of_positions();
        let mut position: usize = 0;
        while position < nb_of_positions
            invariant
                old_self.wf(),
                nb_of_positions == old_self.nb_positions(),
                insert_idx == old_self.insertion_index_from(board_times@, debark_times@, 0),
                0 <= insert_idx <= old_self.nb_vehicles(),
                board_times.len() == nb_of_positions,
                debark_times.len() == nb_of_positions,
                position <= nb_of_positions,
                self.vehicles_data == old_self.vehicles_data,
                self.board_times_by_position@.len() == nb_of_positions,
                self.debark_times_by_position@.len() == nb_of_positions,
                self.latest_board_time_by_position@.len() == nb_of_positions,
                forall|p: int|
                    0 <= p < position ==> (#[trigger] self.board_times_by_position@[p])@
                        == old_self.board_times_by_position@[p]@.insert(
                        insert_idx as int,
                        board_times@[p],
                    ),
                forall|p: int|
                    0 <= p < position ==> (#[trigger] self.debark_times_by_position@[p])@
                        == old_self.debark_times_by_position@[p]@.insert(
                        insert_idx as int,
                        debark_times@[p],
                    ),
                forall|p: int|
                    0 <= p < position ==> #[trigger] self.latest_board_time_by_position@[p] == if board_times@[p]
                        > old_self.latest_board_time_by_position@[p] {
                        board_times@[p]
                    } else {
                        old_self.latest_board_time_by_position@[p]
                    },
                forall|p: int|
                    position <= p < nb_of_positions ==> (#[trigger] self.board_times_by_position@[p])
                        == old_self.board_times_by_position@[p],
                forall|p: int|
                    position <= p < nb_of_positions ==> (#[trigger] self.debark_times_by_position@[p])
                        == old_self.debark_times_by_position@[p],
                forall|p: int|
                    position <= p < nb_of_positions ==> #[trigger] self.latest_board_time_by_position@[p]
                        == old_self.latest_board_time_by_position@[p],
            decreases nb_of_positions - position,
        {
            proof {
                assert(old_self.board_times_by_position@[position as int]@.len() == old_self.nb_vehicles());
                assert(old_self.debark_times_by_position@[position as int]@.len() == old_self.nb_vehicles());
            }
            let board_time = board_times[position];
            let debark_time = debark_times[position];
            self.board_times_by_position[position].insert(insert_idx, board_time);
            self.debark_times_by_position[position].insert(insert_idx, debark_time);
            let latest_board_time = self.latest_board_time_by_position[position];
            if board_time > latest_board_time {
                self.latest_board_time_by_position.set(position, board_time);
            }
            position = position + 1;
        }
        self.vehicles_data.insert(insert_idx, vehicle_data);
        proof {
            let idx = insert_idx as int;
            let nv = old_self.nb_vehicles();
            assert forall|p: int| 0 <= p < nb_of_positions implies is_sorted(
                #[trigger] self.board_times_by_position@[p]@,
            ) && is_sorted(self.debark_times_by_position@[p]@) by {
                let old_board = old_self.board_times_by_position@[p]@;
                let old_debark = old_self.debark_times_by_position@[p]@;
                assert(is_sorted(old_board));
                assert(is_sorted(old_debark));
                assert forall|v: int| 0 <= v < idx implies old_board[v] <= board_times@[p] by {
                    assert(all_le(old_self.board_times_of(v), board_times@));
                    assert(old_self.board_times_of(v)[p] == old_board[v]);
                }
                assert forall|v: int| 0 <= v < idx implies old_debark[v] <= debark_times@[p] by {
                    assert(all_le(old_self.board_times_of(v), board_times@));
                    assert(all_le(old_self.debark_times_of(v), debark_times@));
                    assert(old_self.debark_times_of(v)[p] == old_debark[v]);
                }
                assert forall|v: int| idx <= v < nv implies board_times@[p] <= old_board[v] by {
                    assert(all_le(board_times@, old_self.board_times_of(v)));
                    assert(old_self.board_times_of(v)[p] == old_board[v]);
                }
                assert forall|v: int| idx <= v < nv implies debark_times@[p] <= old_debark[v] by {
                    assert(all_le(board_times@, old_self.board_times_of(v)));
                    assert(all_le(debark_times@, old_self.debark_times_of(v)));
                    assert(old_self.debark_times_of(v)[p] == old_debark[v]);
                }
                lemma_insert_keeps_sorted(old_board, idx, board_times@[p]);
                lemma_insert_keeps_sorted(old_debark, idx, debark_times@[p]);
            }
            assert forall|p: int| 0 <= p < nb_of_positions implies #[trigger] self.latest_board_time(p)
                == if self.nb_vehicles() == 0 {
                0
            } else {
                self.board_time(self.nb_vehicles() - 1, p)
            } by {
                assert(old_self.latest_board_time(p) == if nv == 0 {
                    0
                } else {
                    old_self.board_time(nv - 1, p)
                });
                if idx < nv {
                    assert(all_le(board_times@, old_self.board_times_of(nv - 1)));
                    assert(old_self.board_times_of(nv - 1)[p] == old_self.board_time(nv - 1, p));
                } else if nv > 0 {
                    assert(all_le(old_self.board_times_of(nv - 1), board_times@));
                    assert(old_self.board_times_of(nv - 1)[p] == old_self.board_time(nv - 1, p));
                }
            }
            assert forall|p: int| 0 <= p < nb_of_positions implies (#[trigger] self.board_times_by_position@[p])@.len() == self.nb_vehicles() by {
                assert(old_self.board_times_by_position@[p]@.len() == nv);
            }
            assert forall|p: int| 0 <= p < nb_of_positions implies (#[trigger] self.debark_times_by_position@[p])@.len() == self.nb_vehicles() by {
                assert(old_self.debark_times_by_position@[p]@.len() == nv);
            }
            assert(self.nb_positions() >= 2);
            assert(self.debark_times_by_position@.len() == self.nb_positions());
            assert(self.latest_board_time_by_position@.len() == self.nb_positions());
            assert(forall|p: int| 0 <= p < self.nb_positions() ==> is_sorted(#[trigger] self.board_times_by_position@[p]@));
            assert forall|p: int| 0 <= p < self.nb_positions() implies is_sorted(#[trigger] self.debark_times_by_position@[p]@) by {
                assert(is_sorted(self.board_times_by_position@[p]@));
            }
            assert(self.wf());
            assert(self.board_times_of(idx) =~= board_times@);
            assert(self.debark_times_of(idx) =~= debark_times@);
            assert forall|v: int| 0 <= v < idx implies #[trigger] self.board_times_of(v)
                == old_self.board_times_of(v) && self.debark_times_of(v) == old_self.debark_times_of(v) by {
                assert(self.board_times_of(v) =~= old_self.board_times_of(v));
                assert(self.debark_times_of(v) =~= old_self.debark_times_of(v));
            }
            assert forall|v: int| idx < v < self.nb_vehicles() implies #[trigger] self.board_times_of(v)
                == old_self.board_times_of(v - 1) && self.debark_times_of(v) == old_self.debark_times_of(v - 1) by {
                assert(self.board_times_of(v) =~= old_self.board_times_of(v - 1));
                assert(self.debark_times_of(v) =~= old_self.debark_times_of(v - 1));
            }
            assert(self.vehicles_data@ == old_self.vehicles_data@.insert(idx, vehicle_data));
            assert forall|v: int| 0 <= v < idx implies (#[trigger] self.vehicle_data(v)) == old_self.vehicle_data(v) by {}
            assert forall|v: int| idx < v < self.nb_vehicles() implies (#[trigger] self.vehicle_data(v)) == old_self.vehicle_data(v - 1) by {}
            assert(self.nb_vehicles() == old_self.nb_vehicles() + 1);
            assert(self.vehicle_data(idx) == vehicle_data);
            assert(self.nb_positions() == old_self.nb_positions());
            assert(self.board_times_of(idx) == board_times@);
            assert(idx == old_self.insertion_index_from(board_times@, debark_times@, 0));
            assert(forall|v: int| 0 <= v < idx ==> (#[trigger] self.board_times_of(v)) == old_self.board_times_of(v));
            assert(forall|v: int| 0 <= v < idx ==> (#[trigger] self.debark_times_of(v)) == old_self.debark_times_of(v));
            assert(forall|v: int| idx < v < self.nb_vehicles() ==> (#[trigger] self.board_times_of(v)) == old_self.board_times_of(v - 1));
            assert(forall|v: int| idx < v < self.nb_vehicles() ==> (#[trigger] self.debark_times_of(v)) == old_self.debark_times_of(v - 1));
            assert(self.is_insertion_of(old_self, board_times@, debark_times@, vehicle_data));
        }
    }

    /// If we are waiting to board a vehicle at `position` at time `waiting_time`,
    /// returns `Some(best_vehicle)` where `best_vehicle` is the vehicle, among those on which
    /// `filter` returns true, to board that allows to debark at the subsequent positions
    /// at the earliest time: the first one, in the order of the timetable, that one can board
    /// no earlier than `waiting_time`.
    fn best_filtered_vehicle_to_board_at<Filter>(
        &self,
        waiting_time: &Time,
        position: &Position,
        filter: Filter,
    ) -> (result: Option<Vehicle>) where Filter: Fn(&VehicleData) -> bool
        requires
            self.wf(),
            position.idx < self.nb_positions(),
            forall|data: &VehicleData| #[trigger] filter.requires((data,)),
        ensures
            is_first_filtered_vehicle(*self, *waiting_time, position.idx as int, filter, result),
            // no vehicle that one can board then, and that the filter cannot reject,
            // debarks anywhere earlier than the returned one
            result matches Some(vehicle) ==> forall|v: int, p: int|
                0 <= v < self.nb_vehicles() && 0 <= p < self.nb_positions() && *waiting_time
                    <= self.board_time(v, position.idx as int) && !call_ensures(
                    filter,
                    (&self.vehicle_data(v),),
                    false,
                ) ==> #[trigger] self.debark_time(vehicle.idx as int, p) <= #[trigger] self.debark_time(v, p),
    {
        let nb_of_vehicles = self.vehicles_data.len();
        let mut idx: usize = 0;
        proof {
            assert(self.board_times_by_position@[position.idx as int]@.len() == self.nb_vehicles());
        }
        while idx < nb_of_vehicles
            invariant
                self.wf(),
                position.idx < self.nb_positions(),
                nb_of_vehicles == self.nb_vehicles(),
                self.board_times_by_position@[position.idx as int]@.len() == nb_of_vehicles,
                forall|data: &VehicleData| #[trigger] filter.requires((data,)),
                idx <= nb_of_vehicles,
                forall|v: int|
                    0 <= v < idx ==> self.board_time(v, position.idx as int) < *waiting_time
                        || filter.ensures((&#[trigger] self.vehicle_data(v),), false),
            decreases nb_of_vehicles - idx,
        {
            let accepted = filter(&self.vehicles_data[idx]);
            if accepted {
                let board_time = self.board_times_by_position[position.idx][idx];
                if *waiting_time <= board_time {
                    proof {
                        assert forall|v: int, p: int|
                            0 <= v < self.nb_vehicles() && 0 <= p < self.nb_positions() && *waiting_time
                                <= self.board_time(v, position.idx as int) && !call_ensures(
                                filter,
                                (&self.vehicle_data(v),),
                                false,
                            ) implies #[trigger] self.debark_time(idx as int, p) <= #[trigger] self.debark_time(v, p) by {
                            if v < idx {
                                assert(self.board_time(v, position.idx as int) < *waiting_time
                                    || call_ensures(filter, (&self.vehicle_data(v),), false));
                            } else {
                                self.lemma_vehicles_ordered(idx as int, v, p);
                            }
                        }
                    }
                    return Some(Vehicle { idx });
                }
            }
            idx = idx + 1;
        }
        None
    }
}


/// `result` is the first vehicle of `timetable`, in its order, that one can board at `position`
/// no earlier than `waiting_time` and that `filter` accepts; `None` when every vehicle is either
/// boarded earlier or rejected by `filter`.
pub open spec fn is_first_filtered_vehicle<VehicleData, Filter: Fn(&VehicleData) -> bool>(
    timetable: TimetableData<VehicleData>,
    waiting_time: Time,
    position: int,
    filter: Filter,
    result: Option<Vehicle>,
) -> bool {
    match result {
        Some(vehicle) => {
            &&& vehicle.idx < timetable.nb_vehicles()
            &&& waiting_time <= timetable.board_time(vehicle.idx as int, position)
            &&& call_ensures(filter, (&timetable.vehicle_data(vehicle.idx as int),), true)
            &&& forall|v: int|
                0 <= v < vehicle.idx ==> timetable.board_time(v, position) < waiting_time
                    || call_ensures(filter, (&#[trigger] timetable.vehicle_data(v),), false)
        },
        None => forall|v: int|
            0 <= v < timetable.nb_vehicles() ==> timetable.board_time(v, position) < waiting_time
                || call_ensures(filter, (&#[trigger] timetable.vehicle_data(v),), false),
    }
}

/// A pair of positions at which the times of a vehicle are incoherent.
#[derive(Debug, Clone, Copy, PartialEq, Eq, Structural)]
pub struct PositionPair {
    pub upstream: usize,
    pub downstream: usize,
}

/// Why the times of a vehicle cannot be inserted in a stop pattern.
#[derive(Debug, Clone, Copy, PartialEq, Eq, Structural)]
pub enum VehicleTimesError {
    /// board_time[upstream] > debark_time[downstream]
    DebarkBeforeUpstreamBoard(PositionPair),
    /// board_time[upstream] > board_time[downstream]
    DecreasingBoardTime(PositionPair),
    /// debark_time[upstream] > debark_time[downstream]
    DecreasingDebarkTime(PositionPair),
}

/// The board times of the first `n` positions at which one can board, each with its position.
pub open spec fn enumerated_board_times(
    board_debark_times: Seq<(Time, Time)>,
    flows: Seq<FlowDirection>,
    n: int,
) -> Seq<(usize, Time)>
    decreases n,
{
    if n <= 0 {
        Seq::empty()
    } else {
        let previous = enumerated_board_times(board_debark_times, flows, n - 1);
        if flow_allows_board(flows[n - 1]) {
            previous.push(((n - 1) as usize, board_debark_times[n - 1].0))
        } else {
            previous
        }
    }
}

/// The debark times of the first `n` positions at which one can debark, each with its position.
pub open spec fn enumerated_debark_times(
    board_debark_times: Seq<(Time, Time)>,
    flows: Seq<FlowDirection>,
    n: int,
) -> Seq<(usize, Time)>
    decreases n,
{
    if n <= 0 {
        Seq::empty()
    } else {
        let previous = enumerated_debark_times(board_debark_times, flows, n - 1);
        if flow_allows_debark(flows[n - 1]) {
            previous.push(((n - 1) as usize, board_debark_times[n - 1].1))
        } else {
            previous
        }
    }
}

/// The enumerated board and debark times only grow with the number of positions looked at.
proof fn lemma_enumerated_times_grow(
    board_debark_times: Seq<(Time, Time)>,
    flows: Seq<FlowDirection>,
    m: int,
    n: int,
)
    requires
        0 <= m <= n,
    ensures
        enumerated_board_times(board_debark_times, flows, m).len() <= enumerated_board_times(
            board_debark_times,
            flows,
            n,
        ).len(),
        enumerated_debark_times(board_debark_times, flows, m).len() <= enumerated_debark_times(
            board_debark_times,
            flows,
            n,
        ).len(),
    decreases n - m,
{
    if m < n {
        lemma_enumerated_times_grow(board_debark_times, flows, m, n - 1);
    }
}

/// At `position` one can board, at the next position one can debark, and the debark time
/// there is earlier than the board time at `position`.
pub open spec fn debark_before_board_at(
    board_debark_times: Seq<(Time, Time)>,
    flows: Seq<FlowDirection>,
    position: int,
) -> bool {
    &&& flow_allows_board(flows[position])
    &&& flow_allows_debark(flows[position + 1])
    &&& board_debark_times[position].0 > board_debark_times[position + 1].1
}

/// The first position, from `from` on, at which `debark_before_board_at` holds.
pub open spec fn first_debark_before_board_from(
    board_debark_times: Seq<(Time, Time)>,
    flows: Seq<FlowDirection>,
    from: int,
) -> Option<int>
    decreases board_debark_times.len() - from,
{
    if from < 0 || from + 1 >= board_debark_times.len() {
        None
    } else if debark_before_board_at(board_debark_times, flows, from) {
        Some(from)
    } else {
        first_debark_before_board_from(board_debark_times, flows, from + 1)
    }
}

/// The first incoherence found in the times of a vehicle: board times that decrease,
/// then debark times that decrease, then a debark before the board at the previous position.
pub open spec fn vehicle_times_error(
    board_debark_times: Seq<(Time, Time)>,
    flows: Seq<FlowDirection>,
) -> Option<VehicleTimesError> {
    let n = board_debark_times.len() as int;
    match first_decreasing_pair(enumerated_board_times(board_debark_times, flows, n)) {
        Some(pair) => Some(
            VehicleTimesError::DecreasingBoardTime(
                PositionPair { upstream: pair.0, downstream: pair.1 },
            ),
        ),
        None => match first_decreasing_pair(
            enumerated_debark_times(board_debark_times, flows, n),
        ) {
            Some(pair) => Some(
                VehicleTimesError::DecreasingDebarkTime(
                    PositionPair { upstream: pair.0, downstream: pair.1 },
                ),
            ),
            None => match first_debark_before_board_from(board_debark_times, flows, 0) {
                Some(position) => Some(
                    VehicleTimesError::DebarkBeforeUpstreamBoard(
                        PositionPair {
                            upstream: position as usize,
                            downstream: (position + 1) as usize,
                        },
                    ),
                ),
                None => None,
            },
        },
    }
}

/// The times stored for a vehicle: where one can only board, the debark time is the board
/// time, and where one can only debark, the board time is the debark time.
pub open spec fn corrected_time(times: (Time, Time), flow: FlowDirection) -> (Time, Time) {
    match flow {
        FlowDirection::BoardAndDebark => times,
        FlowDirection::BoardOnly => (times.0, times.0),
        FlowDirection::DebarkOnly => (times.1, times.1),
    }
}

/// The corrected board times of a vehicle, position by position.
pub open spec fn corrected_board_times(
    board_debark_times: Seq<(Time, Time)>,
    flows: Seq<FlowDirection>,
) -> Seq<Time> {
    Seq::new(
        board_debark_times.len(),
        |i: int| corrected_time(board_debark_times[i], flows[i]).0,
    )
}

/// The corrected debark times of a vehicle, position by position.
pub open spec fn corrected_debark_times(
    board_debark_times: Seq<(Time, Time)>,
    flows: Seq<FlowDirection>,
) -> Seq<Time> {
    Seq::new(
        board_debark_times.len(),
        |i: int| corrected_time(board_debark_times[i], flows[i]).1,
    )
}

/// The index of the first timetable, from `from` on, that accepts a vehicle with these times.
pub open spec fn first_accepting_timetable_from<VehicleData>(
    timetables: Seq<TimetableData<VehicleData>>,
    board: Seq<Time>,
    debark: Seq<Time>,
    from: int,
) -> Option<int>
    decreases timetables.len() - from,
{
    if from < 0 || from >= timetables.len() {
        None
    } else if timetables[from].accepts(board, debark) {
        Some(from)
    } else {
        first_accepting_timetable_from(timetables, board, debark, from + 1)
    }
}

/// The vehicles running along a sequence of stops, grouped in timetables.
pub struct StopPatternData<VehicleData> {
    pub stops: Vec<Stop>,
    pub flow_directions: Vec<FlowDirection>,
    pub timetables: Vec<TimetableData<VehicleData>>,
}

/// An iterator over the timetables of a stop pattern, handed out as a vector.
pub type TimetablesIter = Vec<Timetable>;

/// An iterator over the vehicles of a timetable, handed out as a vector.
pub type VehiclesIter = Vec<Vehicle>;

impl<VehicleData> StopPatternData<VehicleData> {
    /// A stop pattern has at least two stops, one flow direction per stop, one can only board
    /// at its first stop and only debark at its last one, and its timetables are well formed
    /// with one position per stop.
    pub open spec fn wf(&self) -> bool {
        &&& self.stops@.len() >= 2
        &&& self.flow_directions@.len() == self.stops@.len()
        &&& self.flow_directions@[0] == FlowDirection::BoardOnly
        &&& self.flow_directions@.last() == FlowDirection::DebarkOnly
        &&& forall|t: int|
            0 <= t < self.timetables@.len() ==> (#[trigger] self.timetables@[t]).wf()
                && self.timetables@[t].nb_positions() == self.stops@.len()
    }

    /// In every timetable of a well-formed stop pattern (as `new` and `insert` keep it, whatever
    /// `insert` answers), vehicles are ordered by increasing times: a vehicle never boards nor
    /// debarks later than a vehicle that comes after it, at any position.
    pub proof fn lemma_timetables_ordered(&self, timetable: int, v1: int, v2: int, position: int)
        requires
            self.wf(),
            0 <= timetable < self.timetables@.len(),
            0 <= v1 <= v2 < self.timetables@[timetable].nb_vehicles(),
            0 <= position < self.stops@.len(),
        ensures
            self.timetables@[timetable].board_time(v1, position) <= self.timetables@[timetable].board_time(v2, position),
            self.timetables@[timetable].debark_time(v1, position) <= self.timetables@[timetable].debark_time(v2, position),
    {
        self.timetables@[timetable].lemma_vehicles_ordered(v1, v2, position);
    }

    pub fn new(stops: Vec<Stop>, flow_directions: Vec<FlowDirection>) -> (result: Self)
        requires
            stops.len() >= 2,
            flow_directions.len() == stops.len(),
            flow_directions@[0] == FlowDirection::BoardOnly,
            flow_directions@.last() == FlowDirection::DebarkOnly,
        ensures
            result.wf(),
            result.stops == stops,
            result.flow_directions == flow_directions,
            result.timetables@.len() == 0,
    {
        Self { stops, flow_directions, timetables: Vec::new() }
    }

    /// Each stop of the pattern, with its position.
    pub fn stops_and_positions(&self) -> (result: Vec<(Stop, Position)>)
        ensures
            result@.len() == self.stops@.len(),
            forall|i: int|
                0 <= i < result@.len() ==> #[trigger] result@[i] == (
                    self.stops@[i],
                    Position { idx: i as usize },
                ),
    {
        let mut result: Vec<(Stop, Position)> = Vec::new();
        let mut idx: usize = 0;
        while idx < self.stops.len()
            invariant
                idx <= self.stops@.len(),
                result@.len() == idx,
                forall|i: int|
                    0 <= i < idx ==> #[trigger] result@[i] == (
                        self.stops@[i],
                        Position { idx: i as usize },
                    ),
            decreases self.stops@.len() - idx,
        {
            result.push((self.stops[idx], Position { idx }));
            idx = idx + 1;
        }
        result
    }

    pub fn is_valid(&self, position: &Position) -> (result: bool)
        ensures
            result == (position.idx < self.stops@.len()),
    {
        position.idx < self.nb_of_positions()
    }

    pub fn next_position(&self, position: &Position) -> (result: Option<Position>)
        requires
            self.wf(),
        ensures
            result == if position.idx + 1 < self.stops@.len() {
                Some(Position { idx: (position.idx + 1) as usize })
            } else {
                None::<Position>
            },
    {
        if position.idx < self.nb_of_positions() - 1 {
            Some(Position { idx: position.idx + 1 })
        } else {
            None
        }
    }

    pub fn stop_at(&self, position: &Position) -> (result: &Stop)
        requires
            position.idx < self.stops@.len(),
        ensures
            *result == self.stops@[position.idx as int],
    {
        &self.stops[position.idx]
    }

    pub fn is_last_position(&self, position: &Position) -> (result: bool)
        requires
            self.wf(),
        ensures
            result == (position.idx == self.stops@.len() - 1),
    {
        position.idx == self.stops.len() - 1
    }

    pub fn can_debark(&self, position: &Position) -> (result: bool)
        requires
            position.idx < self.flow_directions@.len(),
        ensures
            result == flow_allows_debark(self.flow_directions@[position.idx as int]),
    {
        match self.flow_directions[position.idx] {
            FlowDirection::BoardAndDebark | FlowDirection::DebarkOnly => true,
            FlowDirection::BoardOnly => false,
        }
    }

    pub fn can_board(&self, position: &Position) -> (result: bool)
        requires
            position.idx < self.flow_directions@.len(),
        ensures
            result == flow_allows_board(self.flow_directions@[position.idx as int]),
    {
        match self.flow_directions[position.idx] {
            FlowDirection::BoardAndDebark | FlowDirection::BoardOnly => true,
            FlowDirection::DebarkOnly => false,
        }
    }

    fn timetable_data(&self, timetable: &Timetable) -> (result: &TimetableData<VehicleData>)
        requires
            timetable.idx < self.timetables@.len(),
        ensures
            *result == self.timetables@[timetable.idx as int],
    {
        &self.timetables[timetable.idx]
    }

    pub fn timetables(&self) -> (result: TimetablesIter)
        ensures
            result@.len() == self.timetables@.len(),
            forall|i: int| 0 <= i < result@.len() ==> #[trigger] result@[i] == (Timetable { idx: i as usize }),
    {
        let mut result: Vec<Timetable> = Vec::new();
        let mut idx: usize = 0;
        while idx < self.timetables.len()
            invariant
                idx <= self.timetables@.len(),
                result@.len() == idx,
                forall|i: int| 0 <= i < idx ==> #[trigger] result@[i] == (Timetable { idx: i as usize }),
            decreases self.timetables@.len() - idx,
        {
            result.push(Timetable { idx });
            idx = idx + 1;
        }
        result
    }

    pub fn nb_of_timetables(&self) -> (result: usize)
        ensures
            result == self.timetables@.len(),
    {
        self.timetables.len()
    }

    pub fn vehicles(&self, timetable: &Timetable) -> (result: VehiclesIter)
        requires
            timetable.idx < self.timetables@.len(),
        ensures
            result@.len() == self.timetables@[timetable.idx as int].nb_vehicles(),
            forall|i: int| 0 <= i < result@.len() ==> #[trigger] result@[i] == (Vehicle { idx: i as usize }),
    {
        let timetable_data = self.timetable_data(timetable);
        let nb_of_vehicles = timetable_data.nb_of_vehicles();
        let mut result: Vec<Vehicle> = Vec::new();
        let mut idx: usize = 0;
        while idx < nb_of_vehicles
            invariant
                idx <= nb_of_vehicles,
                result@.len() == idx,
                forall|i: int| 0 <= i < idx ==> #[trigger] result@[i] == (Vehicle { idx: i as usize }),
            decreases nb_of_vehicles - idx,
        {
            result.push(Vehicle { idx });
            idx = idx + 1;
        }
        result
    }

    /// A valid vehicle of a valid timetable, at a valid position.
    pub open spec fn is_valid_vehicle_at(&self, timetable: Timetable, vehicle: Vehicle, position: Position) -> bool {
        &&& timetable.idx < self.timetables@.len()
        &&& vehicle.idx < self.timetables@[timetable.idx as int].nb_vehicles()
        &&& position.idx < self.stops@.len()
    }

    pub fn debark_time_at(&self, timetable: &Timetable, vehicle: &Vehicle, position: &Position) -> (result: Option<&Time>)
        requires
            self.wf(),
            position.idx < self.stops@.len(),
            flow_allows_debark(self.flow_directions@[position.idx as int]) ==> self.is_valid_vehicle_at(*timetable, *vehicle, *position),
        ensures
            result == if flow_allows_debark(self.flow_directions@[position.idx as int]) {
                Some(&self.timetables@[timetable.idx as int].debark_time(vehicle.idx as int, position.idx as int))
            } else {
                None::<&Time>
            },
    {
        if self.can_debark(position) {
            let timetable_data = self.timetable_data(timetable);
            let time = timetable_data.debark_time_at(vehicle, position);
            Some(time)
        } else {
            None
        }
    }

    pub fn arrival_time_at(&self, timetable: &Timetable, vehicle: &Vehicle, position: &Position) -> (result: &Time)
        requires
            self.wf(),
            self.is_valid_vehicle_at(*timetable, *vehicle, *position),
        ensures
            *result == self.timetables@[timetable.idx as int].debark_time(vehicle.idx as int, position.idx as int),
    {
        let timetable_data = self.timetable_data(timetable);
        timetable_data.debark_time_at(vehicle, position)
    }

    pub fn board_time_at(&self, timetable: &Timetable, vehicle: &Vehicle, position: &Position) -> (result: Option<&Time>)
        requires
            self.wf(),
            position.idx < self.stops@.len(),
            flow_allows_board(self.flow_directions@[position.idx as int]) ==> self.is_valid_vehicle_at(*timetable, *vehicle, *position),
        ensures
            result == if flow_allows_board(self.flow_directions@[position.idx as int]) {
                Some(&self.timetables@[timetable.idx as int].board_time(vehicle.idx as int, position.idx as int))
            } else {
                None::<&Time>
            },
    {
        if self.can_board(position) {
            let timetable_data = self.timetable_data(timetable);
            let time = timetable_data.board_time_at(vehicle, position);
            Some(time)
        } else {
            None
        }
    }

    pub fn latest_board_time_at(&self, timetable: &Timetable, position: &Position) -> (result: Option<&Time>)
        requires
            self.wf(),
            position.idx < self.stops@.len(),
            flow_allows_board(self.flow_directions@[position.idx as int]) ==> timetable.idx < self.timetables@.len(),
        ensures
            result == if flow_allows_board(self.flow_directions@[position.idx as int]) {
                Some(&self.timetables@[timetable.idx as int].latest_board_time(position.idx as int))
            } else {
                None::<&Time>
            },
            result matches Some(time) ==> ({
                let timetable_data = self.timetables@[timetable.idx as int];
                &&& *time == (if timetable_data.nb_vehicles() == 0 {
                    0
                } else {
                    timetable_data.board_time(timetable_data.nb_vehicles() - 1, position.idx as int)
                })
                &&& forall|v: int| 0 <= v < timetable_data.nb_vehicles()
                    ==> #[trigger] timetable_data.board_time(v, position.idx as int) <= *time
            }),
    {
        if self.can_board(position) {
            proof {
                self.timetables@[timetable.idx as int].lemma_latest_board_time(position.idx as int);
            }
            let timetable_data = self.timetable_data(timetable);
            let time = timetable_data.latest_board_time_at(position);
            Some(time)
        } else {
            None
        }
    }

    /// If we are waiting to board a vehicle at `position` at time `waiting_time`,
    /// returns the vehicle, among those on which `filter` returns true, to board that allows
    /// to debark at the subsequent positions at the earliest time.
    pub fn earliest_filtered_vehicle_to_board_at<Filter>(
        &self,
        waiting_time: &Time,
        timetable: &Timetable,
        position: &Position,
        filter: Filter,
    ) -> (result: Option<Vehicle>) where Filter: Fn(&VehicleData) -> bool
        requires
            self.wf(),
            position.idx < self.stops@.len(),
            flow_allows_board(self.flow_directions@[position.idx as int]) ==> timetable.idx
                < self.timetables@.len(),
            forall|data: &VehicleData| #[trigger] filter.requires((data,)),
        ensures
            !flow_allows_board(self.flow_directions@[position.idx as int]) ==> result is None,
            flow_allows_board(self.flow_directions@[position.idx as int]) ==> is_first_filtered_vehicle(
                self.timetables@[timetable.idx as int],
                *waiting_time,
                position.idx as int,
                filter,
                result,
            ),
            result matches Some(vehicle) ==> forall|v: int, p: int|
                0 <= v < self.timetables@[timetable.idx as int].nb_vehicles() && 0 <= p
                    < self.stops@.len() && *waiting_time <= self.timetables@[timetable.idx as int].board_time(
                    v,
                    position.idx as int,
                ) && !call_ensures(
                    filter,
                    (&self.timetables@[timetable.idx as int].vehicle_data(v),),
                    false,
                ) ==> #[trigger] self.timetables@[timetable.idx as int].debark_time(vehicle.idx as int, p)
                    <= #[trigger] self.timetables@[timetable.idx as int].debark_time(v, p),
    {
        if !self.can_board(position) {
            return None;
        }
        let timetable_data = self.timetable_data(timetable);
        timetable_data.best_filtered_vehicle_to_board_at(waiting_time, position, filter)
    }

    /// Inserts the vehicle in the first timetable that accepts it, or in a new timetable,
    /// if the given debark and board times are coherent.
    /// Returns a VehicleTimesError otherwise.
    pub fn insert(&mut self, board_debark_times: Vec<(Time, Time)>, vehicle_data: VehicleData) -> (result: Result<(), VehicleTimesError>)
        requires
            old(self).wf(),
            board_debark_times.len() == old(self).stops@.len(),
        ensures
            match vehicle_times_error(board_debark_times@, old(self).flow_directions@) {
                Some(error) => result == Err::<(), VehicleTimesError>(error) && *final(self) == *old(self),
                None => result == Ok::<(), VehicleTimesError>(()) && final(self).inserted(
                    *old(self),
                    corrected_board_times(board_debark_times@, old(self).flow_directions@),
                    corrected_debark_times(board_debark_times@, old(self).flow_directions@),
                    vehicle_data,
                ),
            },
    {
        let nb_of_positions = self.nb_of_positions();
        let ghost times = board_debark_times@;
        let ghost flows = self.flow_directions@;

        let mut valid_enumerated_board_times: Vec<(usize, Time)> = Vec::new();
        let mut valid_enumerated_debark_times: Vec<(usize, Time)> = Vec::new();
        let mut position: usize = 0;
        while position < nb_of_positions
            invariant
                self.wf(),
                nb_of_positions == self.stops@.len(),
                times == board_debark_times@,
                flows == self.flow_directions@,
                times.len() == nb_of_positions,
                position <= nb_of_positions,
                valid_enumerated_board_times@ == enumerated_board_times(times, flows, position as int),
                valid_enumerated_debark_times@ == enumerated_debark_times(times, flows, position as int),
            decreases nb_of_positions - position,
        {
            let (board_time, debark_time) = board_debark_times[position];
            match self.flow_directions[position] {
                FlowDirection::BoardOnly => {
                    valid_enumerated_board_times.push((position, board_time));
                },
                FlowDirection::DebarkOnly => {
                    valid_enumerated_debark_times.push((position, debark_time));
                },
                FlowDirection::BoardAndDebark => {
                    valid_enumerated_board_times.push((position, board_time));
                    valid_enumerated_debark_times.push((position, debark_time));
                },
            }
            position = position + 1;
        }
        proof {
            reveal_with_fuel(enumerated_board_times, 2);
            assert(enumerated_board_times(times, flows, 1).len() == 1);
            lemma_enumerated_times_grow(times, flows, 1, nb_of_positions as int);
        }

        if let Err((upstream, downstream)) = is_increasing(&valid_enumerated_board_times) {
            let position_pair = PositionPair { upstream, downstream };
            return Err(VehicleTimesError::DecreasingBoardTime(position_pair));
        }
        if let Err((upstream, downstream)) = is_increasing(&valid_enumerated_debark_times) {
            let position_pair = PositionPair { upstream, downstream };
            return Err(VehicleTimesError::DecreasingDebarkTime(position_pair));
        }

        let mut board_idx: usize = 0;
        while board_idx + 1 < nb_of_positions
            invariant
                self.wf(),
                nb_of_positions == self.stops@.len(),
                times == board_debark_times@,
                flows == self.flow_directions@,
                times.len() == nb_of_positions,
                board_idx + 1 <= nb_of_positions,
                first_decreasing_pair(enumerated_board_times(times, flows, nb_of_positions as int)) is None,
                first_decreasing_pair(enumerated_debark_times(times, flows, nb_of_positions as int)) is None,
                first_debark_before_board_from(times, flows, 0) == first_debark_before_board_from(
                    times,
                    flows,
                    board_idx as int,
                ),
            decreases nb_of_positions - board_idx,
        {
            let board_position = Position { idx: board_idx };
            let debark_position = Position { idx: board_idx + 1 };
            let board_time = board_debark_times[board_idx].0;
            let debark_time = board_debark_times[board_idx + 1].1;
            if self.can_board(&board_position) && self.can_debark(&debark_position) && board_time
                > debark_time {
                let position_pair = PositionPair {
                    upstream: board_position.idx,
                    downstream: debark_position.idx,
                };
                return Err(VehicleTimesError::DebarkBeforeUpstreamBoard(position_pair));
            }
            board_idx = board_idx + 1;
        }

        assert(vehicle_times_error(times, flows) is None);
        let mut corrected_board: Vec<Time> = Vec::new();
        let mut corrected_debark: Vec<Time> = Vec::new();
        let mut position: usize = 0;
        while position < nb_of_positions
            invariant
                nb_of_positions == self.stops@.len(),
                times == board_debark_times@,
                flows == self.flow_directions@,
                times.len() == nb_of_positions,
                flows.len() == nb_of_positions,
                position <= nb_of_positions,
                vehicle_times_error(times, flows) is None,
                corrected_board@.len() == position,
                corrected_debark@.len() == position,
                forall|p: int| 0 <= p < position ==> #[trigger] corrected_board@[p] == corrected_time(times[p], flows[p]).0,
                forall|p: int| 0 <= p < position ==> #[trigger] corrected_debark@[p] == corrected_time(times[p], flows[p]).1,
            decreases nb_of_positions - position,
        {
            let (board_time, debark_time) = board_debark_times[position];
            let (corrected_board_time, corrected_debark_time) = match self.flow_directions[position] {
                FlowDirection::BoardAndDebark => (board_time, debark_time),
                FlowDirection::BoardOnly => (board_time, board_time),
                FlowDirection::DebarkOnly => (debark_time, debark_time),
            };
            corrected_board.push(corrected_board_time);
            corrected_debark.push(corrected_debark_time);
            position = position + 1;
        }
        let ghost board = corrected_board_times(times, flows);
        let ghost debark = corrected_debark_times(times, flows);
        assert(corrected_board@ =~= board);
        assert(corrected_debark@ =~= debark);

        let ghost old_self = *self;
        assert(old_self == *old(self));
        let nb_of_timetables = self.timetables.len();
        let mut timetable_idx: usize = 0;
        while timetable_idx < nb_of_timetables
            invariant
                *self == old_self,
                old_self == *old(self),
                old_self.wf(),
                nb_of_timetables == old_self.timetables@.len(),
                nb_of_positions == old_self.stops@.len(),
                corrected_board@ == board,
                corrected_debark@ == debark,
                board == corrected_board_times(times, flows),
                debark == corrected_debark_times(times, flows),
                board.len() == nb_of_positions,
                debark.len() == nb_of_positions,
                timetable_idx <= nb_of_timetables,
                vehicle_times_error(times, flows) is None,
                times == board_debark_times@,
                flows == old_self.flow_directions@,
                first_accepting_timetable_from(old_self.timetables@, board, debark, 0)
                    == first_accepting_timetable_from(old_self.timetables@, board, debark, timetable_idx as int),
            decreases nb_of_timetables - timetable_idx,
        {
            assert(self.timetables@[timetable_idx as int].wf());
            if self.timetables[timetable_idx].accept(&corrected_board, &corrected_debark) {
                self.timetables[timetable_idx].insert(corrected_board, corrected_debark, vehicle_data);
                proof {
                    assert forall|t: int| 0 <= t < self.timetables@.len() implies (#[trigger] self.timetables@[t]).wf()
                        && self.timetables@[t].nb_positions() == self.stops@.len() by {
                        if t != timetable_idx {
                            assert(old_self.timetables@[t].wf());
                        }
                    }
                    assert(first_accepting_timetable_from(old_self.timetables@, board, debark, 0) == Some(timetable_idx as int));
                    assert(self.timetables@.len() == old_self.timetables@.len());
                    assert(self.timetables@[timetable_idx as int].is_insertion_of(old_self.timetables@[timetable_idx as int], board, debark, vehicle_data));
                    assert(forall|t: int| 0 <= t < self.timetables@.len() && t != timetable_idx ==> #[trigger] self.timetables@[t] == old_self.timetables@[t]);
                    assert(self.wf());
                    assert(self.inserted(old_self, board, debark, vehicle_data));
                }
                return Ok(());
            }
            timetable_idx = timetable_idx + 1;
        }
        let mut new_timetable_data = TimetableData::new(nb_of_positions);
        proof {
            assert(new_timetable_data.accepts(board, debark));
        }
        let ghost empty_timetable = new_timetable_data;
        new_timetable_data.insert(corrected_board, corrected_debark, vehicle_data);
        self.timetables.push(new_timetable_data);
        proof {
            assert(empty_timetable.insertion_index_from(board, debark, 0) == 0);
            assert forall|t: int| 0 <= t < self.timetables@.len() implies (#[trigger] self.timetables@[t]).wf()
                && self.timetables@[t].nb_positions() == self.stops@.len() by {
                if t < nb_of_timetables {
                    assert(old_self.timetables@[t].wf());
                }
            }
        }
        Ok(())
    }

    /// `self` is the well-formed stop pattern obtained from `before` by inserting a vehicle with
    /// these (corrected) times and data in the first timetable of `before` that accepts it,
    /// or, if none does, in a new timetable added after the others.
    pub open spec fn inserted(&self, before: Self, board: Seq<Time>, debark: Seq<Time>, data: VehicleData) -> bool {
        &&& self.wf()
        &&& self.stops == before.stops
        &&& self.flow_directions == before.flow_directions
        &&& match first_accepting_timetable_from(before.timetables@, board, debark, 0) {
            Some(k) => {
                &&& self.timetables@.len() == before.timetables@.len()
                &&& self.timetables@[k].is_insertion_of(before.timetables@[k], board, debark, data)
                &&& forall|t: int| 0 <= t < self.timetables@.len() && t != k ==> #[trigger] self.timetables@[t] == before.timetables@[t]
            },
            None => {
                let added = self.timetables@.last();
                &&& self.timetables@.len() == before.timetables@.len() + 1
                &&& forall|t: int| 0 <= t < before.timetables@.len() ==> #[trigger] self.timetables@[t] == before.timetables@[t]
                &&& added.nb_vehicles() == 1
                &&& added.board_times_of(0) == board
                &&& added.debark_times_of(0) == debark
                &&& added.vehicle_data(0) == data
            },
        }
    }

    fn nb_of_positions(&self) -> (result: usize)
        ensures
            result == self.stops@.len(),
    {
        self.stops.len()
    }
}

} // verus!
