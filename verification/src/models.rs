pub mod apply_disruption;
pub mod base_model;
pub mod real_time_disruption;
pub mod real_time_model;

use vstd::prelude::*;

use crate::time::{DaysSinceDatasetStart, SecondsSinceTimezonedDayStart};
use crate::timetables::FlowDirection;

verus! {

/// The index of a stop time in a vehicle journey.
#[derive(Debug, Clone, Copy, PartialEq, Eq, Structural)]
pub struct StopTimeIdx {
    pub idx: usize,
}

/// A vehicle journey of the model, identified by its index.
#[derive(Debug, Clone, Copy, PartialEq, Eq, Structural)]
pub struct VehicleJourneyIdx {
    pub idx: usize,
}

/// A stop point of the model, identified by its index.
#[derive(Debug, Clone, Copy, PartialEq, Eq, Structural)]
pub struct StopPointIdx {
    pub idx: usize,
}

/// A stop time of a vehicle journey: its stop point, when a traveler may board and debark there
/// (in seconds since the start of the day of the trip), and whether they may.
#[derive(Debug, Clone, Copy, PartialEq, Eq, Structural)]
pub struct StopTime {
    pub stop: StopPointIdx,
    pub board_time: SecondsSinceTimezonedDayStart,
    pub debark_time: SecondsSinceTimezonedDayStart,
    pub flow_direction: FlowDirection,
}

/// A stop area of the model, identified by its index.
#[derive(Debug, Clone, Copy, PartialEq, Eq, Structural)]
pub struct StopAreaIdx {
    pub idx: usize,
}

/// A line of the model, identified by its index.
#[derive(Debug, Clone, Copy, PartialEq, Eq, Structural)]
pub struct LineIdx {
    pub idx: usize,
}

/// A route of the model, identified by its index.
#[derive(Debug, Clone, Copy, PartialEq, Eq, Structural)]
pub struct RouteIdx {
    pub idx: usize,
}

/// A network of the model, identified by its index.
#[derive(Debug, Clone, Copy, PartialEq, Eq, Structural)]
pub struct NetworkIdx {
    pub idx: usize,
}

/// A transfer of the model, identified by its index.
#[derive(Debug, Clone, Copy, PartialEq, Eq, Structural)]
pub struct TransferIdx {
    pub idx: usize,
}

/// The names that the model gives to vehicle journeys, lines and stop points, and the stop
/// point of each stop time of each vehicle journey.
pub struct ModelRefs {
    /// `vehicle_journey_names[vehicle_journey.idx]`
    pub vehicle_journey_names: Vec<String>,
    /// `line_names[vehicle_journey.idx]`: the name of the line of the vehicle journey
    pub line_names: Vec<String>,
    /// `route_names[vehicle_journey.idx]`: the identifier of the route of the vehicle journey
    pub route_names: Vec<String>,
    /// `stop_point_names[stop_point.idx]`
    pub stop_point_names: Vec<String>,
    /// `stop_point_ids[stop_point.idx]`: the identifier of the stop point
    pub stop_point_ids: Vec<String>,
    /// `stop_times[vehicle_journey.idx][stop_time_idx]`: the stop point of a stop time
    pub stop_times: Vec<Vec<StopPointIdx>>,
}

impl ModelRefs {
    /// Every stop time of every vehicle journey is at a stop point the model knows.
    pub open spec fn wf(&self) -> bool {
        forall|vj: int, k: int|
            0 <= vj < self.stop_times@.len() && 0 <= k < (#[trigger] self.stop_times@[vj])@.len()
                ==> self.knows_stop_point(#[trigger] self.stop_times@[vj]@[k])
    }

    /// The model knows this vehicle journey.
    pub open spec fn knows_vehicle_journey(&self, vehicle_journey: VehicleJourneyIdx) -> bool {
        &&& vehicle_journey.idx < self.vehicle_journey_names@.len()
        &&& vehicle_journey.idx < self.line_names@.len()
        &&& vehicle_journey.idx < self.stop_times@.len()
    }

    /// The model knows this stop point.
    pub open spec fn knows_stop_point(&self, stop_point: StopPointIdx) -> bool {
        stop_point.idx < self.stop_point_names@.len()
    }

    pub open spec fn stop_point_at_spec(&self, vehicle_journey: VehicleJourneyIdx, stop_time_idx: usize) -> Option<StopPointIdx> {
        if stop_time_idx < self.stop_times@[vehicle_journey.idx as int]@.len() {
            Some(self.stop_times@[vehicle_journey.idx as int]@[stop_time_idx as int])
        } else {
            None
        }
    }

    pub fn vehicle_journey_name(&self, vehicle_journey: &VehicleJourneyIdx) -> (result: &str)
        requires
            self.knows_vehicle_journey(*vehicle_journey),
        ensures
            result@ == self.vehicle_journey_names@[vehicle_journey.idx as int]@,
    {
        self.vehicle_journey_names[vehicle_journey.idx].as_str()
    }

    pub fn line_name(&self, vehicle_journey: &VehicleJourneyIdx) -> (result: &str)
        requires
            self.knows_vehicle_journey(*vehicle_journey),
        ensures
            result@ == self.line_names@[vehicle_journey.idx as int]@,
    {
        self.line_names[vehicle_journey.idx].as_str()
    }

    /// `s` is the first stop point whose identifier is `id`.
    pub open spec fn is_first_stop_point_with_id(&self, s: int, id: Seq<char>) -> bool {
        &&& 0 <= s < self.stop_point_ids@.len()
        &&& self.stop_point_ids@[s]@ == id
        &&& forall|k: int| 0 <= k < s ==> (#[trigger] self.stop_point_ids@[k])@ != id
    }

    /// The first stop point whose identifier is `id`, if there is one.
    pub open spec fn stop_point_index(&self, id: Seq<char>) -> Option<int> {
        if exists|s: int| self.is_first_stop_point_with_id(s, id) {
            Some(choose|s: int| self.is_first_stop_point_with_id(s, id))
        } else {
            None
        }
    }

    /// The first stop point whose identifier is `id`.
    pub fn stop_point_idx(&self, id: &String) -> (result: Option<StopPointIdx>)
        ensures
            result matches Some(s) ==> self.stop_point_index(id@) == Some(s.idx as int),
            result is None ==> self.stop_point_index(id@) is None,
    {
        let mut s: usize = 0;
        while s < self.stop_point_ids.len()
            invariant
                s <= self.stop_point_ids@.len(),
                forall|k: int| 0 <= k < s ==> (#[trigger] self.stop_point_ids@[k])@ != id@,
            decreases self.stop_point_ids@.len() - s,
        {
            if self.stop_point_ids[s].eq(id) {
                proof {
                    let ids = self.stop_point_ids@;
                    assert(self.is_first_stop_point_with_id(s as int, id@));
                    let c = choose|c: int| self.is_first_stop_point_with_id(c, id@);
                    if c < s {
                        assert(ids[c]@ != id@);
                    } else if s < c {
                        assert(ids[s as int]@ != id@);
                    }
                }
                return Some(StopPointIdx { idx: s });
            }
            s = s + 1;
        }
        None
    }

    /// The identifier of a stop point.
    pub fn stop_point_id(&self, stop_point: &StopPointIdx) -> (result: &String)
        requires
            stop_point.idx < self.stop_point_ids@.len(),
        ensures
            result@ == self.stop_point_ids@[stop_point.idx as int]@,
    {
        &self.stop_point_ids[stop_point.idx]
    }

    pub fn stop_point_name(&self, stop_point: &StopPointIdx) -> (result: &str)
        requires
            self.knows_stop_point(*stop_point),
        ensures
            result@ == self.stop_point_names@[stop_point.idx as int]@,
    {
        self.stop_point_names[stop_point.idx].as_str()
    }

    /// The stop point of a stop time of a vehicle journey on a day, if it has that many stop
    /// times (the stop times of a vehicle journey are the same every day).
    pub fn stop_point_at(&self, vehicle_journey: &VehicleJourneyIdx, stop_time_idx: usize, _day: &DaysSinceDatasetStart) -> (result: Option<StopPointIdx>)
        requires
            self.knows_vehicle_journey(*vehicle_journey),
        ensures
            result == self.stop_point_at_spec(*vehicle_journey, stop_time_idx),
    {
        let stop_times = &self.stop_times[vehicle_journey.idx];
        if stop_time_idx < stop_times.len() {
            Some(stop_times[stop_time_idx])
        } else {
            None
        }
    }
}

} // verus!
