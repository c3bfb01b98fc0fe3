pub mod data_interface;
pub mod ordered_timetable;

use vstd::prelude::*;

verus! {

/// A stop of the transit network, identified by its index.
#[derive(Debug, Clone, Copy, PartialEq, Eq, Structural)]
pub struct Stop {
    pub idx: usize,
}

/// What a traveler may do at a stop of a stop pattern.
#[derive(Debug, Clone, Copy, PartialEq, Eq, Structural)]
pub enum FlowDirection {
    BoardOnly,
    DebarkOnly,
    BoardAndDebark,
}

/// Whether a traveler may board a vehicle at a stop with this flow direction.
pub open spec fn flow_allows_board(flow: FlowDirection) -> bool {
    flow != FlowDirection::DebarkOnly
}

/// Whether a traveler may debark from a vehicle at a stop with this flow direction.
pub open spec fn flow_allows_debark(flow: FlowDirection) -> bool {
    flow != FlowDirection::BoardOnly
}

} // verus!
