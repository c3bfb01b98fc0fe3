pub mod generic_timetables;

use vstd::prelude::*;

use crate::transit_data::Stop;

verus! {

/// What a traveler may do at a stop of a vehicle journey.
#[derive(Debug, Clone, Copy, PartialEq, Eq, Structural)]
pub enum FlowDirection {
    BoardOnly,
    DebarkOnly,
    BoardAndDebark,
    NoBoardDebark,
}

/// Whether a traveler may board a vehicle at a stop with this flow direction.
pub open spec fn flow_allows_board(flow: FlowDirection) -> bool {
    flow == FlowDirection::BoardOnly || flow == FlowDirection::BoardAndDebark
}

/// Whether a traveler may debark from a vehicle at a stop with this flow direction.
pub open spec fn flow_allows_debark(flow: FlowDirection) -> bool {
    flow == FlowDirection::DebarkOnly || flow == FlowDirection::BoardAndDebark
}

/// The stops of a vehicle journey, each with its flow direction.
pub type StopFlows = Vec<(Stop, FlowDirection)>;

} // verus!
