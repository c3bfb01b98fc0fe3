use vstd::prelude::*;

use crate::models::{LineIdx, NetworkIdx, RouteIdx, StopAreaIdx, StopPointIdx};

verus! {

/// An object of the transit network that a disruption informs about.
#[derive(Debug, Clone, Copy, PartialEq, Eq, Structural)]
pub enum PtObject {
    StopPoint(StopPointIdx),
    StopArea(StopAreaIdx),
    Line(LineIdx),
    Route(RouteIdx),
    Network(NetworkIdx),
    LineSection,
    RouteSection,
    Trip,
    Unknown,
}

/// Which schedules a request uses.
#[derive(Debug, Clone, Copy, PartialEq, Eq, Structural)]
pub enum RealTimeLevel {
    Base,
    Adapted,
    RealTime,
}

/// The effect of a disruption on the service.
#[derive(Debug, Clone, Copy, PartialEq, Eq, Structural)]
pub enum Effect {
    NoService,
    ReducedService,
    SignificantDelays,
    Detour,
    AdditionalService,
    ModifiedService,
    OtherEffect,
    UnknownEffect,
    StopMoved,
}

/// A disruption of the transit network.
#[derive(Debug)]
pub struct Disruption {
    /// Provider of the disruption
    pub contributor: String,
    /// Title of the disruption
    pub reference: String,
    pub impacts: Vec<Impact>,
}

/// An impact of a disruption: the objects it informs about.
#[derive(Debug)]
pub struct Impact {
    pub informed_entities: Vec<PtObject>,
}

} // verus!
