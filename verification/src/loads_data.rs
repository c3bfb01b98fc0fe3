use vstd::prelude::*;

use crate::text::{decimal, write_decimal};

verus! {

/// The occupancy of a vehicle between two consecutive stops.
#[derive(Debug, Clone, Copy, PartialEq, Eq, Structural)]
pub enum Load {
    Low,
    Medium,
    High,
}

/// How many legs of a journey run in a vehicle of each load.
#[derive(Debug, Clone, Copy, PartialEq, Eq, Structural)]
pub struct LoadsCount {
    pub high: u16,
    pub medium: u16,
    pub low: u16,
}

/// How a count of loads is written: `high 1, medium 0, low 2`.
pub open spec fn loads_count_text(loads_count: LoadsCount) -> Seq<char> {
    "high "@ + decimal(loads_count.high as nat) + ", medium "@ + decimal(loads_count.medium as nat)
        + ", low "@ + decimal(loads_count.low as nat)
}

impl LoadsCount {
    /// Appends the text of the count of loads.
    pub fn write(&self, writer: &mut String)
        ensures
            final(writer)@ == old(writer)@ + loads_count_text(*self),
    {
        writer.append("high ");
        write_decimal(writer, self.high as u64);
        writer.append(", medium ");
        write_decimal(writer, self.medium as u64);
        writer.append(", low ");
        write_decimal(writer, self.low as u64);
        assert(final(writer)@ =~= old(writer)@ + loads_count_text(*self));
    }
}

} // verus!
