use vstd::prelude::*;

verus! {

/// Number of seconds elapsed since the start of a day.
pub type SecondsSinceDayStart = u32;

/// Number of seconds elapsed since the start of a day, in the timezone of the vehicle.
pub type SecondsSinceTimezonedDayStart = u32;

/// A duration, in seconds; it cannot be negative.
pub type PositiveDuration = u32;

/// Number of seconds elapsed since the start (in UTC) of the first day of the dataset.
pub type SecondsSinceDatasetUTCStart = u64;

/// Number of seconds in a day.
pub const SECONDS_IN_A_DAY: u64 = 86400;

/// A day of the dataset, counted from its first day.
#[derive(Debug, Clone, Copy, PartialEq, Eq, Structural)]
pub struct DaysSinceDatasetStart {
    pub days: u16,
}

/// A date and time in UTC, as the number of seconds since 1970-01-01 00:00:00 UTC.
#[derive(Debug, Clone, Copy, PartialEq, Eq, Structural)]
pub struct UtcDateTime {
    pub seconds_since_epoch: i64,
}

/// The time at `seconds` into a day of the dataset, since the start of the dataset.
pub open spec fn compose(day: DaysSinceDatasetStart, seconds: SecondsSinceTimezonedDayStart) -> int {
    day.days * SECONDS_IN_A_DAY + seconds
}

/// A time composed from a day of the dataset and a time in that day is at most that large.
pub proof fn lemma_compose_bounds(day: DaysSinceDatasetStart, seconds: SecondsSinceTimezonedDayStart)
    ensures
        0 <= compose(day, seconds) <= 65535 * 86400 + 0xffff_ffff,
{
    assert(day.days * SECONDS_IN_A_DAY <= 65535 * 86400) by (nonlinear_arith)
        requires day.days <= 65535, SECONDS_IN_A_DAY == 86400;
}

/// The time at `seconds` into `day`, counted in seconds since the start of the dataset.
pub fn compose_day_and_time(day: &DaysSinceDatasetStart, seconds: &SecondsSinceTimezonedDayStart) -> (result: SecondsSinceDatasetUTCStart)
    ensures
        result == compose(*day, *seconds),
{
    let days: u64 = day.days as u64;
    let seconds_in_day: u64 = *seconds as u64;
    proof {
        assert(days * SECONDS_IN_A_DAY <= 65535 * 86400) by (nonlinear_arith)
            requires days <= 65535;
    }
    days * SECONDS_IN_A_DAY + seconds_in_day
}

} // verus!
