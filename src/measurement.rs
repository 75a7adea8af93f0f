use vstd::prelude::*;

verus! {

/// A latency in milliseconds, held exactly as a decimal: `units / 10^scale`.
#[derive(PartialEq, Eq, Structural, Clone, Copy, Debug)]
pub struct Latency {
    pub units: u64,
    pub scale: usize,
}

/// A point in time: milliseconds since the Unix epoch, in UTC.
#[derive(PartialEq, Eq, Structural, Clone, Copy, Debug)]
pub struct Timestamp {
    pub millis: i64,
}

/// One recorded latency with the time at which its report was received.
#[derive(PartialEq, Eq, Structural, Clone, Copy, Debug)]
pub struct Measurement {
    pub latency: Latency,
    pub observed_at: Timestamp,
}

impl Latency {
    pub fn new(units: u64, scale: usize) -> (r: Latency)
        ensures
            r == (Latency { units, scale }),
    {
        Latency { units, scale }
    }
}

impl Measurement {
    pub fn new(latency: Latency, observed_at: Timestamp) -> (r: Measurement)
        ensures
            r == (Measurement { latency, observed_at }),
    {
        Measurement { latency, observed_at }
    }
}

/// Relies on chrono's `Utc::now` and `DateTime::timestamp_millis`: the current
/// UTC time as milliseconds since the Unix epoch. It comes from the clock, so
/// nothing is promised of its value.
#[verifier::external_body]
pub(crate) fn utc_now() -> (r: Timestamp) {
    Timestamp { millis: chrono::Utc::now().timestamp_millis() }
}

} // verus!
