use vstd::prelude::*;

verus! {

/// The unit in which the engine stores timestamps: so many units have
/// passed since the Unix epoch.
#[derive(Clone, Copy, PartialEq, Eq, Structural, Debug)]
pub enum TimestampPrecision {
    Nanoseconds,
    Microseconds,
    Milliseconds,
    Seconds,
}

/// How many nanoseconds one unit of the precision lasts.
pub open spec fn unit_nanos(precision: TimestampPrecision) -> nat {
    match precision {
        TimestampPrecision::Nanoseconds => 1,
        TimestampPrecision::Microseconds => 1_000,
        TimestampPrecision::Milliseconds => 1_000_000,
        TimestampPrecision::Seconds => 1_000_000_000,
    }
}

/// A span of `secs` whole seconds plus `subsec_nanos` nanoseconds,
/// expressed in units of the precision, saturating at `i64::MAX`.
pub open spec fn duration_units(secs: nat, subsec_nanos: nat, precision: TimestampPrecision) -> int {
    let units = (secs * 1_000_000_000 + subsec_nanos) as int / unit_nanos(precision) as int;
    if units > i64::MAX {
        i64::MAX as int
    } else {
        units
    }
}

/// Convert a duration, given as whole seconds and the nanoseconds within
/// the second, into the configured timestamp precision, saturating on
/// overflow.
pub fn duration_to_units(secs: u64, subsec_nanos: u32, precision: TimestampPrecision) -> (r: i64)
    requires
        subsec_nanos < 1_000_000_000,
    ensures
        r == duration_units(secs as nat, subsec_nanos as nat, precision),
        r >= 0,
{
    let total_nanos: u128 = secs as u128 * 1_000_000_000 + subsec_nanos as u128;
    let divisor: u128 = match precision {
        TimestampPrecision::Nanoseconds => 1,
        TimestampPrecision::Microseconds => 1_000,
        TimestampPrecision::Milliseconds => 1_000_000,
        TimestampPrecision::Seconds => 1_000_000_000,
    };
    let units: u128 = total_nanos / divisor;
    if units > i64::MAX as u128 {
        i64::MAX
    } else {
        units as i64
    }
}

/// Relies on `std::time::SystemTime::now` and
/// `SystemTime::duration_since(UNIX_EPOCH)`: the pair is the wall clock
/// as whole seconds since the epoch and the nanoseconds within that
/// second; a clock before the epoch is read as the epoch itself.  The
/// result depends on the clock, so only the range of the second field
/// is stated.
#[verifier::external_body]
fn unix_time_now() -> (r: (u64, u32))
    ensures
        r.1 < 1_000_000_000,
{
    match std::time::SystemTime::now().duration_since(std::time::UNIX_EPOCH) {
        Ok(d) => (d.as_secs(), d.subsec_nanos()),
        Err(_) => (0, 0),
    }
}

/// Convert the current wall clock time to the configured timestamp
/// precision.  The clock decides the value; whatever it reads, the
/// result is a saturated, non-negative unit count.
pub fn now_in_precision(precision: TimestampPrecision) -> (r: i64)
    ensures
        r >= 0,
{
    let (secs, subsec_nanos) = unix_time_now();
    duration_to_units(secs, subsec_nanos, precision)
}

} // verus!
