//! The machine's monotonic clock.
use vstd::prelude::*;

verus! {

/// A point in time on the machine's monotonic clock.
#[verifier::external_type_specification]
#[verifier::external_body]
pub struct ExInstant(std::time::Instant);

/// The current time, as `Instant::now` reads it; nothing is stated of its value.
#[verifier::external_body]
pub(crate) fn instant_now() -> std::time::Instant {
    std::time::Instant::now()
}

/// The time elapsed since `start`, as `Instant::elapsed` reads it; nothing is stated of
/// its value.
#[verifier::external_body]
pub(crate) fn elapsed_since(start: &std::time::Instant) -> std::time::Duration {
    start.elapsed()
}

/// The whole seconds of a duration, as `Duration::as_secs` gives them; nothing is
/// stated of the value.
#[verifier::external_body]
pub(crate) fn duration_secs(d: &std::time::Duration) -> u64 {
    d.as_secs()
}

/// The nanoseconds of a duration past its whole seconds, as `Duration::subsec_nanos`
/// gives them: always less than a billion.
#[verifier::external_body]
pub(crate) fn duration_subsec_nanos(d: &std::time::Duration) -> (n: u32)
    ensures
        n < 1_000_000_000,
{
    d.subsec_nanos()
}

/// A point in time on the machine's wall clock.
#[verifier::external_type_specification]
#[verifier::external_body]
pub struct ExSystemTime(std::time::SystemTime);

/// The wall clock's time now, as `SystemTime::now` reads it; nothing is stated of its
/// value.
#[verifier::external_body]
pub(crate) fn system_time_now() -> std::time::SystemTime {
    std::time::SystemTime::now()
}

/// The time from the UNIX epoch to `t`, as `SystemTime::duration_since` gives it; for a
/// time before the epoch, the time from `t` to the epoch, which the error of
/// `duration_since` holds (`SystemTimeError::duration`). Nothing is stated of its value.
#[verifier::external_body]
pub(crate) fn duration_since_epoch(t: &std::time::SystemTime) -> Result<std::time::Duration, std::time::Duration> {
    match t.duration_since(std::time::UNIX_EPOCH) {
        Ok(d) => Ok(d),
        Err(e) => Err(e.duration()),
    }
}

} // verus!
