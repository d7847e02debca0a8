//! The system clock, which stamps moves and seeds puzzle generation.
use vstd::prelude::*;
use std::time::SystemTime;
use core::time::Duration;

verus! {

#[verifier::external_type_specification]
#[verifier::external_body]
pub struct ExSystemTime(std::time::SystemTime);

/// Relies on `SystemTime::now`: a reading of the system clock, of which nothing is known.
pub assume_specification[ std::time::SystemTime::now ]() -> std::time::SystemTime;

/// Relies on `Duration::as_secs`: the whole seconds of a span; any value may come.
pub assume_specification[ core::time::Duration::as_secs ](d: &core::time::Duration) -> u64;

/// Relies on `Duration::as_nanos`: the span in nanoseconds; any value may come.
pub assume_specification[ core::time::Duration::as_nanos ](d: &core::time::Duration) -> u128;

/// Relies on `SystemTime::duration_since` with the Unix epoch: the time elapsed since it,
/// or a zero span for a clock set before it.
#[verifier::external_body]
fn since_epoch(t: &SystemTime) -> Duration {
    t.duration_since(std::time::UNIX_EPOCH).unwrap_or_default()
}

/// The seconds since the Unix epoch, as decimal text.
pub fn timestamp_now() -> String {
    let secs = since_epoch(&SystemTime::now()).as_secs();
    secs.to_string()
}

/// A seed taken from the low 64 bits of the nanoseconds since the Unix epoch.
pub fn clock_seed() -> u64 {
    let nanos = since_epoch(&SystemTime::now()).as_nanos();
    (nanos % 0x1_0000_0000_0000_0000u128) as u64
}

} // verus!
