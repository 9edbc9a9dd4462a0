//! The wall clock, the one source of noise in the cost model.

use vstd::prelude::*;

verus! {

/// Trusted: `std::time::SystemTime`, an instant of the wall clock.  Nothing
/// is known of what it holds.
#[verifier::external_type_specification]
#[verifier::external_body]
pub struct ExSystemTime(std::time::SystemTime);

/// Trusted: `std::time::SystemTimeError`, the error of an instant that
/// lies before another.  Nothing is known of what it holds.
#[verifier::external_type_specification]
#[verifier::external_body]
pub struct ExSystemTimeError(std::time::SystemTimeError);

/// One second, in nanoseconds: every clock reading lies below it.
pub const NANOS_PER_SECOND: u32 = 1_000_000_000;

/// Trusted: `SystemTime::now`.  Nothing is known of the instant returned.
#[verifier::external_body]
fn system_now() -> std::time::SystemTime {
    std::time::SystemTime::now()
}

/// Trusted: `SystemTime::duration_since` against `UNIX_EPOCH`.  It fails
/// when the instant lies before the epoch; nothing else is known of it.
#[verifier::external_body]
fn since_unix_epoch(instant: &std::time::SystemTime) -> Result<
    std::time::Duration,
    std::time::SystemTimeError,
> {
    instant.duration_since(std::time::UNIX_EPOCH)
}

/// Trusted: `Duration::subsec_nanos`, the fractional part of a duration in
/// nanoseconds, which is always less than one second.
#[verifier::external_body]
fn subsec_nanos(elapsed: &std::time::Duration) -> (n: u32)
    ensures
        n < NANOS_PER_SECOND,
{
    elapsed.subsec_nanos()
}

/// Trusted: chrono's conversion of a `SystemTime` into a `DateTime<Local>`,
/// written out by `DateTime::to_rfc3339`.  The conversion takes an instant
/// before the epoch as it takes any other; it fails only where the
/// machine's time-zone data gives no offset for the instant.  The text
/// depends on the machine's time zone, so nothing is promised of it.
#[verifier::external_body]
fn local_timestamp_of(instant: &std::time::SystemTime) -> String {
    chrono::DateTime::<chrono::Local>::from(*instant).to_rfc3339()
}

/// The local time now, as text.
pub(crate) fn local_timestamp() -> String {
    let instant = system_now();
    local_timestamp_of(&instant)
}

/// The sub-second part of the wall clock, in nanoseconds; zero when the
/// clock stands before the epoch.
pub fn clock_reading() -> (n: u32)
    ensures
        n < NANOS_PER_SECOND,
{
    let instant = system_now();
    match since_unix_epoch(&instant) {
        Ok(elapsed) => subsec_nanos(&elapsed),
        Err(_) => 0,
    }
}

/// `count` successive clock readings.
pub fn clock_readings(count: usize) -> (readings: Vec<u32>)
    ensures
        readings@.len() == count,
        forall|i: int| 0 <= i < count ==> readings@[i] < NANOS_PER_SECOND,
{
    let mut readings: Vec<u32> = Vec::new();
    let mut i: usize = 0;
    while i < count
        invariant
            i <= count,
            readings@.len() == i,
            forall|j: int| 0 <= j < i ==> readings@[j] < NANOS_PER_SECOND,
        decreases count - i,
    {
        let reading = clock_reading();
        readings.push(reading);
        i = i + 1;
    }
    readings
}

/// The reading at position `index` of a tape of readings, zero past its end.
pub open spec fn reading_at(readings: Seq<u32>, index: int) -> nat {
    if 0 <= index < readings.len() {
        readings[index] as nat
    } else {
        0
    }
}

/// Where a tape holds the pair of readings for `index`: the first at twice
/// the index, the second next to it.
pub open spec fn pair_position(index: int, second: bool) -> int {
    if second {
        2 * index + 1
    } else {
        2 * index
    }
}

/// The reading at position `index`, zero past the end of the tape.
pub fn nth_reading(readings: &Vec<u32>, index: usize) -> (r: u32)
    ensures
        r == reading_at(readings@, index as int),
{
    if index < readings.len() {
        readings[index]
    } else {
        0
    }
}

/// Of the pair of readings that a tape holds for `index`, the first or the
/// second; zero past the end of the tape.
pub fn paired_reading(readings: &Vec<u32>, index: usize, second: bool) -> (r: u32)
    ensures
        r == reading_at(readings@, pair_position(index as int, second)),
{
    let length: usize = readings.len();
    let offset: usize = if second {
        1
    } else {
        0
    };
    if length >= offset && index <= (length - offset) / 2 {
        nth_reading(readings, 2 * index + offset)
    } else {
        0
    }
}

} // verus!
