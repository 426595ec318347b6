//! The wall clock, as far as the library reads it.

use vstd::prelude::*;

verus! {

/// A point in time of the system clock. Nothing is known of its value.
#[verifier::external_type_specification]
#[verifier::external_body]
pub struct ExSystemTime(std::time::SystemTime);

/// `SystemTime::now` reads the system clock. Each call may give another
/// value, so nothing is stated of the result.
pub assume_specification[ std::time::SystemTime::now ]() -> std::time::SystemTime;

/// `Duration::as_micros` gives the whole microseconds of a duration.
pub assume_specification[ std::time::Duration::as_micros ](d: &std::time::Duration) -> u128;

/// `Duration::as_millis` gives the whole milliseconds of a duration.
pub assume_specification[ std::time::Duration::as_millis ](d: &std::time::Duration) -> u128;

/// `SystemTime::duration_since`, called with the Unix epoch: the time passed
/// since the epoch, or nothing where the clock stands before it.
#[verifier::external_body]
fn since_epoch(t: &std::time::SystemTime) -> Option<std::time::Duration> {
    match t.duration_since(std::time::UNIX_EPOCH) {
        Ok(d) => Some(d),
        Err(_) => None,
    }
}

/// The count that is kept of the time passed since the epoch: its low 64
/// bits, and zero where the clock stands before the epoch.
pub open spec fn reading(elapsed: Option<u128>) -> u64 {
    match elapsed {
        Some(count) => (count % 0x1_0000_0000_0000_0000) as u64,
        None => 0,
    }
}

/// Turns the time passed since the epoch, in whatever unit it was counted,
/// into the count that is kept of it.
pub fn to_reading(elapsed: Option<u128>) -> (r: u64)
    ensures
        r == reading(elapsed),
{
    match elapsed {
        Some(count) => {
            let low: u128 = count & 0xFFFF_FFFF_FFFF_FFFF;
            assert(low == count % 0x1_0000_0000_0000_0000 && low <= 0xFFFF_FFFF_FFFF_FFFF)
                by (bit_vector)
                requires
                    low == count & 0xFFFF_FFFF_FFFF_FFFF,
            ;
            low as u64
        },
        None => 0,
    }
}

/// Microseconds since the Unix epoch, zero where the clock stands before it.
/// The result is whatever the system clock shows: any value may come.
pub fn system_time_micros() -> u64 {
    let t = std::time::SystemTime::now();
    match since_epoch(&t) {
        Some(d) => to_reading(Some(d.as_micros())),
        None => to_reading(None),
    }
}

/// Milliseconds since the Unix epoch, zero where the clock stands before it.
/// The result is whatever the system clock shows: any value may come.
pub fn system_time_ms() -> u64 {
    let t = std::time::SystemTime::now();
    match since_epoch(&t) {
        Some(d) => to_reading(Some(d.as_millis())),
        None => to_reading(None),
    }
}

} // verus!
