//! Proof of work by escape time: a block is mined by finding, in a fixed
//! pool of points, one that leaves the disk of radius two after exactly the
//! demanded number of steps of `z -> z^2 + c`, and anyone can check the
//! find by running the same steps once.
use vstd::prelude::*;
use std::time::{Duration, SystemTime, SystemTimeError, UNIX_EPOCH};

pub mod binary32;
pub mod block;
pub mod byte_order;
pub mod maths;
pub mod rounding;

verus! {

#[verifier::external_type_specification]
#[verifier::external_body]
pub struct ExSystemTime(SystemTime);

#[verifier::external_type_specification]
#[verifier::external_body]
pub struct ExSystemTimeError(SystemTimeError);

/// `SystemTime::now` reads the system clock; nothing is known of the reading.
pub assume_specification[ SystemTime::now ]() -> (t: SystemTime);

/// `SystemTime::duration_since`, asked how far `t` lies after the Unix
/// epoch. It answers with an error where `t` lies before it; nothing else
/// is known of the answer.
#[verifier::external_body]
fn since_unix_epoch(t: &SystemTime) -> (r: Result<Duration, SystemTimeError>) {
    t.duration_since(UNIX_EPOCH)
}

/// `Duration::as_secs` gives the whole seconds of a duration.
pub assume_specification[ Duration::as_secs ](d: &Duration) -> (secs: u64);

/// `Duration::subsec_millis` gives the fraction of a second that a duration
/// holds beyond its whole seconds, in whole milliseconds: less than a thousand.
pub assume_specification[ Duration::subsec_millis ](d: &Duration) -> (millis: u32)
    ensures
        millis < 1000,
;

/// Milliseconds in `secs` whole seconds plus `subsec_millis` further milliseconds.
pub open spec fn millis_of(secs: u64, subsec_millis: u32) -> int {
    secs * 1000 + subsec_millis
}

/// Combines the two parts of a clock reading into a count of milliseconds.
pub fn millis_since_epoch(secs: u64, subsec_millis: u32) -> (r: u128)
    ensures
        r == millis_of(secs, subsec_millis),
{
    let whole: u128 = secs as u128 * 1000;
    whole + subsec_millis as u128
}

/// The milliseconds that the system clock has counted since the Unix epoch,
/// or `None` where the clock is set to a time before it.
pub fn now() -> (r: Option<u128>)
    ensures
        r matches Some(ms) ==> ms <= millis_of(u64::MAX, 999),
{
    let reading: SystemTime = SystemTime::now();
    let parts: Option<(u64, u32)> = match since_unix_epoch(&reading) {
        Ok(elapsed) => Some((elapsed.as_secs(), elapsed.subsec_millis())),
        Err(_) => None,
    };
    timestamp_of(parts)
}

/// The timestamp that a clock reading stands for. A reading after the
/// epoch, given as whole seconds and further milliseconds, comes to their
/// total in milliseconds; a reading before the epoch comes to none.
pub fn timestamp_of(reading: Option<(u64, u32)>) -> (r: Option<u128>)
    ensures
        r is Some <==> reading is Some,
        reading matches Some(parts) ==> r == Some(millis_of(parts.0, parts.1) as u128),
{
    match reading {
        Some((secs, subsec_millis)) => Some(millis_since_epoch(secs, subsec_millis)),
        None => None,
    }
}

} // verus!
