//! Identifiers and timestamps. A record's id is the 128 bits of its UUID
//! (`Uuid::as_u128`, whose order is the order of `Uuid`); a timestamp is the
//! number of microseconds since the Unix epoch, read from the system clock.
use vstd::prelude::*;

verus! {

/// A fresh random id: calls `uuid::Uuid::new_v4` and hands back `as_u128`.
/// Nothing is stated of the value (it is random).
#[verifier::external_body]
pub(crate) fn new_id() -> (id: u128) {
    uuid::Uuid::new_v4().as_u128()
}

#[verifier::external_type_specification]
#[verifier::external_body]
pub struct ExSystemTime(std::time::SystemTime);

/// The system clock (`std::time::SystemTime::now`). Nothing is stated of the
/// value (it is the clock).
#[verifier::external_body]
fn system_now() -> (t: std::time::SystemTime) {
    std::time::SystemTime::now()
}

/// The time elapsed from the Unix epoch to `t`, `None` when `t` lies before
/// the epoch (`SystemTime::duration_since(UNIX_EPOCH)`).
pub uninterp spec fn since_epoch_of(t: std::time::SystemTime) -> Option<std::time::Duration>;

/// The whole nanoseconds of a duration (`Duration::as_nanos`).
pub uninterp spec fn nanos_of(d: std::time::Duration) -> u128;

/// Calls `SystemTime::duration_since(UNIX_EPOCH)`, with its error (a time
/// before the epoch) as `None`; the result is named `since_epoch_of`.
#[verifier::external_body]
fn since_epoch(t: &std::time::SystemTime) -> (d: Option<std::time::Duration>)
    ensures
        d == since_epoch_of(*t),
{
    match t.duration_since(std::time::UNIX_EPOCH) {
        Ok(d) => Some(d),
        Err(_) => None,
    }
}

/// Calls `Duration::as_nanos`; the result is named `nanos_of`.
#[verifier::external_body]
fn duration_nanos(d: &std::time::Duration) -> (n: u128)
    ensures
        n == nanos_of(*d),
{
    d.as_nanos()
}

/// The whole microseconds of a duration (`Duration::as_micros`).
pub uninterp spec fn micros_of(d: std::time::Duration) -> u128;

/// Calls `Duration::as_micros`; the result is named `micros_of`.
#[verifier::external_body]
fn duration_micros(d: &std::time::Duration) -> (n: u128)
    ensures
        n == micros_of(*d),
{
    d.as_micros()
}

/// The microseconds from the Unix epoch to `t`: 0 when `t` lies before the
/// epoch, `i64::MAX` past what an `i64` holds.
pub open spec fn epoch_micros(t: std::time::SystemTime) -> i64 {
    match since_epoch_of(t) {
        Some(d) => if micros_of(d) <= i64::MAX {
            micros_of(d) as i64
        } else {
            i64::MAX
        },
        None => 0,
    }
}

/// The current time as a timestamp: `epoch_micros` of the time the system
/// clock gives. It never fails; a clock before the epoch reads as 0.
pub(crate) fn now_micros() -> (r: i64)
    ensures
        exists|t: std::time::SystemTime| r == #[trigger] epoch_micros(t),
{
    let now = system_now();
    let r: i64 = match since_epoch(&now) {
        Some(d) => {
            let m = duration_micros(&d);
            if m <= 9223372036854775807u128 {
                m as i64
            } else {
                i64::MAX
            }
        },
        None => 0,
    };
    assert(r == epoch_micros(now));
    r
}

/// The nanoseconds from the Unix epoch to `t`, 0 when `t` lies before the epoch.
pub open spec fn epoch_nanos(t: std::time::SystemTime) -> u128 {
    match since_epoch_of(t) {
        Some(d) => nanos_of(d),
        None => 0,
    }
}

/// The system clock in nanoseconds since the Unix epoch, 0 when the clock
/// reads before the epoch: `epoch_nanos` of the time the clock gave.
pub(crate) fn now_nanos() -> (r: u128)
    ensures
        exists|t: std::time::SystemTime| r == #[trigger] epoch_nanos(t),
{
    let now = system_now();
    let r = match since_epoch(&now) {
        Some(d) => duration_nanos(&d),
        None => 0,
    };
    assert(r == epoch_nanos(now));
    r
}

pub open spec fn spec_default_project_id() -> u128 {
    0x0000_0000_0000_4000_8000_0000_0000_0001u128
}

/// The id of the default sample project (the placeholder owner of new trace records).
pub fn default_project_id() -> (id: u128)
    ensures
        id == spec_default_project_id(),
{
    0x0000_0000_0000_4000_8000_0000_0000_0001u128
}

} // verus!
