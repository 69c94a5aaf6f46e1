//! The present time.
use vstd::prelude::*;
use crate::model::Timestamp;

verus! {

/// Relies on std's `SystemTime::now` and `SystemTime::duration_since`: how far
/// the present lies from the Unix epoch, in milliseconds, and whether it lies
/// before it. Nothing is promised of the values.
#[verifier::external_body]
fn clock_offset() -> (r: (bool, u128)) {
    match std::time::SystemTime::now().duration_since(std::time::UNIX_EPOCH) {
        Ok(d) => (false, d.as_millis()),
        Err(e) => (true, e.duration().as_millis()),
    }
}

/// The present time, clamped to the range of a [`Timestamp`].
pub(crate) fn now_millis() -> (r: Timestamp) {
    let (before, m) = clock_offset();
    let m: u128 = if m > 9223372036854775807u128 {
        9223372036854775807u128
    } else {
        m
    };
    let t = m as i64;
    if before {
        -t
    } else {
        t
    }
}

} // verus!
