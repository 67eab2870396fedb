//! Wall-clock reading for event receive timestamps.

use vstd::prelude::*;

verus! {

/// Relies on `std::time::SystemTime::now` and the duration since
/// `std::time::UNIX_EPOCH`: the reading depends on the machine's clock
/// alone, so nothing is promised of it. Panics only on a clock that
/// reads before the epoch.
#[verifier::external_body]
fn epoch_millis() -> (r: u128) {
    std::time::SystemTime::now()
        .duration_since(std::time::UNIX_EPOCH)
        .unwrap()
        .as_millis()
}

/// Milliseconds since the Unix epoch as the wall clock reports now,
/// saturated to the signed range. The clock decides the value; only
/// non-negativity is promised.
pub fn now_ms() -> (r: i64)
    ensures
        r >= 0,
{
    let raw = epoch_millis();
    if raw > i64::MAX as u128 {
        i64::MAX
    } else {
        raw as i64
    }
}

} // verus!
