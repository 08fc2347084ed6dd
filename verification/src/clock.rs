//! The wall clock.

use vstd::prelude::*;

verus! {

/// `std::time::SystemTime::now`, as whole seconds since the Unix epoch, or zero before it.
/// Nothing is claimed of the value.
#[verifier::external_body]
pub(crate) fn now_secs() -> u64 {
    std::time::SystemTime::now().duration_since(std::time::UNIX_EPOCH).unwrap_or_default().as_secs()
}

/// Seconds from `since` to `now`, which wrap around where the clock was set back.
pub open spec fn elapsed(now: u64, since: u64) -> int {
    if now >= since {
        now - since
    } else {
        now - since + 0x1_0000_0000_0000_0000
    }
}

/// Seconds from `since` to `now`, which wrap around where the clock was set back.
pub fn seconds_between(now: u64, since: u64) -> (r: u64)
    ensures
        r == elapsed(now, since),
{
    now.wrapping_sub(since)
}

/// As long as the clock is not set back, time passes as it says.
pub proof fn law_time_passes(now: u64, since: u64)
    requires
        since <= now,
    ensures
        elapsed(now, since) == now - since,
{
}

} // verus!
