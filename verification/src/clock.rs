//! Wall-clock time.
use vstd::prelude::*;

verus! {

/// Calls `SystemTime::elapsed` on `std::time::UNIX_EPOCH`: the nanoseconds
/// that have passed since then, or nothing where the clock stands before it.
/// Nothing is claimed of the result, which depends on the clock.
#[verifier::external_body]
pub(crate) fn unix_time_nanos() -> (elapsed: Option<u128>) {
    match std::time::UNIX_EPOCH.elapsed() {
        Ok(elapsed) => Some(elapsed.as_nanos()),
        Err(_) => None,
    }
}

/// The clock can show `elapsed`.
pub closed spec fn clock_shows(elapsed: Option<u128>) -> bool {
    call_ensures(unix_time_nanos, (), elapsed)
}

/// The low 64 bits of the nanoseconds since the epoch, or 0 before the epoch.
pub open spec fn heartbeat_of(elapsed: Option<u128>) -> int {
    match elapsed {
        Some(nanos) => nanos as int % 0x1_0000_0000_0000_0000,
        None => 0,
    }
}

/// The heartbeat value for the nanoseconds since the epoch.
pub fn heartbeat_value(elapsed: Option<u128>) -> (ns: u64)
    ensures
        ns == heartbeat_of(elapsed),
{
    match elapsed {
        Some(nanos) => {
            let ns: u64 = #[verifier::truncate] (nanos as u64);
            assert(ns == nanos % 0x1_0000_0000_0000_0000) by (bit_vector)
                requires
                    ns == nanos as u64,
            ;
            ns
        },
        None => 0,
    }
}

/// The current time in nanoseconds since the epoch, as a heartbeat value. It
/// is [`heartbeat_value`] of what the clock shows; what the clock shows is not
/// fixed by anything here.
pub fn current_time_ns() -> (ns: u64)
    ensures
        exists|elapsed: Option<u128>| #[trigger] clock_shows(elapsed) && ns == heartbeat_of(elapsed),
{
    let elapsed = unix_time_nanos();
    assert(clock_shows(elapsed));
    heartbeat_value(elapsed)
}

/// The reading of the clock that a time comes from.
pub(crate) proof fn lemma_reading(ns: u64) -> (elapsed: Option<u128>)
    requires
        call_ensures(current_time_ns, (), ns),
    ensures
        call_ensures(unix_time_nanos, (), elapsed),
        ns == heartbeat_of(elapsed),
{
    choose|elapsed: Option<u128>| #[trigger] clock_shows(elapsed) && ns == heartbeat_of(elapsed)
}

} // verus!
