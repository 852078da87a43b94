//! The pace of the server.
use vstd::prelude::*;

verus! {

/// The length of a tick in nanoseconds: a sixtieth of a second, rounded down.
pub const TICK_NANOS: u128 = 16_666_666;

/// The time that is left of a tick after its work, if there is any.
pub open spec fn time_left(elapsed_nanos: u128) -> Option<u128> {
    if elapsed_nanos <= TICK_NANOS {
        Some((TICK_NANOS - elapsed_nanos) as u128)
    } else {
        None
    }
}

/// The time that is left of a tick, in nanoseconds, given how long its work took. There is none
/// where the work took longer than a tick; the world slows down then.
pub fn remaining_time(elapsed_nanos: u128) -> (left: Option<u128>)
    ensures
        left == time_left(elapsed_nanos),
{
    if elapsed_nanos <= TICK_NANOS {
        Some(TICK_NANOS - elapsed_nanos)
    } else {
        None
    }
}

} // verus!
