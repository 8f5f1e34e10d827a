//! Writing in real time.
use crate::rational::{law_conversion_is_nearest, rescale, rescale_spec, Rational};
use vstd::prelude::*;

verus! {

/// How many microseconds a packet is early: those from `elapsed` to its
/// timestamp, and none when that has passed already.
pub open spec fn early_by(timestamp: i64, time_base: Rational, elapsed: int) -> int {
    let due = rescale_spec(timestamp as int, time_base, Rational(1, 1_000_000));
    if due > elapsed {
        due - elapsed
    } else {
        0
    }
}

/// How many microseconds a packet is held back when `elapsed` microseconds
/// have passed since the start. A packet without a timestamp does not wait.
pub fn wait_micros(timestamp: Option<i64>, time_base: Rational, elapsed: u64) -> (wait: u64)
    ensures
        wait == match timestamp {
            Some(timestamp) => early_by(timestamp, time_base, elapsed as int),
            None => 0,
        },
{
    match timestamp {
        Some(timestamp) => {
            let due = rescale(timestamp, time_base, Rational(1, 1_000_000));
            if due > 0 && due as u64 > elapsed {
                due as u64 - elapsed
            } else {
                0
            }
        },
        None => 0,
    }
}

/// A packet leaves at its own time: while that lies ahead, the time that has
/// passed and the wait together make it up, and behind it there is no wait.
pub proof fn law_packets_leave_at_their_time(
    timestamp: i64,
    time_base: Rational,
    elapsed: int,
    due: int,
)
    requires
        time_base.0 >= 0,
        time_base.1 > 0,
        elapsed >= 0,
        timestamp >= 0,
        0 <= due <= i64::MAX,
        -time_base.1 < 2 * (due * time_base.1 - timestamp * (time_base.0 * 1_000_000))
            <= time_base.1,
    ensures
        due >= elapsed ==> elapsed + early_by(timestamp, time_base, elapsed) == due,
        due <= elapsed ==> early_by(timestamp, time_base, elapsed) == 0,
{
    let micros = Rational(1, 1_000_000);
    assert(time_base.0 * micros.1 == time_base.0 * 1_000_000);
    assert(time_base.1 * micros.0 == time_base.1);
    law_conversion_is_nearest(timestamp as int, time_base, micros, due);
}

} // verus!
