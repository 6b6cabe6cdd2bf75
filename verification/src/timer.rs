//! The timer tick.

use vstd::prelude::*;

use crate::sync::SeqLock;

verus! {

/// The cycles between two timer interrupts.
pub const INTERVAL: u64 = 100000;

/// Every so many ticks the count is reported on the console.
pub const REPORT_EVERY: u64 = 100;

/// What is to be done when the timer has fired at time `now`: the time to set the next
/// timeout for, and the tick count to report, if this tick is one to report. The tick
/// count goes up by one under the writer lock of hart `hart`.
pub fn set_next_timeout(tick: &mut SeqLock<u64>, hart: usize, now: u64) -> (r: (u64, Option<u64>))
    requires
        old(tick).wf(),
        !old(tick).lock.locked,
        hart <= isize::MAX,
    ensures
        final(tick).wf(),
        !final(tick).lock.locked,
        r.0 == now.wrapping_add(INTERVAL),
        final(tick).data == old(tick).data.wrapping_add(1),
        final(tick).seq == old(tick).seq.wrapping_add(1).wrapping_add(1),
        r.1 == (if final(tick).data % REPORT_EVERY == 0 {
            Some(final(tick).data)
        } else {
            None
        }),
{
    let deadline: u64 = now.wrapping_add(INTERVAL);
    let guard = tick.writer_lock(hart, false);
    tick.data = tick.data.wrapping_add(1);
    let count: u64 = tick.data;
    tick.writer_unlock(guard);
    if count % REPORT_EVERY == 0 {
        (deadline, Some(count))
    } else {
        (deadline, None)
    }
}

/// The tick count, where no writer is at work on it; `None` where one is, and the
/// reader is to try again.
pub fn read_tick(tick: &SeqLock<u64>) -> (r: Option<u64>)
    ensures
        r == (if tick.seq % 2 == 0 {
            Some(tick.data)
        } else {
            None
        }),
{
    match tick.read() {
        Some(t) => Some(*t),
        None => None,
    }
}

} // verus!
