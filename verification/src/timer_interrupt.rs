//! The timer tick: re-arming the next deadline and counting ticks.
use vstd::prelude::*;

verus! {

/// Timer ticks between interrupts (0.1 s at 10 MHz).
pub const TIMER_INTERVAL: u64 = 1_000_000;

/// Every this many ticks a dot is printed.
pub const TICKS_PER_DOT: u64 = 10;

/// The number of timer interrupts taken.
pub struct Ticks {
    pub count: u64,
}

/// What to do on a timer interrupt: the next deadline to arm, and whether
/// to print a dot.
#[derive(PartialEq, Eq, Structural, Clone, Copy, Debug)]
pub struct TimerAction {
    pub next_deadline: u64,
    pub print_dot: bool,
}

impl Ticks {
    pub fn new() -> (r: Self)
        ensures
            r.count == 0,
    {
        Ticks { count: 0 }
    }

    /// Counts one tick; true when a dot is due (every tenth tick).
    pub fn tick(&mut self) -> (dot: bool)
        requires
            old(self).count < u64::MAX,
        ensures
            final(self).count == old(self).count + 1,
            dot == (final(self).count % TICKS_PER_DOT == 0),
    {
        self.count = self.count + 1;
        self.count % TICKS_PER_DOT == 0
    }
}

/// The deadline one interval after `now`. Given the deadline that just
/// passed, the next one follows it by exactly one interval, with no drift.
pub fn set_timer_interval_for_interrupt(now: u64) -> (r: u64)
    requires
        now + TIMER_INTERVAL <= u64::MAX,
    ensures
        r == now + TIMER_INTERVAL,
{
    now + TIMER_INTERVAL
}

/// Handles the timer interrupt for the deadline `previous_deadline`:
/// re-arms first, one interval after that deadline (so the ticks do not
/// drift with the handler's latency), then counts the tick.
pub fn handle_timer_interrupt(ticks: &mut Ticks, previous_deadline: u64) -> (r: TimerAction)
    requires
        previous_deadline + TIMER_INTERVAL <= u64::MAX,
        old(ticks).count < u64::MAX,
    ensures
        r.next_deadline == previous_deadline + TIMER_INTERVAL,
        final(ticks).count == old(ticks).count + 1,
        r.print_dot == (final(ticks).count % TICKS_PER_DOT == 0),
{
    let next_deadline = set_timer_interval_for_interrupt(previous_deadline);
    let print_dot = ticks.tick();
    TimerAction { next_deadline, print_dot }
}

} // verus!
