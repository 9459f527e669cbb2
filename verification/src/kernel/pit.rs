//! The interval timer: how it is programmed, and the count of its ticks.

use vstd::prelude::*;

verus! {

/// The ticks per second that the kernel asks for.
pub const TIMER_FREQ: u32 = 1000;

/// The frequency of the oscillator of the timer.
pub const PIT_FREQ: u32 = 1193180;

/// The value that the counter of the timer is loaded with, as its low and
/// its high byte: the oscillator frequency divided by the tick frequency.
pub fn pit_reload() -> (r: (u8, u8))
    ensures
        r.0 + 256 * r.1 == PIT_FREQ as int / TIMER_FREQ as int,
{
    let count: u16 = (PIT_FREQ / TIMER_FREQ) as u16;
    assert(count == 1193);
    assert(count >> 8u16 == 4 && (count & 0xff) == 169) by (bit_vector)
        requires
            count == 1193,
    ;
    ((count & 0xff) as u8, (count >> 8) as u8)
}

/// The number of timer ticks since the kernel started. It wraps around
/// where 64 bits are full.
pub struct TickCounter {
    ticks: u64,
}

impl View for TickCounter {
    type V = u64;

    closed spec fn view(&self) -> u64 {
        self.ticks
    }
}

impl TickCounter {
    /// A counter that has seen no tick.
    pub fn new() -> (r: Self)
        ensures
            r@ == 0,
    {
        TickCounter { ticks: 0 }
    }
}

/// The number of ticks that `counter` has seen.
pub fn tick(counter: &TickCounter) -> (r: u64)
    ensures
        r == counter@,
{
    counter.ticks
}

/// Counts one tick.
pub fn timer_handler(counter: &mut TickCounter)
    ensures
        final(counter)@ == if old(counter)@ == u64::MAX {
            0
        } else {
            old(counter)@ + 1
        },
{
    if counter.ticks == u64::MAX {
        counter.ticks = 0;
    } else {
        counter.ticks += 1;
    }
}

} // verus!
