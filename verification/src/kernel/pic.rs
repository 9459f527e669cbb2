//! The interrupt request lines of the two chained interrupt controllers.

use vstd::prelude::*;

verus! {

/// The interrupt number of the first request line.
pub const PIC_INT_OFFSET: u8 = 0x20;

/// An interrupt request line.
#[allow(non_camel_case_types)]
#[derive(Debug, Clone, Copy, PartialEq, Eq, Structural)]
pub enum Irq {
    TIMER,
    KEYBOARD,
    SLAVE,
    SERIAL1,
    SERIAL2,
    PARALLEL1,
    FLOPPY,
    PARALLEL2,
    RTC,
    MOUSE,
    COPROC,
    HDD1,
    HDD2,
}

impl Irq {
    /// The number of the request line on the controllers.
    pub open spec fn line(self) -> nat {
        match self {
            Irq::TIMER => 0,
            Irq::KEYBOARD => 1,
            Irq::SLAVE => 2,
            Irq::SERIAL1 => 3,
            Irq::SERIAL2 => 4,
            Irq::PARALLEL1 => 5,
            Irq::FLOPPY => 6,
            Irq::PARALLEL2 => 7,
            Irq::RTC => 8,
            Irq::MOUSE => 12,
            Irq::COPROC => 13,
            Irq::HDD1 => 14,
            Irq::HDD2 => 15,
        }
    }

    /// The number of the request line on the controllers.
    pub fn number(self) -> (r: u8)
        ensures
            r == self.line(),
    {
        match self {
            Irq::TIMER => 0,
            Irq::KEYBOARD => 1,
            Irq::SLAVE => 2,
            Irq::SERIAL1 => 3,
            Irq::SERIAL2 => 4,
            Irq::PARALLEL1 => 5,
            Irq::FLOPPY => 6,
            Irq::PARALLEL2 => 7,
            Irq::RTC => 8,
            Irq::MOUSE => 12,
            Irq::COPROC => 13,
            Irq::HDD1 => 14,
            Irq::HDD2 => 15,
        }
    }

    /// The interrupt number under which the processor sees the line.
    pub fn as_intn(self) -> (r: usize)
        ensures
            r == PIC_INT_OFFSET + self.line(),
    {
        (PIC_INT_OFFSET + self.number()) as usize
    }

    /// The bit that stands for the line in a mask of request lines.
    pub fn mask_bit(self) -> (r: u16)
        ensures
            r == 1u16 << (self.line() as u16),
    {
        1u16 << (self.number() as u16)
    }
}

} // verus!
